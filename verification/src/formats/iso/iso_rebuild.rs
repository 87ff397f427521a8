//! The layout of a rebuilt disc image.
//!
//! A rebuilt image keeps the system area and the apploader where they
//! were, then places the DOL, the FST and every file anew: the DOL and the
//! FST each after 0x20 bytes of padding and on a 0x100 boundary, the files
//! after the FST in the order of their original offsets, each on a 4-byte
//! boundary. A file takes the bytes of a replacement where one matches its
//! path, else its original bytes; its FST entry is rewritten with its new
//! offset and size.

use vstd::prelude::*;
use crate::utils::{read_u32_be, spec_read_u32_be, write_u32_be, spec_u32_be_bytes, spec_splice};
use crate::text::str_eq;
use crate::formats::iso::iso::{IsoFileEntry, IsoFileModel, files_view};

verus! {

/// Where the system area (boot block and bi2) ends and the apploader
/// begins.
pub const APPLOADER_OFFSET: u64 = 0x2440;

/// The larger of two integers.
pub open spec fn spec_max(a: int, b: int) -> int {
    if a < b {
        b
    } else {
        a
    }
}

/// The end of the furthest of the first `n` text sections of a DOL header.
pub open spec fn spec_dol_text_end(h: Seq<u8>, n: nat) -> int
    decreases n,
{
    if n == 0 {
        0
    } else {
        let i = n - 1;
        spec_max(
            spec_dol_text_end(h, (n - 1) as nat),
            spec_read_u32_be(h, 4 * i) + spec_read_u32_be(h, 0x90 + 4 * i),
        )
    }
}

/// The end of the furthest section, text sections and the first `n` data
/// sections, of a DOL header.
pub open spec fn spec_dol_data_end(h: Seq<u8>, n: nat) -> int
    decreases n,
{
    if n == 0 {
        spec_dol_text_end(h, 7)
    } else {
        let i = n - 1;
        spec_max(
            spec_dol_data_end(h, (n - 1) as nat),
            spec_read_u32_be(h, 0x1C + 4 * i) + spec_read_u32_be(h, 0xAC + 4 * i),
        )
    }
}

/// The size of a DOL: the end of its furthest section among its seven
/// text and eleven data sections.
pub open spec fn spec_dol_size(h: Seq<u8>) -> int {
    spec_dol_data_end(h, 11)
}

/// Where text section `i` of a DOL ends: its file offset plus its size.
pub open spec fn spec_text_section_end(h: Seq<u8>, i: int) -> int {
    spec_read_u32_be(h, 4 * i) + spec_read_u32_be(h, 0x90 + 4 * i)
}

/// Where data section `i` of a DOL ends: its file offset plus its size.
pub open spec fn spec_data_section_end(h: Seq<u8>, i: int) -> int {
    spec_read_u32_be(h, 0x1C + 4 * i) + spec_read_u32_be(h, 0xAC + 4 * i)
}

proof fn lemma_text_end_bounds(h: Seq<u8>, n: nat)
    requires
        1 <= n <= 7,
    ensures
        forall|i: int| 0 <= i < n ==> spec_dol_text_end(h, n) >= #[trigger] spec_text_section_end(h, i),
        exists|i: int| 0 <= i < n && spec_dol_text_end(h, n) == #[trigger] spec_text_section_end(h, i),
    decreases n,
{
    let last = (n - 1) as int;
    assert(spec_text_section_end(h, last) == spec_read_u32_be(h, 4 * last) + spec_read_u32_be(h, 0x90 + 4 * last));
    if n > 1 {
        lemma_text_end_bounds(h, (n - 1) as nat);
        if spec_dol_text_end(h, n) != spec_text_section_end(h, last) {
            let i = choose|i: int| 0 <= i < n - 1 && spec_dol_text_end(h, (n - 1) as nat) == #[trigger] spec_text_section_end(h, i);
            assert(spec_dol_text_end(h, n) == spec_text_section_end(h, i));
        }
    } else {
        assert(spec_dol_text_end(h, 0) == 0);
    }
}

proof fn lemma_data_end_bounds(h: Seq<u8>, n: nat)
    requires
        n <= 11,
    ensures
        forall|i: int| 0 <= i < 7 ==> spec_dol_data_end(h, n) >= #[trigger] spec_text_section_end(h, i),
        forall|i: int| 0 <= i < n ==> spec_dol_data_end(h, n) >= #[trigger] spec_data_section_end(h, i),
        (exists|i: int| 0 <= i < 7 && spec_dol_data_end(h, n) == #[trigger] spec_text_section_end(h, i)) || (exists|i: int|
            0 <= i < n && spec_dol_data_end(h, n) == #[trigger] spec_data_section_end(h, i)),
    decreases n,
{
    if n == 0 {
        lemma_text_end_bounds(h, 7);
    } else {
        let last = (n - 1) as int;
        assert(spec_data_section_end(h, last) == spec_read_u32_be(h, 0x1C + 4 * last) + spec_read_u32_be(h, 0xAC + 4 * last));
        lemma_data_end_bounds(h, (n - 1) as nat);
        if spec_dol_data_end(h, n) != spec_data_section_end(h, last) {
            assert(spec_dol_data_end(h, n) == spec_dol_data_end(h, (n - 1) as nat));
            if exists|i: int| 0 <= i < 7 && spec_dol_data_end(h, (n - 1) as nat) == #[trigger] spec_text_section_end(h, i) {
                let i = choose|i: int| 0 <= i < 7 && spec_dol_data_end(h, (n - 1) as nat) == #[trigger] spec_text_section_end(h, i);
                assert(spec_dol_data_end(h, n) == spec_text_section_end(h, i));
            } else {
                let i = choose|i: int| 0 <= i < n - 1 && spec_dol_data_end(h, (n - 1) as nat) == #[trigger] spec_data_section_end(h, i);
                assert(spec_dol_data_end(h, n) == spec_data_section_end(h, i));
            }
        }
    }
}

/// Law: the size of a DOL is the end of its furthest section: no smaller
/// than where any of its seven text and eleven data sections ends, and
/// exactly where one of them ends.
pub proof fn lemma_dol_size_is_furthest_end(h: Seq<u8>)
    ensures
        forall|i: int| 0 <= i < 7 ==> spec_dol_size(h) >= #[trigger] spec_text_section_end(h, i),
        forall|i: int| 0 <= i < 11 ==> spec_dol_size(h) >= #[trigger] spec_data_section_end(h, i),
        (exists|i: int| 0 <= i < 7 && spec_dol_size(h) == #[trigger] spec_text_section_end(h, i)) || (exists|i: int|
            0 <= i < 11 && spec_dol_size(h) == #[trigger] spec_data_section_end(h, i)),
{
    lemma_data_end_bounds(h, 11);
}

/// The size of the DOL whose header is `header` (its first 0xD8 bytes at
/// least).
pub fn dol_size_from_header(header: &[u8]) -> (res: u64)
    requires
        header@.len() >= 0xD8,
    ensures
        res == spec_dol_size(header@),
{
    let mut size: u64 = 0;
    let mut i: usize = 0;
    while i < 7
        invariant
            i <= 7,
            header@.len() >= 0xD8,
            size == spec_dol_text_end(header@, i as nat),
            size <= 2 * 0xFFFF_FFFFu64,
        decreases 7 - i,
    {
        let off = read_u32_be(header, 4 * i) as u64;
        let sz = read_u32_be(header, 0x90 + 4 * i) as u64;
        if size < off + sz {
            size = off + sz;
        }
        i = i + 1;
    }
    let mut j: usize = 0;
    while j < 11
        invariant
            j <= 11,
            header@.len() >= 0xD8,
            size == spec_dol_data_end(header@, j as nat),
            size <= 2 * 0xFFFF_FFFFu64,
        decreases 11 - j,
    {
        let off = read_u32_be(header, 0x1C + 4 * j) as u64;
        let sz = read_u32_be(header, 0xAC + 4 * j) as u64;
        if size < off + sz {
            size = off + sz;
        }
        j = j + 1;
    }
    size
}

/// `pos` moved up to the next multiple of `alignment`.
pub open spec fn spec_align(pos: int, alignment: int) -> int {
    pos + (alignment - pos % alignment) % alignment
}

/// Moves `pos` up to the next multiple of `alignment`.
pub fn align_up(pos: u64, alignment: u64) -> (res: u64)
    requires
        alignment > 0,
        pos + alignment <= u64::MAX,
    ensures
        res == spec_align(pos as int, alignment as int),
{
    pos + (alignment - pos % alignment) % alignment
}

/// What aligning does: the result is the first multiple of `a` at or
/// after `pos`.
pub proof fn lemma_align(pos: int, a: int)
    requires
        a > 0,
        pos >= 0,
    ensures
        pos <= spec_align(pos, a) < pos + a,
        spec_align(pos, a) % a == 0,
{
    let r = pos % a;
    assert(0 <= r < a);
    if r == 0 {
        assert((a - r) % a == 0) by {
            vstd::arithmetic::div_mod::lemma_mod_self_0(a);
        }
    } else {
        assert((a - r) % a == a - r) by {
            vstd::arithmetic::div_mod::lemma_small_mod((a - r) as nat, a as nat);
        }
        assert((pos + (a - r)) % a == 0) by {
            vstd::arithmetic::div_mod::lemma_fundamental_div_mod(pos, a);
            vstd::arithmetic::div_mod::lemma_mod_multiples_basic(pos / a + 1, a);
            assert(pos + (a - r) == (pos / a + 1) * a) by (nonlinear_arith)
                requires
                    pos == a * (pos / a) + r,
            ;
        }
    }
}

/// Where the rebuilt DOL starts: after the apploader and 0x20 bytes of
/// padding, on a 0x100 boundary.
pub open spec fn spec_dol_offset(apploader_full: int) -> int {
    spec_align(0x2440 + apploader_full + 0x20, 0x100)
}

/// Where the rebuilt FST starts: after the DOL and 0x20 bytes of padding,
/// on a 0x100 boundary.
pub open spec fn spec_fst_offset(apploader_full: int, dol_size: int) -> int {
    spec_align(spec_dol_offset(apploader_full) + dol_size + 0x20, 0x100)
}

/// Where the first file starts: after the FST, on a 4-byte boundary.
pub open spec fn spec_files_start(apploader_full: int, dol_size: int, fst_size: int) -> int {
    spec_align(spec_fst_offset(apploader_full, dol_size) + fst_size, 4)
}

/// Where file `k` of the rebuilt image starts, the files being written
/// one after the other from `start`, each on a 4-byte boundary; for `k`
/// equal to the number of files, where the image ends.
pub open spec fn spec_file_offset(start: int, lens: Seq<u64>, k: nat) -> int
    decreases k,
{
    if k == 0 {
        start
    } else {
        spec_align(spec_file_offset(start, lens, (k - 1) as nat) + lens[k - 1], 4)
    }
}

/// The sum of the first `k` lengths.
pub open spec fn spec_len_sum(lens: Seq<u64>, k: nat) -> int
    decreases k,
{
    if k == 0 {
        0
    } else {
        spec_len_sum(lens, (k - 1) as nat) + lens[k - 1]
    }
}

/// Where everything of a rebuilt image goes.
pub struct RebuildLayout {
    pub dol_offset: u64,
    pub fst_offset: u64,
    pub file_offsets: Vec<u64>,
    pub end: u64,
}

/// The inputs of a layout fit in the 64-bit offsets of the output.
pub open spec fn spec_layout_fits(apploader_full: int, dol_size: int, fst_size: int, lens: Seq<u64>) -> bool {
    0x2440 + apploader_full + dol_size + fst_size + spec_len_sum(lens, lens.len()) + 4 * lens.len()
        + 0x400 <= u64::MAX
}

proof fn lemma_file_offset_bound(start: int, lens: Seq<u64>, k: nat)
    requires
        start >= 0,
        k <= lens.len(),
    ensures
        start <= spec_file_offset(start, lens, k) <= start + spec_len_sum(lens, k) + 4 * k,
    decreases k,
{
    if k > 0 {
        lemma_file_offset_bound(start, lens, (k - 1) as nat);
        lemma_align(spec_file_offset(start, lens, (k - 1) as nat) + lens[k - 1], 4);
    }
}

proof fn lemma_len_sum_mono(lens: Seq<u64>, j: nat, k: nat)
    requires
        j <= k <= lens.len(),
    ensures
        spec_len_sum(lens, j) <= spec_len_sum(lens, k),
    decreases k,
{
    if j < k {
        lemma_len_sum_mono(lens, j, (k - 1) as nat);
    }
}

/// Plans where the DOL, the FST and each file go in a rebuilt image.
/// `apploader_full` is the apploader's size with its header, `lens` the
/// sizes of the files in the order they are written.
pub fn plan_layout(apploader_full: u64, dol_size: u64, fst_size: u64, lens: &[u64]) -> (res: RebuildLayout)
    requires
        spec_layout_fits(apploader_full as int, dol_size as int, fst_size as int, lens@),
    ensures
        res.dol_offset == spec_dol_offset(apploader_full as int),
        res.fst_offset == spec_fst_offset(apploader_full as int, dol_size as int),
        res.file_offsets@.len() == lens@.len(),
        forall|k: int|
            0 <= k < lens@.len() ==> res.file_offsets@[k] == spec_file_offset(
                spec_files_start(apploader_full as int, dol_size as int, fst_size as int),
                lens@,
                k as nat,
            ),
        res.end == spec_file_offset(
            spec_files_start(apploader_full as int, dol_size as int, fst_size as int),
            lens@,
            lens@.len(),
        ),
{
    proof {
        lemma_len_sum_mono(lens@, 0, lens@.len());
        lemma_align(0x2440 + apploader_full + 0x20, 0x100);
    }
    let dol_offset = align_up(APPLOADER_OFFSET + apploader_full + 0x20, 0x100);
    proof {
        lemma_align(dol_offset + dol_size + 0x20, 0x100);
    }
    let fst_offset = align_up(dol_offset + dol_size + 0x20, 0x100);
    proof {
        lemma_align(fst_offset + fst_size, 4);
    }
    let start = align_up(fst_offset + fst_size, 4);
    let ghost n = lens@.len();
    assert(start + spec_len_sum(lens@, n) + 4 * n <= u64::MAX);
    let mut offsets: Vec<u64> = Vec::new();
    let mut pos = start;
    let mut k: usize = 0;
    while k < lens.len()
        invariant
            k <= lens@.len(),
            n == lens@.len(),
            start == spec_files_start(apploader_full as int, dol_size as int, fst_size as int),
            start + spec_len_sum(lens@, n) + 4 * n <= u64::MAX,
            pos == spec_file_offset(start as int, lens@, k as nat),
            offsets@.len() == k,
            forall|j: int| 0 <= j < k ==> offsets@[j] == spec_file_offset(start as int, lens@, j as nat),
        decreases lens@.len() - k,
    {
        proof {
            lemma_file_offset_bound(start as int, lens@, k as nat);
            lemma_len_sum_mono(lens@, (k + 1) as nat, n);
            lemma_align(pos + lens@[k as int], 4);
        }
        offsets.push(pos);
        pos = align_up(pos + lens[k], 4);
        k = k + 1;
    }
    RebuildLayout { dol_offset, fst_offset, file_offsets: offsets, end: pos }
}

/// A rebuilt image is laid out without overlap: the DOL starts on a 0x100
/// boundary after the apploader and its padding, the FST on a 0x100
/// boundary after the DOL and its padding, and the files, each on a 4-byte
/// boundary, follow the FST and one another without overlapping.
#[verifier::spinoff_prover]
pub proof fn lemma_layout_disjoint(apploader_full: u64, dol_size: u64, fst_size: u64, lens: Seq<u64>)
    ensures
        spec_dol_offset(apploader_full as int) % 0x100 == 0,
        spec_dol_offset(apploader_full as int) >= 0x2440 + apploader_full + 0x20,
        spec_fst_offset(apploader_full as int, dol_size as int) % 0x100 == 0,
        spec_fst_offset(apploader_full as int, dol_size as int) >= spec_dol_offset(apploader_full as int)
            + dol_size + 0x20,
        forall|k: nat|
            #![trigger lens[k as int]]
            k < lens.len() ==> {
                let start = spec_files_start(apploader_full as int, dol_size as int, fst_size as int);
                &&& spec_file_offset(start, lens, k) % 4 == 0
                &&& spec_file_offset(start, lens, k) >= spec_fst_offset(apploader_full as int, dol_size as int)
                    + fst_size
                &&& spec_file_offset(start, lens, k) + lens[k as int] <= spec_file_offset(
                    start,
                    lens,
                    k + 1,
                )
            },
{
    lemma_align(0x2440 + apploader_full + 0x20, 0x100);
    let d = spec_dol_offset(apploader_full as int);
    lemma_align(d + dol_size + 0x20, 0x100);
    let f = spec_fst_offset(apploader_full as int, dol_size as int);
    lemma_align(f + fst_size, 4);
    let start = spec_files_start(apploader_full as int, dol_size as int, fst_size as int);
    assert forall|k: nat| #![trigger lens[k as int]] k < lens.len() implies {
        &&& spec_file_offset(start, lens, k) % 4 == 0
        &&& spec_file_offset(start, lens, k) >= f + fst_size
        &&& spec_file_offset(start, lens, k) + lens[k as int] <= spec_file_offset(start, lens, k + 1)
    } by {
        lemma_file_offset_aligned(start, lens, k);
        lemma_file_offset_bound(start, lens, k);
        lemma_align(spec_file_offset(start, lens, k) + lens[k as int], 4);
    }
}

proof fn lemma_file_offset_aligned(start: int, lens: Seq<u64>, k: nat)
    requires
        start >= 0,
        start % 4 == 0,
        k <= lens.len(),
    ensures
        spec_file_offset(start, lens, k) % 4 == 0,
    decreases k,
{
    if k > 0 {
        lemma_file_offset_aligned(start, lens, (k - 1) as nat);
        lemma_file_offset_bound(start, lens, (k - 1) as nat);
        lemma_align(spec_file_offset(start, lens, (k - 1) as nat) + lens[k - 1], 4);
    }
}

/// Whether file `a` comes before file `b` in the rebuilt image: by
/// original offset, and in listing order where offsets are equal.
pub open spec fn spec_written_before(files: Seq<IsoFileModel>, a: int, b: int) -> bool {
    files[a].offset < files[b].offset || (files[a].offset == files[b].offset && a < b)
}

/// The order in which the files are written: by original offset, files
/// with equal offsets keeping their listing order. The result names every
/// file once.
pub fn order_by_offset(files: &[IsoFileEntry]) -> (res: Vec<usize>)
    ensures
        res@.len() == files@.len(),
        forall|i: int| 0 <= i < res@.len() ==> res@[i] < files@.len(),
        forall|i: int, j: int|
            0 <= i < j < res@.len() ==> spec_written_before(
                files_view(files@),
                res@[i] as int,
                res@[j] as int,
            ),
{
    let ghost fv = files_view(files@);
    let mut order: Vec<usize> = Vec::new();
    let mut k: usize = 0;
    while k < files.len()
        invariant
            k <= files@.len(),
            fv == files_view(files@),
            order@.len() == k,
            forall|i: int| 0 <= i < order@.len() ==> order@[i] < k,
            forall|i: int, j: int|
                0 <= i < j < order@.len() ==> spec_written_before(fv, order@[i] as int, order@[j] as int),
        decreases files@.len() - k,
    {
        let off = files[k].offset;
        let mut p: usize = 0;
        while p < order.len() && files[order[p]].offset <= off
            invariant
                p <= order@.len(),
                k < files@.len(),
                off == fv[k as int].offset,
                fv == files_view(files@),
                forall|i: int| 0 <= i < order@.len() ==> order@[i] < k,
                forall|i: int| 0 <= i < p ==> fv[order@[i] as int].offset <= off,
            decreases order@.len() - p,
        {
            p = p + 1;
        }
        proof {
            assert forall|i: int| p <= i < order@.len() implies fv[order@[i] as int].offset > off by {
                assert(fv[order@[p as int] as int].offset > off);
                if i > p {
                    assert(spec_written_before(fv, order@[p as int] as int, order@[i] as int));
                }
            }
        }
        let ghost old_order = order@;
        order.insert(p, k);
        proof {
            assert forall|i: int, j: int| 0 <= i < j < order@.len() implies spec_written_before(
                fv,
                order@[i] as int,
                order@[j] as int,
            ) by {
                if j < p {
                    assert(order@[i] == old_order[i] && order@[j] == old_order[j]);
                } else if j == p {
                    assert(order@[i] == old_order[i]);
                } else if i == p {
                    assert(order@[j] == old_order[j - 1]);
                } else if i < p {
                    assert(order@[i] == old_order[i] && order@[j] == old_order[j - 1]);
                } else {
                    assert(order@[i] == old_order[i - 1] && order@[j] == old_order[j - 1]);
                }
            }
        }
        k = k + 1;
    }
    order
}

/// The characters of each key.
pub open spec fn keys_view(keys: Seq<String>) -> Seq<Seq<char>> {
    keys.map_values(|k: String| k@)
}

/// The first key equal to `target`.
pub open spec fn spec_first_key(keys: Seq<Seq<char>>, target: Seq<char>) -> Option<nat>
    decreases keys.len(),
{
    if keys.len() == 0 {
        None
    } else {
        match spec_first_key(keys.drop_last(), target) {
            Some(k) => Some(k),
            None => if keys.last() == target {
                Some((keys.len() - 1) as nat)
            } else {
                None
            },
        }
    }
}

/// Which replacement a file takes: the one keyed by its path below
/// `files`, else the one keyed by its full path; none otherwise, so that a
/// file no key names exactly passes through untouched.
pub open spec fn spec_choose_replacement(rel_path: Seq<char>, full_path: Seq<char>, keys: Seq<Seq<char>>) -> Option<nat> {
    match spec_first_key(keys, rel_path) {
        Some(k) => Some(k),
        None => spec_first_key(keys, full_path),
    }
}

proof fn lemma_first_key_bound(keys: Seq<Seq<char>>, target: Seq<char>)
    ensures
        spec_first_key(keys, target) matches Some(k) ==> k < keys.len(),
    decreases keys.len(),
{
    if keys.len() > 0 {
        lemma_first_key_bound(keys.drop_last(), target);
    }
}

/// The chosen replacement is one of the keys.
pub proof fn lemma_choice_bound(rel_path: Seq<char>, full_path: Seq<char>, keys: Seq<Seq<char>>)
    ensures
        spec_choose_replacement(rel_path, full_path, keys) matches Some(k) ==> k < keys.len(),
{
    lemma_first_key_bound(keys, rel_path);
    lemma_first_key_bound(keys, full_path);
}

proof fn lemma_first_key_prefix(keys: Seq<Seq<char>>, target: Seq<char>, n: nat)
    requires
        n <= keys.len(),
        spec_first_key(keys.take(n as int), target) is Some,
    ensures
        spec_first_key(keys, target) == spec_first_key(keys.take(n as int), target),
    decreases keys.len() - n,
{
    if n < keys.len() {
        assert(keys.take(n as int + 1).drop_last() =~= keys.take(n as int));
        lemma_first_key_prefix(keys, target, n + 1);
    } else {
        assert(keys.take(n as int) =~= keys);
    }
}

fn first_key(keys: &[String], target: &str) -> (res: Option<usize>)
    ensures
        match spec_first_key(keys_view(keys@), target@) {
            Some(k) => res == Some(k as usize),
            None => res is None,
        },
{
    let ghost kv = keys_view(keys@);
    let mut k: usize = 0;
    while k < keys.len()
        invariant
            k <= keys@.len(),
            kv == keys_view(keys@),
            spec_first_key(kv.take(k as int), target@) is None,
        decreases keys@.len() - k,
    {
        assert(kv.take(k + 1).drop_last() =~= kv.take(k as int));
        if str_eq(keys[k].as_str(), target) {
            proof {
                lemma_first_key_prefix(kv, target@, (k + 1) as nat);
            }
            return Some(k);
        }
        k = k + 1;
    }
    assert(kv.take(keys@.len() as int) =~= kv);
    None
}

/// Chooses the replacement for a file from the keys of the replacements,
/// taken in the given order.
pub fn choose_replacement(rel_path: &str, full_path: &str, keys: &[String]) -> (res: Option<usize>)
    ensures
        match spec_choose_replacement(rel_path@, full_path@, keys_view(keys@)) {
            Some(k) => res == Some(k as usize),
            None => res is None,
        },
{
    match first_key(keys, rel_path) {
        Some(k) => Some(k),
        None => first_key(keys, full_path),
    }
}

/// The FST with entry `index` pointing at `offset` and `size` (their low
/// 32 bits); unchanged where the entry lies outside the table.
pub open spec fn spec_patch_fst_entry(fst: Seq<u8>, index: int, offset: u64, size: u64) -> Seq<u8> {
    if 12 * index + 12 <= fst.len() {
        spec_splice(
            spec_splice(fst, 12 * index + 4, spec_u32_be_bytes((offset % 0x1_0000_0000) as u32)),
            12 * index + 8,
            spec_u32_be_bytes((size % 0x1_0000_0000) as u32),
        )
    } else {
        fst
    }
}

/// Points FST entry `index` at a file's new offset and size.
pub fn patch_fst_entry(fst: &mut Vec<u8>, index: usize, offset: u64, size: u64)
    ensures
        final(fst)@ == spec_patch_fst_entry(old(fst)@, index as int, offset, size),
{
    let len = fst.len();
    if index >= len / 12 {
        return;
    }
    let base = index * 12;
    let o = (offset % 0x1_0000_0000) as u32;
    let s = (size % 0x1_0000_0000) as u32;
    write_u32_be(fst.as_mut_slice(), base + 4, o);
    write_u32_be(fst.as_mut_slice(), base + 8, s);
}

/// The disc header with the DOL offset (at 0x420), the FST offset (0x424)
/// and the FST size, twice (0x428 and 0x42C), written in.
pub open spec fn spec_patch_disc_header(sys: Seq<u8>, dol_offset: u64, fst_offset: u64, fst_size: u64) -> Seq<u8> {
    let s1 = spec_splice(sys, 0x420, spec_u32_be_bytes((dol_offset % 0x1_0000_0000) as u32));
    let s2 = spec_splice(s1, 0x424, spec_u32_be_bytes((fst_offset % 0x1_0000_0000) as u32));
    let s3 = spec_splice(s2, 0x428, spec_u32_be_bytes((fst_size % 0x1_0000_0000) as u32));
    spec_splice(s3, 0x42C, spec_u32_be_bytes((fst_size % 0x1_0000_0000) as u32))
}

/// Writes the new DOL offset, FST offset and FST size into the disc
/// header (the first 0x430 bytes at least of `sys`).
pub fn patch_disc_header(sys: &mut Vec<u8>, dol_offset: u64, fst_offset: u64, fst_size: u64)
    requires
        old(sys)@.len() >= 0x430,
    ensures
        final(sys)@ == spec_patch_disc_header(old(sys)@, dol_offset, fst_offset, fst_size),
{
    let d = (dol_offset % 0x1_0000_0000) as u32;
    let f = (fst_offset % 0x1_0000_0000) as u32;
    let s = (fst_size % 0x1_0000_0000) as u32;
    let ghost s0 = sys@;
    write_u32_be(sys.as_mut_slice(), 0x420, d);
    let ghost s1 = sys@;
    assert(s1 == spec_splice(s0, 0x420, spec_u32_be_bytes(d)));
    assert(s1.len() == s0.len());
    write_u32_be(sys.as_mut_slice(), 0x424, f);
    let ghost s2 = sys@;
    assert(s2 == spec_splice(s1, 0x424, spec_u32_be_bytes(f)));
    assert(s2.len() == s0.len());
    write_u32_be(sys.as_mut_slice(), 0x428, s);
    let ghost s3 = sys@;
    assert(s3 == spec_splice(s2, 0x428, spec_u32_be_bytes(s)));
    assert(s3.len() == s0.len());
    write_u32_be(sys.as_mut_slice(), 0x42C, s);
}

/// A big-endian word spliced into bytes reads back there, and no other
/// byte changes.
proof fn lemma_splice_u32_reads(data: Seq<u8>, off: int, v: u32)
    requires
        0 <= off,
        off + 4 <= data.len(),
    ensures
        spec_splice(data, off, spec_u32_be_bytes(v)).len() == data.len(),
        spec_read_u32_be(spec_splice(data, off, spec_u32_be_bytes(v)), off) == v,
        forall|j: int|
            0 <= j < data.len() && (j < off || j >= off + 4) ==> #[trigger] spec_splice(
                data,
                off,
                spec_u32_be_bytes(v),
            )[j] == data[j],
{
    let b = spec_u32_be_bytes(v);
    let p = spec_splice(data, off, b);
    crate::utils::lemma_u32_be_roundtrip(v);
    assert(p[off] == b[0]);
    assert(p[off + 1] == b[1]);
    assert(p[off + 2] == b[2]);
    assert(p[off + 3] == b[3]);
    assert forall|j: int| 0 <= j < data.len() && (j < off || j >= off + 4) implies #[trigger] p[j] == data[j] by {
        if j >= off + 4 {
            assert(p[j] == data.subrange(off + 4, data.len() as int)[j - off - 4]);
        }
    }
}

/// Law: a patched FST entry reads back the new offset and size (their low
/// 32 bits) in its second and third words, and every other byte of the
/// table is as it was.
pub proof fn lemma_patch_fst_entry_reads(fst: Seq<u8>, index: int, offset: u64, size: u64)
    requires
        0 <= index,
        12 * index + 12 <= fst.len(),
    ensures
        ({
            let p = spec_patch_fst_entry(fst, index, offset, size);
            &&& p.len() == fst.len()
            &&& spec_read_u32_be(p, 12 * index + 4) as int == offset as int % 0x1_0000_0000
            &&& spec_read_u32_be(p, 12 * index + 8) as int == size as int % 0x1_0000_0000
            &&& forall|j: int|
                0 <= j < fst.len() && (j < 12 * index + 4 || j >= 12 * index + 12) ==> #[trigger] p[j] == fst[j]
        }),
{
    let o = (offset % 0x1_0000_0000) as u32;
    let z = (size % 0x1_0000_0000) as u32;
    let p1 = spec_splice(fst, 12 * index + 4, spec_u32_be_bytes(o));
    lemma_splice_u32_reads(fst, 12 * index + 4, o);
    lemma_splice_u32_reads(p1, 12 * index + 8, z);
    let p = spec_patch_fst_entry(fst, index, offset, size);
    assert(spec_read_u32_be(p, 12 * index + 4) == spec_read_u32_be(p1, 12 * index + 4)) by {
        assert(p[12 * index + 4] == p1[12 * index + 4]);
        assert(p[12 * index + 5] == p1[12 * index + 5]);
        assert(p[12 * index + 6] == p1[12 * index + 6]);
        assert(p[12 * index + 7] == p1[12 * index + 7]);
    }
    assert forall|j: int| 0 <= j < fst.len() && (j < 12 * index + 4 || j >= 12 * index + 12) implies #[trigger] p[j]
        == fst[j] by {
        assert(p1[j] == fst[j]);
    }
}

/// Law: a patched disc header reads back the DOL offset at 0x420, the FST
/// offset at 0x424 and the FST size at 0x428 and 0x42C (their low 32
/// bits), and every other byte is as it was.
pub proof fn lemma_patch_disc_header_reads(sys: Seq<u8>, dol_offset: u64, fst_offset: u64, fst_size: u64)
    requires
        sys.len() >= 0x430,
    ensures
        ({
            let p = spec_patch_disc_header(sys, dol_offset, fst_offset, fst_size);
            &&& p.len() == sys.len()
            &&& spec_read_u32_be(p, 0x420) as int == dol_offset as int % 0x1_0000_0000
            &&& spec_read_u32_be(p, 0x424) as int == fst_offset as int % 0x1_0000_0000
            &&& spec_read_u32_be(p, 0x428) as int == fst_size as int % 0x1_0000_0000
            &&& spec_read_u32_be(p, 0x42C) as int == fst_size as int % 0x1_0000_0000
            &&& forall|j: int| 0 <= j < sys.len() && (j < 0x420 || j >= 0x430) ==> #[trigger] p[j] == sys[j]
        }),
{
    let d = (dol_offset % 0x1_0000_0000) as u32;
    let f = (fst_offset % 0x1_0000_0000) as u32;
    let z = (fst_size % 0x1_0000_0000) as u32;
    let s1 = spec_splice(sys, 0x420, spec_u32_be_bytes(d));
    let s2 = spec_splice(s1, 0x424, spec_u32_be_bytes(f));
    let s3 = spec_splice(s2, 0x428, spec_u32_be_bytes(z));
    let p = spec_splice(s3, 0x42C, spec_u32_be_bytes(z));
    lemma_splice_u32_reads(sys, 0x420, d);
    lemma_splice_u32_reads(s1, 0x424, f);
    lemma_splice_u32_reads(s2, 0x428, z);
    lemma_splice_u32_reads(s3, 0x42C, z);
    assert(spec_read_u32_be(p, 0x420) == spec_read_u32_be(s1, 0x420)) by {
        assert(p[0x420] == s3[0x420] && s3[0x420] == s2[0x420] && s2[0x420] == s1[0x420]);
        assert(p[0x421] == s3[0x421] && s3[0x421] == s2[0x421] && s2[0x421] == s1[0x421]);
        assert(p[0x422] == s3[0x422] && s3[0x422] == s2[0x422] && s2[0x422] == s1[0x422]);
        assert(p[0x423] == s3[0x423] && s3[0x423] == s2[0x423] && s2[0x423] == s1[0x423]);
    }
    assert(spec_read_u32_be(p, 0x424) == spec_read_u32_be(s2, 0x424)) by {
        assert(p[0x424] == s3[0x424] && s3[0x424] == s2[0x424]);
        assert(p[0x425] == s3[0x425] && s3[0x425] == s2[0x425]);
        assert(p[0x426] == s3[0x426] && s3[0x426] == s2[0x426]);
        assert(p[0x427] == s3[0x427] && s3[0x427] == s2[0x427]);
    }
    assert(spec_read_u32_be(p, 0x428) == spec_read_u32_be(s3, 0x428)) by {
        assert(p[0x428] == s3[0x428]);
        assert(p[0x429] == s3[0x429]);
        assert(p[0x42A] == s3[0x42A]);
        assert(p[0x42B] == s3[0x42B]);
    }
    assert forall|j: int| 0 <= j < sys.len() && (j < 0x420 || j >= 0x430) implies #[trigger] p[j] == sys[j] by {
        assert(s3[j] == s2[j] && s2[j] == s1[j] && s1[j] == sys[j]);
    }
}

/// Law: each part of a rebuilt image starts at the first boundary it may:
/// the DOL at the first 0x100 boundary past the apploader and its padding,
/// the FST at the first 0x100 boundary past the DOL and its padding, the
/// first file at the first 4-byte boundary past the FST, and each next
/// file at the first 4-byte boundary past the one before.
pub proof fn lemma_layout_tight(apploader_full: u64, dol_size: u64, fst_size: u64, lens: Seq<u64>)
    ensures
        spec_dol_offset(apploader_full as int) < 0x2440 + apploader_full + 0x20 + 0x100,
        spec_fst_offset(apploader_full as int, dol_size as int) < spec_dol_offset(apploader_full as int) + dol_size
            + 0x20 + 0x100,
        spec_files_start(apploader_full as int, dol_size as int, fst_size as int) < spec_fst_offset(
            apploader_full as int,
            dol_size as int,
        ) + fst_size + 4,
        forall|k: nat|
            #![trigger lens[k as int]]
            k < lens.len() ==> spec_file_offset(
                spec_files_start(apploader_full as int, dol_size as int, fst_size as int),
                lens,
                k + 1,
            ) < spec_file_offset(
                spec_files_start(apploader_full as int, dol_size as int, fst_size as int),
                lens,
                k,
            ) + lens[k as int] + 4,
{
    lemma_align(0x2440 + apploader_full + 0x20, 0x100);
    let d = spec_dol_offset(apploader_full as int);
    lemma_align(d + dol_size + 0x20, 0x100);
    let f = spec_fst_offset(apploader_full as int, dol_size as int);
    lemma_align(f + fst_size, 4);
    let start = spec_files_start(apploader_full as int, dol_size as int, fst_size as int);
    assert forall|k: nat| #![trigger lens[k as int]] k < lens.len() implies spec_file_offset(start, lens, k + 1)
        < spec_file_offset(start, lens, k) + lens[k as int] + 4 by {
        lemma_file_offset_bound(start, lens, k);
        lemma_align(spec_file_offset(start, lens, k) + lens[k as int], 4);
    }
}

} // verus!
