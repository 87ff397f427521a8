//! The plan of a rebuilt disc image: where each part goes, which bytes
//! each file takes, and the rewritten disc header and FST.
//!
//! Carrying out a plan only copies bytes: the system area with the header
//! of the plan, the apploader, the DOL at its new offset, the FST of the
//! plan at its new offset, and each file, in the order of the plan, from
//! its replacement or from its original place.

use vstd::prelude::*;
use crate::utils::{read_u32_be, spec_read_u32_be};
use crate::text::to_string;
use crate::formats::iso::iso::{IsoFileEntry, IsoFileModel, files_view, spec_strip_files_root, strip_files_root};
use crate::formats::iso::iso_rebuild::{
    choose_replacement, keys_view, order_by_offset, patch_disc_header, patch_fst_entry, plan_layout,
    spec_choose_replacement, spec_dol_offset, spec_file_offset, spec_files_start, spec_fst_offset,
    spec_len_sum, spec_patch_disc_header, lemma_choice_bound, spec_patch_fst_entry, spec_written_before,
};

verus! {

/// The size of the apploader with its 0x20-byte header: the header's code
/// size (at 0x14) and trailer size (at 0x18) added to it.
pub open spec fn spec_apploader_full(header: Seq<u8>) -> int {
    0x20 + spec_read_u32_be(header, 0x14) + spec_read_u32_be(header, 0x18)
}

/// The full size of the apploader whose header is `header` (its first
/// 0x20 bytes at least).
pub fn apploader_full_size(header: &[u8]) -> (res: u64)
    requires
        header@.len() >= 0x20,
    ensures
        res == spec_apploader_full(header@),
{
    let size = read_u32_be(header, 0x14) as u64;
    let trailer = read_u32_be(header, 0x18) as u64;
    0x20 + size + trailer
}

/// One file of a rebuilt image: which listed file, which replacement it
/// takes (none: its original bytes), and where and how long it is written.
pub struct FileWrite {
    pub file: usize,
    pub replacement: Option<usize>,
    pub offset: u64,
    pub size: u64,
}

/// Everything a rebuild writes that is not copied as it was.
pub struct RebuildPlan {
    pub dol_offset: u64,
    pub fst_offset: u64,
    /// The system area with the new DOL and FST offsets and FST size.
    pub sys: Vec<u8>,
    /// The FST with each file's new offset and size.
    pub fst: Vec<u8>,
    /// The files in the order they are written.
    pub writes: Vec<FileWrite>,
    /// Where the image ends.
    pub end: u64,
}

/// The path of a listed file below `files`, or its whole path where it
/// lies elsewhere.
pub open spec fn spec_rel_path(path: Seq<char>) -> Seq<char> {
    match spec_strip_files_root(path) {
        Some(p) => p,
        None => path,
    }
}

/// The replacement a listed file takes.
pub open spec fn spec_file_choice(f: IsoFileModel, keys: Seq<Seq<char>>) -> Option<nat> {
    spec_choose_replacement(spec_rel_path(f.path), f.path, keys)
}

/// An index as a plain value.
pub open spec fn opt_index(o: Option<usize>) -> Option<nat> {
    match o {
        Some(k) => Some(k as nat),
        None => None,
    }
}

/// The size a file has in the rebuilt image: its replacement's where it
/// takes one, else its own.
pub open spec fn spec_written_size(f: IsoFileModel, choice: Option<nat>, key_lens: Seq<u64>) -> u64 {
    match choice {
        Some(k) => key_lens[k as int],
        None => f.size,
    }
}

/// The sizes of the written files, in order.
pub open spec fn spec_write_sizes(writes: Seq<FileWrite>) -> Seq<u64> {
    Seq::new(writes.len(), |i: int| writes[i].size)
}

/// The FST with the entries of the first `n` written files rewritten.
pub open spec fn spec_patched_fst(fst: Seq<u8>, files: Seq<IsoFileModel>, writes: Seq<FileWrite>, n: nat) -> Seq<u8>
    decreases n,
{
    if n == 0 {
        fst
    } else {
        let w = writes[n - 1];
        spec_patch_fst_entry(
            spec_patched_fst(fst, files, writes, (n - 1) as nat),
            files[w.file as int].fst_index as int,
            w.offset,
            w.size,
        )
    }
}

/// The sizes a rebuild handles fit the disc format: 32-bit file and
/// replacement sizes, at most 2^28 files (an FST of 32-bit size holds
/// fewer), a 32-bit FST, and an apploader and a DOL that 32-bit sizes
/// describe.
pub open spec fn spec_rebuild_bounded(
    apploader_full: u64,
    dol_size: u64,
    fst: Seq<u8>,
    files: Seq<IsoFileModel>,
    key_lens: Seq<u64>,
) -> bool {
    &&& apploader_full <= 0x3_0000_0000
    &&& dol_size <= 0x3_0000_0000
    &&& fst.len() <= 0xFFFF_FFFF
    &&& files.len() <= 0x1000_0000
    &&& forall|i: int| 0 <= i < files.len() ==> #[trigger] files[i].size <= 0xFFFF_FFFF
    &&& forall|k: int| 0 <= k < key_lens.len() ==> #[trigger] key_lens[k] <= 0xFFFF_FFFF
}

proof fn lemma_len_sum_bound(lens: Seq<u64>, k: nat)
    requires
        k <= lens.len(),
        forall|i: int| 0 <= i < lens.len() ==> #[trigger] lens[i] <= 0xFFFF_FFFF,
    ensures
        spec_len_sum(lens, k) <= k * 0xFFFF_FFFF,
    decreases k,
{
    if k > 0 {
        lemma_len_sum_bound(lens, (k - 1) as nat);
    }
}

fn rel_path_of(path: &str) -> (res: String)
    ensures
        res@ == spec_rel_path(path@),
{
    match strip_files_root(path) {
        Some(p) => p,
        None => to_string(path),
    }
}

/// Plans a rebuilt image: the DOL and FST offsets, the files in the order
/// of their original offsets, each with the replacement it takes, its new
/// offset and its size, and the header and FST rewritten to match.
/// `keys` are the paths of the replacements and `key_lens` their sizes.
#[verifier::rlimit(40)]
#[verifier::spinoff_prover]
pub fn plan_rebuild(
    sys: Vec<u8>,
    apploader_full: u64,
    dol_size: u64,
    fst: Vec<u8>,
    files: &[IsoFileEntry],
    keys: &[String],
    key_lens: &[u64],
) -> (res: RebuildPlan)
    requires
        sys@.len() >= 0x430,
        keys@.len() == key_lens@.len(),
        spec_rebuild_bounded(apploader_full, dol_size, fst@, files_view(files@), key_lens@),
    ensures
        res.dol_offset == spec_dol_offset(apploader_full as int),
        res.fst_offset == spec_fst_offset(apploader_full as int, dol_size as int),
        res.writes@.len() == files@.len(),
        forall|i: int| 0 <= i < res.writes@.len() ==> #[trigger] res.writes@[i].file < files@.len(),
        forall|i: int, j: int|
            0 <= i < j < res.writes@.len() ==> spec_written_before(
                files_view(files@),
                res.writes@[i].file as int,
                res.writes@[j].file as int,
            ),
        forall|i: int|
            0 <= i < res.writes@.len() ==> {
                let w = #[trigger] res.writes@[i];
                let f = files_view(files@)[w.file as int];
                &&& opt_index(w.replacement) == spec_file_choice(f, keys_view(keys@))
                &&& w.size == spec_written_size(f, spec_file_choice(f, keys_view(keys@)), key_lens@)
                &&& w.offset == spec_file_offset(
                    spec_files_start(apploader_full as int, dol_size as int, fst@.len() as int),
                    spec_write_sizes(res.writes@),
                    i as nat,
                )
            },
        res.end == spec_file_offset(
            spec_files_start(apploader_full as int, dol_size as int, fst@.len() as int),
            spec_write_sizes(res.writes@),
            files@.len() as nat,
        ),
        res.fst@ == spec_patched_fst(fst@, files_view(files@), res.writes@, files@.len() as nat),
        res.sys@ == spec_patch_disc_header(sys@, res.dol_offset, res.fst_offset, fst@.len() as u64),
{
    let ghost fv = files_view(files@);
    let ghost kv = keys_view(keys@);
    let order = order_by_offset(files);
    let n = order.len();
    let mut choices: Vec<Option<usize>> = Vec::new();
    let mut lens: Vec<u64> = Vec::new();
    let mut i: usize = 0;
    while i < n
        invariant
            i <= n,
            n == order@.len(),
            n == files@.len(),
            fv == files_view(files@),
            kv == keys_view(keys@),
            keys@.len() == key_lens@.len(),
            spec_rebuild_bounded(apploader_full, dol_size, fst@, fv, key_lens@),
            forall|j: int| 0 <= j < n ==> order@[j] < files@.len(),
            choices@.len() == i,
            lens@.len() == i,
            forall|j: int|
                0 <= j < i ==> {
                    let f = fv[order@[j] as int];
                    &&& opt_index(#[trigger] choices@[j]) == spec_file_choice(f, kv)
                    &&& lens@[j] == spec_written_size(f, spec_file_choice(f, kv), key_lens@)
                },
            forall|j: int| 0 <= j < i ==> #[trigger] lens@[j] <= 0xFFFF_FFFF,
        decreases n - i,
    {
        let f = order[i];
        let path = files[f].path.as_str();
        let rel = rel_path_of(path);
        let choice = choose_replacement(rel.as_str(), path, keys);
        proof {
            assert(fv[f as int].path == path@);
            lemma_choice_bound(rel@, path@, kv);
        }
        let size = match choice {
            Some(k) => key_lens[k],
            None => files[f].size,
        };
        proof {
            assert(fv[f as int].size == files@[f as int].size);
            assert(spec_rebuild_bounded(apploader_full, dol_size, fst@, fv, key_lens@));
            assert(fv[f as int].size <= 0xFFFF_FFFF);
            if let Some(k) = choice {
                assert(key_lens@[k as int] <= 0xFFFF_FFFF);
            }
        }
        let ghost (c0, l0) = (choices@, lens@);
        choices.push(choice);
        lens.push(size);
        proof {
            assert(choices@ == c0.push(choice));
            assert(lens@ == l0.push(size));
            assert(opt_index(choice) == spec_file_choice(fv[f as int], kv));
        }
        i = i + 1;
    }
    proof {
        lemma_len_sum_bound(lens@, n as nat);
        assert(n * 0xFFFF_FFFF <= 0x1000_0000 * 0xFFFF_FFFF) by (nonlinear_arith)
            requires
                n <= 0x1000_0000,
        ;
    }
    let layout = plan_layout(apploader_full, dol_size, fst.len() as u64, lens.as_slice());
    let ghost start = spec_files_start(apploader_full as int, dol_size as int, fst@.len() as int);
    let ghost fst0 = fst@;
    let fst_len = fst.len() as u64;
    let mut new_fst = fst;
    let mut writes: Vec<FileWrite> = Vec::new();
    let mut j: usize = 0;
    while j < n
        invariant
            j <= n,
            n == order@.len(),
            n == files@.len(),
            n == lens@.len(),
            n == choices@.len(),
            fv == files_view(files@),
            forall|q: int| 0 <= q < n ==> order@[q] < files@.len(),
            layout.file_offsets@.len() == n,
            forall|q: int|
                0 <= q < n ==> layout.file_offsets@[q] == spec_file_offset(start, lens@, q as nat),
            writes@.len() == j,
            forall|q: int|
                0 <= q < j ==> {
                    let w = #[trigger] writes@[q];
                    &&& w.file == order@[q]
                    &&& w.replacement == choices@[q]
                    &&& w.offset == layout.file_offsets@[q]
                    &&& w.size == lens@[q]
                },
            new_fst@ == spec_patched_fst(fst0, fv, writes@, j as nat),
        decreases n - j,
    {
        let w = FileWrite {
            file: order[j],
            replacement: choices[j],
            offset: layout.file_offsets[j],
            size: lens[j],
        };
        let idx = files[order[j]].fst_index;
        proof {
            assert(fv[order@[j as int] as int].fst_index == idx);
        }
        patch_fst_entry(&mut new_fst, idx, w.offset, w.size);
        let ghost before = writes@;
        writes.push(w);
        proof {
            lemma_patched_prefix(fst0, fv, writes@, before, j as nat);
        }
        j = j + 1;
    }
    proof {
        assert(spec_write_sizes(writes@) =~= lens@);
    }
    let mut new_sys = sys;
    patch_disc_header(&mut new_sys, layout.dol_offset, layout.fst_offset, fst_len);
    RebuildPlan {
        dol_offset: layout.dol_offset,
        fst_offset: layout.fst_offset,
        sys: new_sys,
        fst: new_fst,
        writes,
        end: layout.end,
    }
}

proof fn lemma_patched_prefix(fst: Seq<u8>, files: Seq<IsoFileModel>, a: Seq<FileWrite>, b: Seq<FileWrite>, n: nat)
    requires
        n <= a.len(),
        n <= b.len(),
        forall|q: int| 0 <= q < n ==> a[q] == b[q],
    ensures
        spec_patched_fst(fst, files, a, n) == spec_patched_fst(fst, files, b, n),
    decreases n,
{
    if n > 0 {
        lemma_patched_prefix(fst, files, a, b, (n - 1) as nat);
    }
}

} // verus!
