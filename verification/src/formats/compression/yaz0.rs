//! Yaz0 decompression and compression.
//!
//! A Yaz0 stream is a 16-byte header (`Yaz0`, the big-endian decompressed
//! size, 8 reserved bytes) followed by groups: a code byte whose bits, from
//! the most significant one down, say whether the next item is a literal byte
//! or a back-reference into the output produced so far.

use vstd::prelude::*;
use crate::utils::{read_u32_be, spec_read_u32_be, lemma_skip_concat, lemma_u32_be_roundtrip};

verus! {

/// The 4-byte magic that starts a Yaz0 stream.
pub open spec fn spec_magic_yaz0() -> Seq<u8> {
    seq![89u8, 97u8, 122u8, 48u8]
}

/// Whether the code byte marks item `bit` of its group as a literal.
pub open spec fn spec_code_bit(code: u8, bit: nat) -> bool {
    (code & (0x80u8 >> (bit as u8))) != 0
}

/// Appends `n` bytes to `out`, each copied from `pos` onward in the output
/// as it grows (so that an overlapping copy repeats a pattern).
pub open spec fn spec_lz_copy(out: Seq<u8>, pos: int, n: nat) -> Seq<u8>
    decreases n,
{
    if n == 0 {
        out
    } else {
        spec_lz_copy(out.push(out[pos]), pos + 1, (n - 1) as nat)
    }
}

/// The decoder between groups: `src` is where the next code byte is read,
/// `out` the output so far.
pub open spec fn spec_yaz0_run(input: Seq<u8>, size: nat, src: int, out: Seq<u8>) -> Option<
    Seq<u8>,
>
    decreases input.len() - src, 0nat,
{
    if out.len() >= size {
        if out.len() == size {
            Some(out)
        } else {
            None
        }
    } else if src < 0 || src >= input.len() {
        None
    } else {
        spec_yaz0_group(input, size, input[src], 0, src + 1, out)
    }
}

/// The decoder inside a group: item `bit` of the group with code byte `code`
/// is read from `src`.
pub open spec fn spec_yaz0_group(
    input: Seq<u8>,
    size: nat,
    code: u8,
    bit: nat,
    src: int,
    out: Seq<u8>,
) -> Option<Seq<u8>>
    decreases input.len() - src, 1nat,
{
    if bit >= 8 {
        spec_yaz0_run(input, size, src, out)
    } else if src < 0 || src >= input.len() {
        None
    } else if spec_code_bit(code, bit) {
        let out2 = out.push(input[src]);
        if out2.len() >= size {
            spec_yaz0_run(input, size, src + 1, out2)
        } else {
            spec_yaz0_group(input, size, code, bit + 1, src + 1, out2)
        }
    } else if src + 1 >= input.len() {
        None
    } else {
        let b1 = input[src];
        let b2 = input[src + 1];
        let dist = (b1 % 16) as int * 256 + b2 as int;
        if b1 / 16 == 0 && src + 2 >= input.len() {
            None
        } else if dist + 1 > out.len() {
            None
        } else {
            let len: nat = if b1 / 16 == 0 {
                input[src + 2] as nat + 18
            } else {
                b1 as nat / 16 + 2
            };
            let next: int = if b1 / 16 == 0 {
                src + 3
            } else {
                src + 2
            };
            let out2 = spec_lz_copy(out, out.len() - dist - 1, len);
            if out2.len() >= size {
                spec_yaz0_run(input, size, next, out2)
            } else {
                spec_yaz0_group(input, size, code, bit + 1, next, out2)
            }
        }
    }
}

/// What a byte string decompresses to, or `None` when it is not a complete
/// Yaz0 stream.
pub open spec fn spec_yaz0_decompress(input: Seq<u8>) -> Option<Seq<u8>> {
    if input.len() < 16 || input.subrange(0, 4) != spec_magic_yaz0() {
        None
    } else {
        spec_yaz0_run(input, spec_read_u32_be(input, 4) as nat, 16, Seq::empty())
    }
}

proof fn lemma_lz_copy_len(out: Seq<u8>, pos: int, n: nat)
    ensures
        spec_lz_copy(out, pos, n).len() == out.len() + n,
    decreases n,
{
    if n > 0 {
        lemma_lz_copy_len(out.push(out[pos]), pos + 1, (n - 1) as nat);
    }
}

fn has_magic(input: &[u8]) -> (res: bool)
    requires
        input@.len() >= 4,
    ensures
        res == (input@.subrange(0, 4) == spec_magic_yaz0()),
{
    let r = input[0] == 89u8 && input[1] == 97u8 && input[2] == 122u8 && input[3] == 48u8;
    proof {
        if r {
            assert(input@.subrange(0, 4) =~= spec_magic_yaz0());
        } else if input@.subrange(0, 4) == spec_magic_yaz0() {
            assert(input@.subrange(0, 4)[0] == input@[0]);
            assert(input@.subrange(0, 4)[1] == input@[1]);
            assert(input@.subrange(0, 4)[2] == input@[2]);
            assert(input@.subrange(0, 4)[3] == input@[3]);
        }
    }
    r
}

/// Decompresses a Yaz0 stream; `None` when the header is missing or the
/// stream does not decode to exactly the size its header announces.
pub fn yaz0_decompress(input: &[u8]) -> (res: Option<Vec<u8>>)
    ensures
        match res {
            Some(v) => spec_yaz0_decompress(input@) == Some(v@),
            None => spec_yaz0_decompress(input@) is None,
        },
{
    if input.len() < 16 || !has_magic(input) {
        return None;
    }
    let uncompressed_size = read_u32_be(input, 4) as usize;
    let ghost size: nat = uncompressed_size as nat;
    let ghost target = spec_yaz0_decompress(input@);
    let mut out: Vec<u8> = Vec::new();
    let mut src: usize = 16;
    while out.len() < uncompressed_size
        invariant
            uncompressed_size == size,
            target == spec_yaz0_decompress(input@),
            src <= input@.len(),
            spec_yaz0_run(input@, size, src as int, out@) == target,
        decreases input@.len() - src,
    {
        if src >= input.len() {
            return None;
        }
        let code = input[src];
        let ghost src_start = src;
        src = src + 1;
        let mut bit: usize = 0;
        while bit < 8 && out.len() < uncompressed_size
            invariant
                uncompressed_size == size,
                target == spec_yaz0_decompress(input@),
                src_start < src <= input@.len(),
                bit <= 8,
                out@.len() >= size ==> spec_yaz0_run(input@, size, src as int, out@) == target,
                out@.len() < size ==> spec_yaz0_group(input@, size, code, bit as nat, src as int, out@)
                    == target,
            decreases 8 - bit,
        {
            if (code & (0x80u8 >> (bit as u8))) != 0 {
                if src >= input.len() {
                    return None;
                }
                out.push(input[src]);
                src = src + 1;
            } else {
                if input.len() - src <= 1 {
                    return None;
                }
                let b1 = input[src];
                let b2 = input[src + 1];
                src = src + 2;
                let dist: usize = ((b1 % 16) as usize) * 256 + (b2 as usize);
                let mut copy_len: usize = (b1 / 16) as usize;
                if copy_len == 0 {
                    if src >= input.len() {
                        return None;
                    }
                    let extra = input[src] as usize;
                    src = src + 1;
                    copy_len = extra + 18;
                } else {
                    copy_len = copy_len + 2;
                }
                if dist + 1 > out.len() {
                    return None;
                }
                let backref_pos = out.len() - (dist + 1);
                let ghost out0 = out@;
                let mut i: usize = 0;
                while i < copy_len
                    invariant
                        out@.len() == out0.len() + i,
                        backref_pos < out0.len(),
                        i <= copy_len,
                        spec_lz_copy(out0, backref_pos as int, copy_len as nat) == spec_lz_copy(
                            out@,
                            backref_pos + i,
                            (copy_len - i) as nat,
                        ),
                    decreases copy_len - i,
                {
                    let n = out.len();
                    let val = out[backref_pos + i];
                    out.push(val);
                    i = i + 1;
                }
                proof {
                    lemma_lz_copy_len(out0, backref_pos as int, copy_len as nat);
                }
            }
            bit = bit + 1;
        }
    }
    if out.len() != uncompressed_size {
        None
    } else {
        Some(out)
    }
}

/// Search window of the compressor.
pub open spec fn spec_search_depth() -> nat {
    0x1000
}

/// Longest run a single back-reference can encode.
pub open spec fn spec_max_run() -> nat {
    0x111
}

/// Length of the common run of `data` from `p` and from `offset`, counted
/// from `k` and capped at `max_check`.
pub open spec fn spec_match_len_from(data: Seq<u8>, p: int, offset: int, max_check: nat, k: nat) -> nat
    decreases max_check - k,
{
    if k < max_check && data[p + k] == data[offset + k] {
        spec_match_len_from(data, p, offset, max_check, k + 1)
    } else {
        k
    }
}

/// The longest earlier run, scanning candidates from `p` to `end`; ties
/// keep the earliest candidate.
pub open spec fn spec_best_match(
    data: Seq<u8>,
    offset: int,
    max_check: nat,
    p: int,
    end: int,
    best_len: nat,
    best_pos: int,
) -> (nat, int)
    decreases end - p,
{
    if p >= end {
        (best_len, best_pos)
    } else {
        let l = spec_match_len_from(data, p, offset, max_check, 0);
        if l > best_len {
            spec_best_match(data, offset, max_check, p + 1, end, l, p)
        } else {
            spec_best_match(data, offset, max_check, p + 1, end, best_len, best_pos)
        }
    }
}

/// The compressor's match search at `offset`: the length and position of
/// the longest run within the search window that repeats what starts at
/// `offset`.
pub open spec fn spec_find_match(data: Seq<u8>, offset: int, search_depth: nat, max_run: nat) -> (
    nat,
    int,
) {
    let search_start: int = if offset > search_depth {
        offset - search_depth
    } else {
        0
    };
    let rest: int = data.len() - offset;
    let max_check: nat = if rest < max_run {
        rest as nat
    } else {
        max_run
    };
    spec_best_match(data, offset, max_check, search_start, offset, 0, 0)
}

/// One item of a compressed stream.
pub enum Yaz0Token {
    /// A byte copied as is.
    Literal(u8),
    /// A copy of `len` bytes starting `dist + 1` bytes back in the output.
    Backref(u64, u64),
}

/// The match search with the compressor's window and run limit.
pub open spec fn spec_match_at(data: Seq<u8>, offset: int) -> (nat, int) {
    spec_find_match(data, offset, spec_search_depth(), spec_max_run())
}

/// The items the compressor emits from `offset` on, `reserved` being the
/// match it already found for `offset` when looking ahead.
pub open spec fn spec_greedy(data: Seq<u8>, offset: int, reserved: Option<(nat, int)>) -> Seq<
    Yaz0Token,
>
    decreases data.len() - offset,
{
    if offset < 0 || offset >= data.len() {
        Seq::empty()
    } else {
        let (nb, mp) = match reserved {
            Some(r) => r,
            None => spec_match_at(data, offset),
        };
        if nb < 3 {
            let next: Option<(nat, int)> = if offset + 1 < data.len() {
                let (nx, np) = spec_match_at(data, offset + 1);
                if nx >= nb + 2 {
                    Some((nx, np))
                } else {
                    None
                }
            } else {
                None
            };
            seq![Yaz0Token::Literal(data[offset])] + spec_greedy(data, offset + 1, next)
        } else {
            seq![Yaz0Token::Backref((offset - mp - 1) as u64, nb as u64)] + if offset + nb
                <= data.len() {
                spec_greedy(data, offset + nb, None)
            } else {
                Seq::empty()
            }
        }
    }
}

/// The bytes that encode one item (its code bit lives in the group's code
/// byte).
pub open spec fn spec_token_bytes(t: Yaz0Token) -> Seq<u8> {
    match t {
        Yaz0Token::Literal(b) => seq![b],
        Yaz0Token::Backref(dist, len) => {
            if len >= 0x12 {
                seq![(dist / 256) as u8, (dist % 256) as u8, (len - 0x12) as u8]
            } else {
                seq![((len - 2) * 16 + dist / 256) as u8, (dist % 256) as u8]
            }
        },
    }
}

/// The bytes of the items of a group, in order.
pub open spec fn spec_group_bytes(toks: Seq<Yaz0Token>) -> Seq<u8>
    decreases toks.len(),
{
    if toks.len() == 0 {
        Seq::empty()
    } else {
        spec_group_bytes(toks.drop_last()) + spec_token_bytes(toks.last())
    }
}

/// The code byte of a group: bit `i` (counted from the top) set for each
/// literal item `i`.
pub open spec fn spec_mask(toks: Seq<Yaz0Token>) -> u8
    decreases toks.len(),
{
    if toks.len() == 0 {
        0
    } else {
        let m = spec_mask(toks.drop_last());
        if toks.last() is Literal {
            m | (0x80u8 >> ((toks.len() - 1) as u8))
        } else {
            m
        }
    }
}

/// The encoding of the items from group `g` on, eight items per group.
pub open spec fn spec_encode_from(toks: Seq<Yaz0Token>, g: nat) -> Seq<u8>
    decreases toks.len() + 8 - 8 * g,
{
    if 8 * g >= toks.len() {
        Seq::empty()
    } else {
        let end: int = if 8 * g + 8 <= toks.len() {
            8 * g as int + 8
        } else {
            toks.len() as int
        };
        let chunk = toks.subrange(8 * g as int, end);
        seq![spec_mask(chunk)] + spec_group_bytes(chunk) + spec_encode_from(toks, g + 1)
    }
}

/// The header the compressor writes for an input of `len` bytes.
pub open spec fn spec_yaz0_header(len: u32) -> Seq<u8> {
    spec_magic_yaz0() + crate::utils::spec_u32_be_bytes(len) + seq![0u8, 0u8, 0u8, 0u8, 0u8, 0u8, 0u8, 0u8]
}

/// What the compressor produces: the header, the greedy items in groups of
/// eight, and one trailing zero byte.
pub open spec fn spec_yaz0_compress(data: Seq<u8>) -> Seq<u8> {
    spec_yaz0_header(data.len() as u32) + spec_encode_from(spec_greedy(data, 0, None), 0) + seq![0u8]
}

proof fn lemma_match_len_from_bounds(data: Seq<u8>, p: int, offset: int, max_check: nat, k: nat)
    requires
        k <= max_check,
        0 <= p <= offset,
        offset + max_check <= data.len(),
    ensures
        k <= spec_match_len_from(data, p, offset, max_check, k) <= max_check,
        data.subrange(p + k, p + spec_match_len_from(data, p, offset, max_check, k)) =~= data.subrange(
            offset + k,
            offset + spec_match_len_from(data, p, offset, max_check, k),
        ),
    decreases max_check - k,
{
    if k < max_check && data[p + k] == data[offset + k] {
        lemma_match_len_from_bounds(data, p, offset, max_check, k + 1);
        let l = spec_match_len_from(data, p, offset, max_check, k);
        assert(l == spec_match_len_from(data, p, offset, max_check, k + 1));
        assert forall|i: int| 0 <= i < l - k implies #[trigger] data.subrange(p + k, p + l)[i] == data.subrange(
            offset + k,
            offset + l,
        )[i] by {
            if i > 0 {
                assert(data.subrange(p + k + 1, p + l)[i - 1] == data.subrange(
                    offset + k + 1,
                    offset + l,
                )[i - 1]);
            }
        }
    }
}

proof fn lemma_best_match_props(
    data: Seq<u8>,
    offset: int,
    max_check: nat,
    start: int,
    p: int,
    end: int,
    best_len: nat,
    best_pos: int,
)
    requires
        0 <= start <= p,
        end == offset,
        offset + max_check <= data.len(),
        best_len <= max_check,
        best_len > 0 ==> start <= best_pos < end,
        best_len > 0 ==> data.subrange(best_pos, best_pos + best_len) == data.subrange(
            offset,
            offset + best_len,
        ),
    ensures
        ({
            let (l, q) = spec_best_match(data, offset, max_check, p, end, best_len, best_pos);
            &&& l <= max_check
            &&& l >= best_len
            &&& l > 0 ==> start <= q < end
            &&& l > 0 ==> data.subrange(q, q + l) == data.subrange(offset, offset + l)
        }),
    decreases end - p,
{
    if p < end {
        let l = spec_match_len_from(data, p, offset, max_check, 0);
        lemma_match_len_from_bounds(data, p, offset, max_check, 0);
        if l > best_len {
            lemma_best_match_props(data, offset, max_check, start, p + 1, end, l, p);
        } else {
            lemma_best_match_props(data, offset, max_check, start, p + 1, end, best_len, best_pos);
        }
    }
}

/// The match search returns a run that really repeats, lies in the window
/// and is no longer than what is left or than the run limit.
proof fn lemma_find_match_props(data: Seq<u8>, offset: int, search_depth: nat, max_run: nat)
    requires
        0 <= offset < data.len(),
    ensures
        ({
            let (l, q) = spec_find_match(data, offset, search_depth, max_run);
            &&& l <= max_run
            &&& offset + l <= data.len()
            &&& l > 0 ==> offset - search_depth <= q < offset && 0 <= q
            &&& l > 0 ==> data.subrange(q, q + l) == data.subrange(offset, offset + l)
        }),
{
    let search_start: int = if offset > search_depth {
        offset - search_depth
    } else {
        0
    };
    let rest: int = data.len() - offset;
    let max_check: nat = if rest < max_run {
        rest as nat
    } else {
        max_run
    };
    lemma_best_match_props(data, offset, max_check, search_start, search_start, offset, 0, 0);
}

fn find_match(data: &[u8], offset: usize, search_depth: usize, max_run: usize) -> (res: (
    usize,
    usize,
))
    requires
        offset < data@.len(),
    ensures
        res.0 as nat == spec_find_match(data@, offset as int, search_depth as nat, max_run as nat).0,
        res.1 as int == spec_find_match(data@, offset as int, search_depth as nat, max_run as nat).1,
{
    let search_start = if offset > search_depth {
        offset - search_depth
    } else {
        0
    };
    let rest = data.len() - offset;
    let max_check = if rest < max_run {
        rest
    } else {
        max_run
    };
    let mut best_len: usize = 0;
    let mut best_pos: usize = 0;
    let mut search_pos = search_start;
    while search_pos < offset
        invariant
            search_start <= search_pos <= offset,
            offset < data@.len(),
            max_check <= data@.len() - offset,
            offset + max_check <= data@.len(),
            data@.len() <= usize::MAX,
            best_len <= max_check,
            spec_best_match(data@, offset as int, max_check as nat, search_start as int, offset as int, 0, 0)
                == spec_best_match(
                data@,
                offset as int,
                max_check as nat,
                search_pos as int,
                offset as int,
                best_len as nat,
                best_pos as int,
            ),
        decreases offset - search_pos,
    {
        let mut len: usize = 0;
        while len < max_check && data[search_pos + len] == data[offset + len]
            invariant
                len <= max_check,
                search_pos < offset,
                offset < data@.len(),
                max_check <= data@.len() - offset,
                offset + max_check <= data@.len(),
                data@.len() <= usize::MAX,
                spec_match_len_from(data@, search_pos as int, offset as int, max_check as nat, 0)
                    == spec_match_len_from(
                    data@,
                    search_pos as int,
                    offset as int,
                    max_check as nat,
                    len as nat,
                ),
            decreases max_check - len,
        {
            len = len + 1;
        }
        if len > best_len {
            best_len = len;
            best_pos = search_pos;
        }
        search_pos = search_pos + 1;
    }
    (best_len, best_pos)
}

/// The reserved look-ahead match of the compressor, as a specification value.
pub open spec fn spec_reserved_view(r: Option<(usize, usize)>) -> Option<(nat, int)> {
    match r {
        Some(x) => Some((x.0 as nat, x.1 as int)),
        None => None,
    }
}

/// A reserved match is the match search's result at the current offset.
pub open spec fn spec_reserved_ok(data: Seq<u8>, offset: int, r: Option<(usize, usize)>) -> bool {
    r matches Some(x) ==> offset < data.len() && x.0 as nat == spec_match_at(data, offset).0
        && x.1 as int == spec_match_at(data, offset).1
}

/// Yaz0 compression: greedy longest-match search over a 4 KiB window, with
/// a one-item look-ahead after each literal.
pub fn yaz0_compress(input: &[u8]) -> (res: Option<Vec<u8>>)
    ensures
        res is Some,
        res matches Some(v) ==> v@ == spec_yaz0_compress(input@),
{
    let mut out: Vec<u8> = Vec::new();
    out.push(89u8);
    out.push(97u8);
    out.push(122u8);
    out.push(48u8);
    let size = crate::utils::u32_be_bytes(#[verifier::truncate] (input.len() as u32));
    out.push(size[0]);
    out.push(size[1]);
    out.push(size[2]);
    out.push(size[3]);
    let mut z: usize = 0;
    while z < 8
        invariant
            z <= 8,
            out@ == spec_magic_yaz0() + size@ + Seq::new(z as nat, |i: int| 0u8),
        decreases 8 - z,
    {
        out.push(0u8);
        z = z + 1;
        assert(out@ =~= spec_magic_yaz0() + size@ + Seq::new(z as nat, |i: int| 0u8));
    }
    let ghost header = out@;
    assert(header =~= spec_yaz0_header(input@.len() as u32));
    let ghost all = spec_greedy(input@, 0, None);
    let mut uncomp_offset: usize = 0;
    let mut reserved: Option<(usize, usize)> = None;
    let ghost mut g: nat = 0;
    assert(all.skip(0) =~= all);
    while uncomp_offset < input.len()
        invariant
            all == spec_greedy(input@, 0, None),
            uncomp_offset <= input@.len(),
            uncomp_offset < input@.len() ==> 8 * g <= all.len() && all.skip(8 * g as int)
                == spec_greedy(input@, uncomp_offset as int, spec_reserved_view(reserved)),
            uncomp_offset == input@.len() ==> 8 * g >= all.len(),
            spec_reserved_ok(input@, uncomp_offset as int, reserved),
            out@ + spec_encode_from(all, g) == header + spec_encode_from(all, 0),
        decreases input@.len() - uncomp_offset,
    {
        let mut dst: Vec<u8> = Vec::new();
        let mut mask: u8 = 0;
        let mut bit: usize = 0;
        let ghost start_offset = uncomp_offset;
        while bit < 8 && uncomp_offset < input.len()
            invariant
                all == spec_greedy(input@, 0, None),
                uncomp_offset <= input@.len(),
                start_offset <= uncomp_offset,
                bit <= 8,
                bit > 0 ==> start_offset < uncomp_offset,
                8 * g + bit <= all.len(),
                all.skip(8 * g + bit) == spec_greedy(
                    input@,
                    uncomp_offset as int,
                    spec_reserved_view(reserved),
                ),
                spec_reserved_ok(input@, uncomp_offset as int, reserved),
                dst@ == spec_group_bytes(all.subrange(8 * g as int, 8 * g + bit)),
                mask == spec_mask(all.subrange(8 * g as int, 8 * g + bit)),
            decreases input@.len() - uncomp_offset,
        {
            let ghost rv = spec_reserved_view(reserved);
            let ghost off = uncomp_offset as int;
            let ghost k = 8 * g + bit;
            let (num_bytes, match_pos) = match reserved {
                Some(r) => {
                    reserved = None;
                    r
                },
                None => find_match(input, uncomp_offset, 0x1000, 0x111),
            };
            proof {
                lemma_find_match_props(input@, off, 0x1000, 0x111);
                let (nb0, mp0) = match rv {
                    Some(r) => r,
                    None => spec_match_at(input@, off),
                };
                assert(nb0 == num_bytes as nat && mp0 == match_pos as int);
                assert(spec_greedy(input@, off, rv).len() > 0);
                assert(all.skip(k).len() > 0);
                assert(all.skip(k) =~= seq![all[k]] + all.skip(k + 1));
            }
            let ghost prev = all.subrange(8 * g as int, k);
            if num_bytes < 3 {
                dst.push(input[uncomp_offset]);
                uncomp_offset = uncomp_offset + 1;
                mask = mask | (0x80u8 >> (bit as u8));
                if uncomp_offset < input.len() {
                    let (nb, np) = find_match(input, uncomp_offset, 0x1000, 0x111);
                    if nb >= num_bytes + 2 {
                        reserved = Some((nb, np));
                    }
                }
                proof {
                    let rest = spec_greedy(input@, off + 1, spec_reserved_view(reserved));
                    let lit = seq![Yaz0Token::Literal(input@[off])];
                    assert(spec_greedy(input@, off, rv) == lit + rest);
                    assert(all.skip(k)[0] == all[k]);
                    assert((lit + rest)[0] == Yaz0Token::Literal(input@[off]));
                    assert(all[k] == Yaz0Token::Literal(input@[off]));
                    assert(all.skip(k + 1) =~= all.skip(k).skip(1));
                    assert((lit + rest).skip(1) =~= rest);
                }
            } else {
                let dist = uncomp_offset - match_pos - 1;
                if num_bytes >= 0x12 {
                    dst.push((dist / 256) as u8);
                    dst.push((dist % 256) as u8);
                    let run = if num_bytes < 0x111 {
                        num_bytes
                    } else {
                        0x111
                    };
                    dst.push((run - 0x12) as u8);
                } else {
                    dst.push(((num_bytes - 2) * 16 + dist / 256) as u8);
                    dst.push((dist % 256) as u8);
                }
                uncomp_offset = uncomp_offset + num_bytes;
                proof {
                    let rest = spec_greedy(input@, off + num_bytes, None);
                    let tok = seq![Yaz0Token::Backref(dist as u64, num_bytes as u64)];
                    assert(spec_greedy(input@, off, rv) == tok + rest);
                    assert(all.skip(k)[0] == all[k]);
                    assert((tok + rest)[0] == Yaz0Token::Backref(dist as u64, num_bytes as u64));
                    assert(all[k] == Yaz0Token::Backref(dist as u64, num_bytes as u64));
                    assert(all.skip(k + 1) =~= all.skip(k).skip(1));
                    assert((tok + rest).skip(1) =~= rest);
                }
            }
            proof {
                let cur = all.subrange(8 * g as int, k + 1);
                assert(cur.drop_last() =~= prev);
                assert(cur.last() == all[k]);
                assert(cur.len() - 1 == bit);
            }
            bit = bit + 1;
        }
        let ghost chunk = all.subrange(8 * g as int, 8 * g + bit);
        proof {
            if uncomp_offset >= input@.len() {
                assert(all.skip(8 * g + bit).len() == 0);
            }
            let end: int = if 8 * g + 8 <= all.len() {
                8 * g as int + 8
            } else {
                all.len() as int
            };
            assert(end == 8 * g + bit);
        }
        let ghost before = out@;
        out.push(mask);
        let mut q: usize = 0;
        while q < dst.len()
            invariant
                q <= dst@.len(),
                out@ == before.push(mask) + dst@.take(q as int),
            decreases dst@.len() - q,
        {
            out.push(dst[q]);
            assert(dst@.take(q + 1) =~= dst@.take(q as int).push(dst@[q as int]));
            q = q + 1;
        }
        proof {
            assert(dst@.take(q as int) =~= dst@);
            assert(spec_encode_from(all, g) == seq![spec_mask(chunk)] + spec_group_bytes(chunk)
                + spec_encode_from(all, g + 1));
            assert(out@ =~= before + seq![spec_mask(chunk)] + spec_group_bytes(chunk));
            assert(out@ + spec_encode_from(all, g + 1) =~= before + spec_encode_from(all, g));
            g = g + 1;
        }
    }
    proof {
        assert(spec_encode_from(all, g) == Seq::<u8>::empty());
        assert(out@ =~= header + spec_encode_from(all, 0));
    }
    out.push(0u8);
    Some(out)
}

/// The output after applying one item.
pub open spec fn spec_expand_token(out: Seq<u8>, t: Yaz0Token) -> Seq<u8> {
    match t {
        Yaz0Token::Literal(b) => out.push(b),
        Yaz0Token::Backref(d, l) => spec_lz_copy(out, out.len() - d - 1, l as nat),
    }
}

/// An item the decoder reads back as written: a back-reference reaches
/// into the output so far and its distance and length fit the encoding.
pub open spec fn spec_token_valid(out: Seq<u8>, t: Yaz0Token) -> bool {
    match t {
        Yaz0Token::Literal(_) => true,
        Yaz0Token::Backref(d, l) => d <= 0xFFF && 3 <= l <= 0x111 && d + 1 <= out.len(),
    }
}

/// Applying `toks` to `out`, each item valid and growing the output along
/// a prefix of `data`, ends exactly at `data`.
pub open spec fn spec_tokens_rebuild(data: Seq<u8>, out: Seq<u8>, toks: Seq<Yaz0Token>) -> bool
    decreases toks.len(),
{
    if toks.len() == 0 {
        out == data
    } else {
        let out2 = spec_expand_token(out, toks[0]);
        &&& spec_token_valid(out, toks[0])
        &&& out.len() < out2.len() <= data.len()
        &&& out2 == data.take(out2.len() as int)
        &&& spec_tokens_rebuild(data, out2, toks.skip(1))
    }
}

proof fn lemma_lz_copy_repeat(data: Seq<u8>, off: int, mp: int, nb: nat, i: nat)
    requires
        0 <= mp < off,
        off + nb <= data.len(),
        i <= nb,
        data.subrange(mp, mp + nb) == data.subrange(off, off + nb),
    ensures
        spec_lz_copy(data.take(off + i), mp + i, (nb - i) as nat) == data.take(off + nb),
    decreases nb - i,
{
    if i < nb {
        let cur = data.take(off + i);
        assert(cur[mp + i] == data[mp + i]);
        let s1 = data.subrange(mp, mp + nb);
        let s2 = data.subrange(off, off + nb);
        assert(s1[i as int] == data[mp + i]);
        assert(s2[i as int] == data[off + i]);
        assert(s1[i as int] == s2[i as int]);
        assert(cur.push(cur[mp + i]) =~= data.take(off + i + 1));
        lemma_lz_copy_repeat(data, off, mp, nb, i + 1);
    } else {
        assert(data.take(off + i) =~= data.take(off + nb));
    }
}

/// The greedy items, applied from the input's prefix, rebuild the input.
proof fn lemma_greedy_rebuilds(data: Seq<u8>, off: int, rv: Option<(nat, int)>)
    requires
        0 <= off <= data.len(),
        rv matches Some(r) ==> off < data.len() && r == spec_match_at(data, off),
    ensures
        spec_tokens_rebuild(data, data.take(off), spec_greedy(data, off, rv)),
    decreases data.len() - off,
{
    let toks = spec_greedy(data, off, rv);
    if off >= data.len() {
        assert(data.take(off) =~= data);
    } else {
        let (nb, mp) = match rv {
            Some(r) => r,
            None => spec_match_at(data, off),
        };
        lemma_find_match_props(data, off, spec_search_depth(), spec_max_run());
        if nb < 3 {
            let next: Option<(nat, int)> = if off + 1 < data.len() {
                let (nx, np) = spec_match_at(data, off + 1);
                if nx >= nb + 2 {
                    Some((nx, np))
                } else {
                    None
                }
            } else {
                None
            };
            lemma_greedy_rebuilds(data, off + 1, next);
            assert(toks[0] == Yaz0Token::Literal(data[off]));
            assert(toks.skip(1) =~= spec_greedy(data, off + 1, next));
            assert(data.take(off).push(data[off]) =~= data.take(off + 1));
        } else {
            lemma_greedy_rebuilds(data, off + nb, None);
            let d = off - mp - 1;
            assert(toks[0] == Yaz0Token::Backref(d as u64, nb as u64));
            assert(toks.skip(1) =~= spec_greedy(data, off + nb, None));
            lemma_lz_copy_repeat(data, off, mp, nb, 0);
            assert(data.take(off).len() - d - 1 == mp);
            lemma_lz_copy_len(data.take(off), mp, nb);
        }
    }
}

proof fn lemma_group_bytes_front(c: Seq<Yaz0Token>)
    requires
        c.len() > 0,
    ensures
        spec_group_bytes(c) == spec_token_bytes(c[0]) + spec_group_bytes(c.skip(1)),
    decreases c.len(),
{
    if c.len() == 1 {
        assert(c.drop_last().len() == 0);
        assert(c.skip(1).len() == 0);
        assert(spec_group_bytes(c.drop_last()) =~= Seq::<u8>::empty());
        assert(spec_group_bytes(c) =~= spec_token_bytes(c[0]));
    } else {
        lemma_group_bytes_front(c.drop_last());
        assert(c.drop_last()[0] == c[0]);
        assert(c.skip(1).drop_last() =~= c.drop_last().skip(1));
        assert(c.skip(1).last() == c.last());
        assert(spec_group_bytes(c.skip(1)) == spec_group_bytes(c.skip(1).drop_last())
            + spec_token_bytes(c.skip(1).last()));
        assert(spec_group_bytes(c) =~= spec_token_bytes(c[0]) + spec_group_bytes(c.skip(1)));
    }
}

proof fn lemma_or_bit(m: u8, k: u8, b: u8)
    requires
        k < 8,
        b < 8,
    ensures
        ((m | (0x80u8 >> k)) & (0x80u8 >> b)) != 0 <==> ((m & (0x80u8 >> b)) != 0 || b == k),
{
    assert(((m | (0x80u8 >> k)) & (0x80u8 >> b)) != 0 <==> ((m & (0x80u8 >> b)) != 0 || b == k))
        by (bit_vector)
        requires
            k < 8,
            b < 8,
    ;
}

proof fn lemma_zero_bit(b: u8)
    requires
        b < 8,
    ensures
        (0u8 & (0x80u8 >> b)) == 0,
{
    assert((0u8 & (0x80u8 >> b)) == 0) by (bit_vector);
}

/// The code byte of a group marks exactly its literal items.
proof fn lemma_mask_bits(c: Seq<Yaz0Token>, b: nat)
    requires
        c.len() <= 8,
        b < 8,
    ensures
        spec_code_bit(spec_mask(c), b) <==> (b < c.len() && c[b as int] is Literal),
    decreases c.len(),
{
    if c.len() == 0 {
        lemma_zero_bit(b as u8);
    } else {
        let d = c.drop_last();
        lemma_mask_bits(d, b);
        if b < d.len() {
            assert(d[b as int] == c[b as int]);
        }
        if c.last() is Literal {
            lemma_or_bit(spec_mask(d), (c.len() - 1) as u8, b as u8);
        }
    }
}

proof fn lemma_short_ref_bytes(d: u64, l: u64)
    requires
        d <= 0xFFF,
        3 <= l < 0x12,
    ensures
        ({
            let b1 = ((l - 2) * 16 + d / 256) as u8;
            &&& b1 / 16 != 0
            &&& b1 as nat / 16 + 2 == l
            &&& (b1 % 16) as int * 256 + (d % 256) as u8 as int == d
        }),
{
    let q = d / 256;
    let r = d % 256;
    assert(q < 16);
    assert(d == q * 256 + r);
    let v: int = (l - 2) * 16 + q;
    assert(0 <= v < 256);
    assert(v / 16 == l - 2 && v % 16 == q) by (nonlinear_arith)
        requires
            v == (l - 2) * 16 + q,
            0 <= q < 16,
            l - 2 >= 0,
    ;
}

proof fn lemma_long_ref_bytes(d: u64, l: u64)
    requires
        d <= 0xFFF,
        0x12 <= l <= 0x111,
    ensures
        ({
            let b1 = (d / 256) as u8;
            &&& b1 / 16 == 0
            &&& (l - 0x12) as u8 as nat + 18 == l
            &&& (b1 % 16) as int * 256 + (d % 256) as u8 as int == d
        }),
{
    assert(d / 256 < 16);
}

proof fn lemma_rebuild_nonempty(data: Seq<u8>, out: Seq<u8>, toks: Seq<Yaz0Token>)
    requires
        spec_tokens_rebuild(data, out, toks),
    ensures
        toks.len() > 0 ==> out.len() < data.len(),
        toks.len() == 0 ==> out == data,
{
}

/// The decoder reads one encoded item back as the item.
proof fn lemma_decode_item(
    f: Seq<u8>,
    n: nat,
    mask: u8,
    b: nat,
    q: int,
    out: Seq<u8>,
    t: Yaz0Token,
    rest: Seq<u8>,
)
    requires
        b < 8,
        0 <= q <= f.len(),
        f.skip(q) == spec_token_bytes(t) + rest,
        spec_token_valid(out, t),
        spec_code_bit(mask, b) <==> t is Literal,
    ensures
        spec_yaz0_group(f, n, mask, b, q, out) == ({
            let out2 = spec_expand_token(out, t);
            let w = spec_token_bytes(t).len() as int;
            if out2.len() >= n {
                spec_yaz0_run(f, n, q + w, out2)
            } else {
                spec_yaz0_group(f, n, mask, b + 1, q + w, out2)
            }
        }),
{
    let tb = spec_token_bytes(t);
    lemma_skip_concat(f, q, tb, rest);
    assert(f[q + 0] == tb[0]);
    match t {
        Yaz0Token::Literal(v) => {},
        Yaz0Token::Backref(d, l) => {
            assert(f[q + 1] == tb[1]);
            if l >= 0x12 {
                lemma_long_ref_bytes(d, l);
                assert(f[q + 2] == tb[2]);
            } else {
                lemma_short_ref_bytes(d, l);
            }
        },
    }
}

/// Decoding the items of group `g` from item `b` on, with the rest of the
/// stream after them, rebuilds the input.
proof fn lemma_decode_group_items(
    toks: Seq<Yaz0Token>,
    data: Seq<u8>,
    f: Seq<u8>,
    g: int,
    b: int,
    q: int,
    out: Seq<u8>,
)
    requires
        0 <= g,
        0 <= b,
        8 * g < toks.len(),
        8 * g + b < spec_group_end(toks, g),
        spec_tokens_rebuild(data, out, toks.skip(8 * g + b)),
        0 <= q <= f.len(),
        f.skip(q) == spec_group_bytes(toks.subrange(8 * g, spec_group_end(toks, g)).skip(b))
            + spec_encode_from(toks, (g + 1) as nat) + seq![0u8],
    ensures
        spec_yaz0_group(
            f,
            data.len(),
            spec_mask(toks.subrange(8 * g, spec_group_end(toks, g))),
            b as nat,
            q,
            out,
        ) == Some(data),
    decreases toks.len() - 8 * g - b, 0nat,
{
    let chunk = toks.subrange(8 * g, spec_group_end(toks, g));
    let mask = spec_mask(chunk);
    let rest = chunk.skip(b);
    let tail = spec_encode_from(toks, (g + 1) as nat) + seq![0u8];
    let k = 8 * g + b;
    let t = toks[k];
    let n = data.len();
    assert(rest[0] == t);
    lemma_group_bytes_front(rest);
    assert(rest.skip(1) =~= chunk.skip(b + 1));
    let tb = spec_token_bytes(t);
    let after = spec_group_bytes(chunk.skip(b + 1)) + spec_encode_from(toks, (g + 1) as nat) + seq![
        0u8,
    ];
    assert(f.skip(q) =~= tb + after);
    assert(toks.skip(k)[0] == t);
    assert(toks.skip(k).skip(1) =~= toks.skip(k + 1));
    let out2 = spec_expand_token(out, t);
    lemma_rebuild_nonempty(data, out2, toks.skip(k + 1));
    lemma_mask_bits(chunk, b as nat);
    assert(chunk[b] == t);
    lemma_decode_item(f, n, mask, b as nat, q, out, t, after);
    let w = tb.len() as int;
    lemma_skip_concat(f, q, tb, after);
    if out2.len() >= n {
        assert(data.take(n as int) =~= data);
    } else if b + 1 < chunk.len() {
        lemma_decode_group_items(toks, data, f, g, b + 1, q + w, out2);
    } else {
        assert(spec_group_bytes(chunk.skip(b + 1)) =~= Seq::<u8>::empty());
        lemma_decode_groups(toks, data, f, g + 1, q + w, out2);
    }
}

/// Where group `g` ends in the item sequence.
pub open spec fn spec_group_end(toks: Seq<Yaz0Token>, g: int) -> int {
    if 8 * g + 8 <= toks.len() {
        8 * g + 8
    } else {
        toks.len() as int
    }
}

/// A group's encoding opens with its mask byte, then its items.
proof fn lemma_group_head(toks: Seq<Yaz0Token>, f: Seq<u8>, g: int, p: int)
    requires
        0 <= g,
        8 * g < toks.len(),
        0 <= p <= f.len(),
        f.skip(p) == spec_encode_from(toks, g as nat) + seq![0u8],
    ensures
        p + 1 <= f.len(),
        f[p] == spec_mask(toks.subrange(8 * g, spec_group_end(toks, g))),
        f.skip(p + 1) == spec_group_bytes(toks.subrange(8 * g, spec_group_end(toks, g))) + spec_encode_from(
            toks,
            (g + 1) as nat,
        ) + seq![0u8],
{
    let chunk = toks.subrange(8 * g, spec_group_end(toks, g));
    let rest = spec_group_bytes(chunk) + spec_encode_from(toks, (g + 1) as nat) + seq![0u8];
    assert(spec_encode_from(toks, g as nat) == seq![spec_mask(chunk)] + spec_group_bytes(chunk)
        + spec_encode_from(toks, (g + 1) as nat));
    assert(f.skip(p) =~= seq![spec_mask(chunk)] + rest);
    lemma_skip_concat(f, p, seq![spec_mask(chunk)], rest);
    assert(seq![spec_mask(chunk)][0] == spec_mask(chunk));
    assert(f[p + 0] == spec_mask(chunk));
}

/// Decoding the groups from group `g` on rebuilds the input.
proof fn lemma_decode_groups(toks: Seq<Yaz0Token>, data: Seq<u8>, f: Seq<u8>, g: int, p: int, out: Seq<u8>)
    requires
        0 <= g,
        8 * g < toks.len(),
        spec_tokens_rebuild(data, out, toks.skip(8 * g)),
        0 <= p <= f.len(),
        f.skip(p) == spec_encode_from(toks, g as nat) + seq![0u8],
    ensures
        spec_yaz0_run(f, data.len(), p, out) == Some(data),
    decreases toks.len() - 8 * g, 1nat,
{
    let chunk = toks.subrange(8 * g, spec_group_end(toks, g));
    lemma_rebuild_nonempty(data, out, toks.skip(8 * g));
    lemma_group_head(toks, f, g, p);
    assert(chunk.skip(0) =~= chunk);
    assert(toks.skip(8 * g + 0) =~= toks.skip(8 * g));
    lemma_decode_group_items(toks, data, f, g, 0, p + 1, out);
}

/// Law: what the compressor produces decompresses to its input, for every
/// input whose length fits the header's 32-bit size field.
pub proof fn lemma_yaz0_roundtrip(data: Seq<u8>)
    requires
        data.len() <= u32::MAX,
    ensures
        spec_yaz0_decompress(spec_yaz0_compress(data)) == Some(data),
{
    let toks = spec_greedy(data, 0, None);
    let f = spec_yaz0_compress(data);
    lemma_greedy_rebuilds(data, 0, None);
    assert(data.take(0) =~= Seq::<u8>::empty());
    let header = spec_yaz0_header(data.len() as u32);
    assert(f.subrange(0, 4) =~= spec_magic_yaz0());
    lemma_u32_be_roundtrip(data.len() as u32);
    assert(f.subrange(4, 8) =~= crate::utils::spec_u32_be_bytes(data.len() as u32));
    assert(f[4] == f.subrange(4, 8)[0]);
    assert(f[5] == f.subrange(4, 8)[1]);
    assert(f[6] == f.subrange(4, 8)[2]);
    assert(f[7] == f.subrange(4, 8)[3]);
    assert(spec_read_u32_be(f, 4) == data.len());
    if toks.len() == 0 {
        lemma_rebuild_nonempty(data, Seq::empty(), toks);
    } else {
        assert(f.skip(16) =~= spec_encode_from(toks, 0) + seq![0u8]);
        assert(toks.skip(0) =~= toks);
        lemma_decode_groups(toks, data, f, 0, 16, Seq::empty());
    }
}

} // verus!
