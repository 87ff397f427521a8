//! Shared byte helpers: big-endian integers, hexadecimal text and digests.
//!
//! The readers and writers here are the primitives every format module uses;
//! their contracts are stated over the byte sequences they touch.

use vstd::prelude::*;
use vstd::string::*;
use crate::text::{push_char, push_str, hex_char_lower, decimal_string, spec_hex_char_lower, spec_decimal};

verus! {

/// The big-endian value of two bytes.
pub open spec fn spec_be16(b0: u8, b1: u8) -> int {
    b0 as int * 256 + b1 as int
}

/// The big-endian value of four bytes.
pub open spec fn spec_be32(b0: u8, b1: u8, b2: u8, b3: u8) -> int {
    b0 as int * 16777216 + b1 as int * 65536 + b2 as int * 256 + b3 as int
}

/// The big-endian `u16` stored at `offset` in `data`.
pub open spec fn spec_read_u16_be(data: Seq<u8>, offset: int) -> u16 {
    spec_be16(data[offset], data[offset + 1]) as u16
}

/// The big-endian `u32` stored at `offset` in `data`.
pub open spec fn spec_read_u32_be(data: Seq<u8>, offset: int) -> u32 {
    spec_be32(data[offset], data[offset + 1], data[offset + 2], data[offset + 3]) as u32
}

/// The two big-endian bytes of `v`.
pub open spec fn spec_u16_be_bytes(v: u16) -> Seq<u8> {
    seq![(v / 256) as u8, (v % 256) as u8]
}

/// The four big-endian bytes of `v`.
pub open spec fn spec_u32_be_bytes(v: u32) -> Seq<u8> {
    seq![(v / 16777216) as u8, ((v / 65536) % 256) as u8, ((v / 256) % 256) as u8, (v % 256) as u8]
}

/// `data` with `bytes` written over it from `offset` on.
pub open spec fn spec_splice(data: Seq<u8>, offset: int, bytes: Seq<u8>) -> Seq<u8> {
    data.subrange(0, offset) + bytes + data.subrange(offset + bytes.len(), data.len() as int)
}

/// The bytes of a `u16` in big-endian order.
pub fn u16_be_bytes(v: u16) -> (res: [u8; 2])
    ensures
        res@ == spec_u16_be_bytes(v),
{
    [(v / 256) as u8, (v % 256) as u8]
}

/// The bytes of a `u32` in big-endian order.
pub fn u32_be_bytes(v: u32) -> (res: [u8; 4])
    ensures
        res@ == spec_u32_be_bytes(v),
{
    [(v / 16777216) as u8, ((v / 65536) % 256) as u8, ((v / 256) % 256) as u8, (v % 256) as u8]
}

/// Reads a big-endian `u16` from a byte slice.
pub fn read_u16_be(data: &[u8], offset: usize) -> (res: u16)
    requires
        offset + 2 <= data@.len(),
    ensures
        res == spec_read_u16_be(data@, offset as int),
{
    (data[offset] as u16) * 256 + (data[offset + 1] as u16)
}

/// Reads a big-endian `u32` from a byte slice.
pub fn read_u32_be(data: &[u8], offset: usize) -> (res: u32)
    requires
        offset + 4 <= data@.len(),
    ensures
        res == spec_read_u32_be(data@, offset as int),
{
    (data[offset] as u32) * 16777216 + (data[offset + 1] as u32) * 65536 + (data[offset + 2] as u32)
        * 256 + (data[offset + 3] as u32)
}

/// Writes a big-endian `u16` into a mutable byte slice; a write that does not
/// fit leaves the slice unchanged.
pub fn write_u16_be(data: &mut [u8], offset: usize, value: u16)
    ensures
        offset + 2 <= old(data)@.len() ==> final(data)@ == spec_splice(
            old(data)@,
            offset as int,
            spec_u16_be_bytes(value),
        ),
        offset + 2 > old(data)@.len() ==> final(data)@ == old(data)@,
{
    if offset <= data.len() && data.len() - offset >= 2 {
        data[offset] = (value / 256) as u8;
        data[offset + 1] = (value % 256) as u8;
        assert(data@ =~= spec_splice(old(data)@, offset as int, spec_u16_be_bytes(value)));
    }
}

/// Writes a big-endian `u32` into a mutable byte slice; a write that does not
/// fit leaves the slice unchanged.
pub fn write_u32_be(data: &mut [u8], offset: usize, value: u32)
    ensures
        offset + 4 <= old(data)@.len() ==> final(data)@ == spec_splice(
            old(data)@,
            offset as int,
            spec_u32_be_bytes(value),
        ),
        offset + 4 > old(data)@.len() ==> final(data)@ == old(data)@,
{
    if offset <= data.len() && data.len() - offset >= 4 {
        data[offset] = (value / 16777216) as u8;
        data[offset + 1] = ((value / 65536) % 256) as u8;
        data[offset + 2] = ((value / 256) % 256) as u8;
        data[offset + 3] = (value % 256) as u8;
        assert(data@ =~= spec_splice(old(data)@, offset as int, spec_u32_be_bytes(value)));
    }
}

/// Reading back the four bytes of `v` gives `v`.
pub proof fn lemma_u32_be_roundtrip(v: u32)
    ensures
        spec_read_u32_be(spec_u32_be_bytes(v), 0) == v,
{
    let a0 = v / 16777216;
    let a1 = (v / 65536) % 256;
    let a2 = (v / 256) % 256;
    let a3 = v % 256;
    assert(a0 * 16777216 + a1 * 65536 + a2 * 256 + a3 == v) by (nonlinear_arith)
        requires
            a0 == v / 16777216,
            a1 == (v / 65536) % 256,
            a2 == (v / 256) % 256,
            a3 == v % 256,
    ;
}

/// Reading back the two bytes of `v` gives `v`.
pub proof fn lemma_u16_be_roundtrip(v: u16)
    ensures
        spec_read_u16_be(spec_u16_be_bytes(v), 0) == v,
{
}

/// Splitting the suffix of a byte sequence that is known to be a
/// concatenation.
pub proof fn lemma_skip_concat(f: Seq<u8>, q: int, a: Seq<u8>, b: Seq<u8>)
    requires
        0 <= q <= f.len(),
        f.skip(q) == a + b,
    ensures
        q + a.len() <= f.len(),
        f.skip(q + a.len()) == b,
        f.subrange(q, q + a.len()) == a,
        forall|i: int| 0 <= i < a.len() ==> f[q + i] == #[trigger] a[i],
{
    let s = f.skip(q);
    assert(s.len() == f.len() - q);
    assert forall|i: int| 0 <= i < a.len() implies f[q + i] == #[trigger] a[i] by {
        assert(s[i] == f[q + i]);
        assert((a + b)[i] == a[i]);
    }
    assert forall|i: int| 0 <= i < b.len() implies #[trigger] f.skip(q + a.len())[i] == b[i] by {
        assert(s[a.len() + i] == f[q + a.len() + i]);
        assert((a + b)[a.len() + i] == b[i]);
    }
    assert(f.skip(q + a.len()) =~= b);
    assert(f.subrange(q, q + a.len()) =~= a);
}

/// Appends the bytes of `src` to `out`.
pub fn extend_bytes(out: &mut Vec<u8>, src: &[u8])
    ensures
        final(out)@ == old(out)@ + src@,
{
    let mut i: usize = 0;
    while i < src.len()
        invariant
            i <= src@.len(),
            out@ == old(out)@ + src@.subrange(0, i as int),
        decreases src@.len() - i,
    {
        out.push(src[i]);
        i = i + 1;
        assert(src@.subrange(0, i as int) =~= src@.subrange(0, i - 1).push(src@[i - 1]));
    }
    assert(src@.subrange(0, i as int) =~= src@);
}

/// A fresh vector holding `data[from..to]`.
pub fn copy_range(data: &[u8], from: usize, to: usize) -> (res: Vec<u8>)
    requires
        from <= to <= data@.len(),
    ensures
        res@ == data@.subrange(from as int, to as int),
{
    let mut out: Vec<u8> = Vec::new();
    let mut i: usize = from;
    while i < to
        invariant
            from <= i <= to,
            to <= data@.len(),
            out@ == data@.subrange(from as int, i as int),
        decreases to - i,
    {
        out.push(data[i]);
        i = i + 1;
        assert(data@.subrange(from as int, i as int) =~= data@.subrange(from as int, i - 1).push(data@[i - 1]));
    }
    out
}

/// The low 32 bits of a length, as an `as u32` cast keeps them.
pub fn low32(x: usize) -> (r: u32)
    ensures
        r == x as int % 0x1_0000_0000,
{
    let y = x as u64;
    let r = #[verifier::truncate] (y as u32);
    assert(r == y % 0x1_0000_0000) by (bit_vector)
        requires
            r == y as u32,
    ;
    r
}

/// The low 16 bits of a length, as an `as u16` cast keeps them.
pub fn low16(x: usize) -> (r: u16)
    ensures
        r == x as int % 0x1_0000,
{
    let y = x as u64;
    let r = #[verifier::truncate] (y as u16);
    assert(r == y % 0x1_0000) by (bit_vector)
        requires
            r == y as u16,
    ;
    r
}

/// Addition modulo 2^32.
pub fn add32(a: u32, b: u32) -> (r: u32)
    ensures
        r == (a + b) % 0x1_0000_0000int,
{
    a.wrapping_add(b)
}

/// A number as a 32-bit field keeps it: its low 32 bits.
pub open spec fn spec_u32_of(n: nat) -> u32 {
    (n % 0x1_0000_0000) as u32
}

/// A count as a 16-bit field keeps it: its low 16 bits.
pub open spec fn spec_u16_of(n: nat) -> u16 {
    (n % 0x1_0000) as u16
}

/// `n` zero bytes.
pub open spec fn spec_zeros(n: nat) -> Seq<u8> {
    Seq::new(n, |i: int| 0u8)
}

/// Appends the big-endian bytes of a `u32`.
pub fn push_u32_be(out: &mut Vec<u8>, v: u32)
    ensures
        final(out)@ == old(out)@ + spec_u32_be_bytes(v),
{
    out.push((v / 16777216) as u8);
    out.push(((v / 65536) % 256) as u8);
    out.push(((v / 256) % 256) as u8);
    out.push((v % 256) as u8);
    assert(out@ =~= old(out)@ + spec_u32_be_bytes(v));
}

/// Appends the big-endian bytes of a `u16`.
pub fn push_u16_be(out: &mut Vec<u8>, v: u16)
    ensures
        final(out)@ == old(out)@ + spec_u16_be_bytes(v),
{
    out.push((v / 256) as u8);
    out.push((v % 256) as u8);
    assert(out@ =~= old(out)@ + spec_u16_be_bytes(v));
}

/// Appends `n` zero bytes.
pub fn push_zeros(out: &mut Vec<u8>, n: usize)
    ensures
        final(out)@ == old(out)@ + spec_zeros(n as nat),
{
    let mut i: usize = 0;
    while i < n
        invariant
            i <= n,
            out@ == old(out)@ + spec_zeros(i as nat),
        decreases n - i,
    {
        out.push(0u8);
        i = i + 1;
        assert(out@ =~= old(out)@ + spec_zeros(i as nat));
    }
}

/// Reads a byte at `offset` without panicking when the slice is too short.
pub fn read_u8_at(data: &[u8], offset: usize) -> (res: Option<u8>)
    ensures
        res == (if offset < data@.len() { Some(data@[offset as int]) } else { None::<u8> }),
{
    if offset < data.len() {
        Some(data[offset])
    } else {
        None
    }
}

/// The lowercase two-digit hexadecimal rendering of every byte, in order.
pub open spec fn spec_hex_lower(bytes: Seq<u8>) -> Seq<char>
    decreases bytes.len(),
{
    if bytes.len() == 0 {
        Seq::empty()
    } else {
        let b = bytes.last();
        spec_hex_lower(bytes.drop_last()).push(spec_hex_char_lower((b / 16) as nat)).push(
            spec_hex_char_lower((b % 16) as nat),
        )
    }
}

/// Converts raw bytes to lowercase hex.
pub fn bytes_to_hex(bytes: &[u8]) -> (res: String)
    ensures
        res@ == spec_hex_lower(bytes@),
{
    let mut out = String::new();
    let mut i: usize = 0;
    while i < bytes.len()
        invariant
            i <= bytes@.len(),
            out@ == spec_hex_lower(bytes@.take(i as int)),
        decreases bytes@.len() - i,
    {
        let b = bytes[i];
        push_char(&mut out, hex_char_lower(b / 16));
        push_char(&mut out, hex_char_lower(b % 16));
        assert(bytes@.take(i + 1).drop_last() =~= bytes@.take(i as int));
        i = i + 1;
    }
    assert(bytes@.take(i as int) =~= bytes@);
    out
}

/// The value of an ASCII hexadecimal digit, either case.
pub open spec fn spec_hex_digit(c: u8) -> Option<u8> {
    if 48 <= c <= 57 {
        Some((c - 48) as u8)
    } else if 97 <= c <= 102 {
        Some((c - 87) as u8)
    } else if 65 <= c <= 70 {
        Some((c - 55) as u8)
    } else {
        None
    }
}

/// The byte a two-character chunk stands for, as unsigned radix-16
/// parsing reads it: two digits, or a `+` sign and one digit.
pub open spec fn spec_hex_pair(c0: u8, c1: u8) -> Option<u8> {
    if c0 == 43 {
        spec_hex_digit(c1)
    } else {
        match (spec_hex_digit(c0), spec_hex_digit(c1)) {
            (Some(h), Some(l)) => Some((h * 16 + l) as u8),
            _ => None,
        }
    }
}

/// Decodes the chunks of an even-length prefix, reporting the position of
/// the first chunk that is not a byte.
pub open spec fn spec_hex_chunks(p: Seq<u8>, n: nat) -> Result<Seq<u8>, nat>
    decreases n,
{
    if n < 2 {
        Ok(Seq::empty())
    } else {
        match spec_hex_chunks(p, (n - 2) as nat) {
            Err(pos) => Err(pos),
            Ok(v) => match spec_hex_pair(p[n - 2], p[n - 1]) {
                Some(b) => Ok(v.push(b)),
                None => Err((n - 2) as nat),
            },
        }
    }
}

/// The input padded with a leading `0` when its length is odd.
pub open spec fn spec_hex_padded(s: Seq<u8>) -> Seq<u8> {
    if s.len() % 2 == 1 {
        seq![48u8] + s
    } else {
        s
    }
}

/// What a hex string decodes to: the bytes, or the position of the first
/// chunk of the padded input that is not a byte.
pub open spec fn spec_hex_to_bytes(s: Seq<u8>) -> Result<Seq<u8>, nat> {
    let p = spec_hex_padded(s);
    spec_hex_chunks(p, p.len())
}

/// The error message for an invalid chunk at `pos` of the padded input.
pub open spec fn spec_hex_error(input: Seq<char>, pos: nat) -> Seq<char> {
    "Invalid hex '"@ + input + "' at pos "@ + spec_decimal(pos) + ": invalid digit found in string"@
}

proof fn lemma_hex_chunks_error_stays(p: Seq<u8>, k: nat, n: nat)
    requires
        k <= n,
        k % 2 == 0,
        n % 2 == 0,
        spec_hex_chunks(p, k) is Err,
    ensures
        spec_hex_chunks(p, n) == spec_hex_chunks(p, k),
    decreases n - k,
{
    if n > k {
        lemma_hex_chunks_error_stays(p, k, (n - 2) as nat);
    }
}

proof fn lemma_hex_chunks_len(p: Seq<u8>, n: nat)
    requires
        n % 2 == 0,
    ensures
        spec_hex_chunks(p, n) matches Ok(v) ==> v.len() == n / 2,
    decreases n,
{
    if n >= 2 {
        lemma_hex_chunks_len(p, (n - 2) as nat);
    }
}

fn hex_digit(c: u8) -> (res: Option<u8>)
    ensures
        res == spec_hex_digit(c),
{
    if 48 <= c && c <= 57 {
        Some(c - 48)
    } else if 97 <= c && c <= 102 {
        Some(c - 87)
    } else if 65 <= c && c <= 70 {
        Some(c - 55)
    } else {
        None
    }
}

fn hex_pair(c0: u8, c1: u8) -> (res: Option<u8>)
    ensures
        res == spec_hex_pair(c0, c1),
{
    if c0 == 43 {
        hex_digit(c1)
    } else {
        match (hex_digit(c0), hex_digit(c1)) {
            (Some(h), Some(l)) => Some(h * 16 + l),
            _ => None,
        }
    }
}

/// Parses a hex string into bytes; odd-length input is read as if a leading
/// `0` were there.
pub fn hex_to_bytes(hex_str: &str) -> (res: Result<Vec<u8>, String>)
    ensures
        match spec_hex_to_bytes(hex_str.spec_bytes()) {
            Ok(v) => res == Ok::<Vec<u8>, String>(res->Ok_0) && res->Ok_0@ == v,
            Err(pos) => res is Err && res->Err_0@ == spec_hex_error(hex_str@, pos),
        },
{
    let raw = hex_str.as_bytes();
    let mut p: Vec<u8> = Vec::new();
    if raw.len() % 2 == 1 {
        p.push(48u8);
    }
    let mut k: usize = 0;
    while k < raw.len()
        invariant
            k <= raw@.len(),
            raw@ == hex_str.spec_bytes(),
            p@ == (if raw@.len() % 2 == 1 { seq![48u8] } else { Seq::<u8>::empty() }) + raw@.take(
                k as int,
            ),
        decreases raw@.len() - k,
    {
        p.push(raw[k]);
        assert(raw@.take(k + 1) =~= raw@.take(k as int).push(raw@[k as int]));
        k = k + 1;
    }
    assert(raw@.take(k as int) =~= raw@);
    assert(p@ =~= spec_hex_padded(raw@));
    assert(p@.len() % 2 == 0);
    let mut bytes: Vec<u8> = Vec::new();
    let mut i: usize = 0;
    while i < p.len()
        invariant
            i <= p@.len(),
            i % 2 == 0,
            p@.len() % 2 == 0,
            p@ == spec_hex_padded(hex_str.spec_bytes()),
            spec_hex_chunks(p@, i as nat) == Ok::<Seq<u8>, nat>(bytes@),
        decreases p@.len() - i,
    {
        match hex_pair(p[i], p[i + 1]) {
            Some(b) => {
                bytes.push(b);
            },
            None => {
                proof {
                    lemma_hex_chunks_error_stays(p@, (i + 2) as nat, p@.len());
                }
                let mut msg = String::new();
                push_str(&mut msg, "Invalid hex '");
                push_str(&mut msg, hex_str);
                push_str(&mut msg, "' at pos ");
                let pos = decimal_string(i as u64);
                push_str(&mut msg, pos.as_str());
                push_str(&mut msg, ": invalid digit found in string");
                return Err(msg);
            },
        }
        i = i + 2;
    }
    Ok(bytes)
}

/// The byte of a lowercase hexadecimal digit character.
pub open spec fn spec_hex_byte_lower(d: nat) -> u8 {
    if d < 10 {
        (48 + d) as u8
    } else {
        (87 + d) as u8
    }
}

proof fn lemma_hex_char_byte(d: nat)
    requires
        d < 16,
    ensures
        '\0' <= spec_hex_char_lower(d) <= '\u{7f}',
        spec_hex_char_lower(d) as u8 == spec_hex_byte_lower(d),
        spec_hex_digit(spec_hex_byte_lower(d)) == Some(d as u8),
{
    vstd::utf8::char_u32_cast(spec_hex_char_lower(d), (if d < 10 { 48 + d } else { 87 + d }) as u32);
    assert(('0' as nat) == 48);
    assert(('a' as nat) == 97);
}

pub proof fn lemma_hex_lower_shape(b: Seq<u8>)
    ensures
        spec_hex_lower(b).len() == 2 * b.len(),
        forall|i: int|
            0 <= i < b.len() ==> #[trigger] spec_hex_lower(b)[2 * i] == spec_hex_char_lower(
                (b[i] / 16) as nat,
            ) && spec_hex_lower(b)[2 * i + 1] == spec_hex_char_lower((b[i] % 16) as nat),
    decreases b.len(),
{
    if b.len() > 0 {
        lemma_hex_lower_shape(b.drop_last());
        assert forall|i: int| 0 <= i < b.len() implies #[trigger] spec_hex_lower(b)[2 * i]
            == spec_hex_char_lower((b[i] / 16) as nat) && spec_hex_lower(b)[2 * i + 1]
            == spec_hex_char_lower((b[i] % 16) as nat) by {
            if i < b.len() - 1 {
                assert(spec_hex_lower(b.drop_last())[2 * i] == spec_hex_char_lower(
                    (b.drop_last()[i] / 16) as nat,
                ));
            }
        }
    }
}

proof fn lemma_hex_chunks_of_hex(b: Seq<u8>, p: Seq<u8>, k: nat)
    requires
        k <= b.len(),
        p.len() == 2 * b.len(),
        forall|i: int|
            0 <= i < b.len() ==> #[trigger] p[2 * i] == spec_hex_byte_lower((b[i] / 16) as nat)
                && p[2 * i + 1] == spec_hex_byte_lower((b[i] % 16) as nat),
    ensures
        spec_hex_chunks(p, 2 * k) == Ok::<Seq<u8>, nat>(b.take(k as int)),
    decreases k,
{
    if k > 0 {
        lemma_hex_chunks_of_hex(b, p, (k - 1) as nat);
        let i = k - 1;
        let x = b[i as int];
        assert(p[2 * i] == spec_hex_byte_lower((x / 16) as nat));
        lemma_hex_char_byte((x / 16) as nat);
        lemma_hex_char_byte((x % 16) as nat);
        assert(spec_hex_pair(p[2 * i], p[2 * i + 1]) == Some(x));
        assert(b.take(k as int) =~= b.take(i as int).push(x));
    } else {
        assert(b.take(0) =~= Seq::<u8>::empty());
    }
}

/// Law: lowercase hex text decodes back to the bytes it was made from.
pub proof fn lemma_hex_roundtrip(b: Seq<u8>)
    ensures
        spec_hex_to_bytes(vstd::utf8::encode_utf8(spec_hex_lower(b))) == Ok::<Seq<u8>, nat>(b),
{
    let chars = spec_hex_lower(b);
    lemma_hex_lower_shape(b);
    assert forall|i: int| 0 <= i < chars.len() implies '\0' <= #[trigger] chars[i] <= '\u{7f}' by {
        let j = i / 2;
        if i % 2 == 0 {
            assert(i == 2 * j);
            assert(spec_hex_lower(b)[2 * j] == spec_hex_char_lower((b[j] / 16) as nat));
            lemma_hex_char_byte((b[j] / 16) as nat);
        } else {
            assert(i == 2 * j + 1);
            assert(spec_hex_lower(b)[2 * j] == spec_hex_char_lower((b[j] / 16) as nat));
            lemma_hex_char_byte((b[j] % 16) as nat);
        }
    }
    vstd::utf8::is_ascii_chars_encode_utf8(chars);
    let p = vstd::utf8::encode_utf8(chars);
    assert forall|i: int| 0 <= i < b.len() implies #[trigger] p[2 * i] == spec_hex_byte_lower(
        (b[i] / 16) as nat,
    ) && p[2 * i + 1] == spec_hex_byte_lower((b[i] % 16) as nat) by {
        lemma_hex_char_byte((b[i] / 16) as nat);
        lemma_hex_char_byte((b[i] % 16) as nat);
        assert(chars[2 * i] as u8 == p[2 * i]);
        assert(chars[2 * i + 1] as u8 == p[2 * i + 1]);
    }
    lemma_hex_chunks_of_hex(b, p, b.len());
    assert(b.take(b.len() as int) =~= b);
    assert(spec_hex_padded(p) == p);
}

/// Encodes bytes as lowercase hexadecimal. It calls `hex::encode`, whose
/// documentation promises two lowercase digits per byte, high digit first.
#[verifier::external_body]
pub(crate) fn hex_encode(bytes: &[u8]) -> (res: String)
    ensures
        res@ == spec_hex_lower(bytes@),
{
    hex::encode(bytes)
}

/// The SHA-256 digest of a byte sequence.
pub uninterp spec fn spec_sha256(data: Seq<u8>) -> Seq<u8>;

/// The SHA-256 digest of `data`. It calls `sha2::Sha256::digest`; the
/// contract claims that the digest depends on the data alone and is 32
/// bytes long.
#[verifier::external_body]
pub(crate) fn sha256_digest(data: &[u8]) -> (res: Vec<u8>)
    ensures
        res@ == spec_sha256(data@),
        res@.len() == 32,
{
    <sha2::Sha256 as sha2::Digest>::digest(data).to_vec()
}

/// The SHA-1 digest of a byte sequence, as its 20 bytes.
pub uninterp spec fn spec_sha1(data: Seq<u8>) -> Seq<u8>;

/// The SHA-1 digest of `data` in lowercase hexadecimal. It calls
/// `sha1::Sha1::from(data).digest().to_string()`; the `Display` of a digest
/// writes each of its five state words as eight lowercase hex digits, which
/// is the lowercase hex of the digest's bytes. The contract claims that and
/// that the digest depends on the data alone.
#[verifier::external_body]
fn sha1_hex_digest(data: &[u8]) -> (res: String)
    ensures
        res@ == spec_hex_lower(spec_sha1(data@)),
        res@.len() == 40,
{
    sha1::Sha1::from(data).digest().to_string()
}

/// The SHA-1 digest of `bytes` as 40 lowercase hex digits.
pub fn sha1_hex(bytes: &[u8]) -> (res: String)
    ensures
        res@ == spec_hex_lower(spec_sha1(bytes@)),
        res@.len() == 40,
{
    sha1_hex_digest(bytes)
}

/// The little-endian bytes of a `u32`.
pub open spec fn spec_u32_le_bytes(v: u32) -> Seq<u8> {
    seq![(v % 256) as u8, ((v / 256) % 256) as u8, ((v / 65536) % 256) as u8, (v / 16777216) as u8]
}

/// The little-endian bytes of a `u16`.
pub open spec fn spec_u16_le_bytes(v: u16) -> Seq<u8> {
    seq![(v % 256) as u8, (v / 256) as u8]
}

/// Appends the little-endian bytes of a `u32`.
pub fn push_u32_le(out: &mut Vec<u8>, v: u32)
    ensures
        final(out)@ == old(out)@ + spec_u32_le_bytes(v),
{
    out.push((v % 256) as u8);
    out.push(((v / 256) % 256) as u8);
    out.push(((v / 65536) % 256) as u8);
    out.push((v / 16777216) as u8);
    assert(out@ =~= old(out)@ + spec_u32_le_bytes(v));
}

/// Appends the little-endian bytes of a `u16`.
pub fn push_u16_le(out: &mut Vec<u8>, v: u16)
    ensures
        final(out)@ == old(out)@ + spec_u16_le_bytes(v),
{
    out.push((v % 256) as u8);
    out.push((v / 256) as u8);
    assert(out@ =~= old(out)@ + spec_u16_le_bytes(v));
}

} // verus!
