//! String building blocks shared by the formats.
//!
//! Every helper here states what it does to the character sequence of the
//! strings it touches, so that callers can speak of names and paths as
//! `Seq<char>` values.

use vstd::prelude::*;
use vstd::string::*;
use vstd::std_specs::iter::IteratorSpec;

verus! {

/// The characters of a decimal rendering of `n`, without leading zeros.
pub open spec fn spec_decimal(n: nat) -> Seq<char>
    decreases n,
{
    if n < 10 {
        seq![spec_digit_char(n)]
    } else {
        spec_decimal(n / 10).push(spec_digit_char(n % 10))
    }
}

/// The decimal digit character of `d` (for `d < 10`).
pub open spec fn spec_digit_char(d: nat) -> char {
    (('0' as nat) + d) as char
}

/// The lowercase hexadecimal digit character of `d` (for `d < 16`).
pub open spec fn spec_hex_char_lower(d: nat) -> char {
    if d < 10 {
        (('0' as nat) + d) as char
    } else {
        (('a' as nat) + d - 10) as char
    }
}

/// The uppercase hexadecimal digit character of `d` (for `d < 16`).
pub open spec fn spec_hex_char_upper(d: nat) -> char {
    if d < 10 {
        (('0' as nat) + d) as char
    } else {
        (('A' as nat) + d - 10) as char
    }
}

/// The characters of an uppercase hexadecimal rendering of `n`, without
/// leading zeros (the `{:X}` format).
pub open spec fn spec_hex_upper(n: nat) -> Seq<char>
    decreases n,
{
    if n < 16 {
        seq![spec_hex_char_upper(n)]
    } else {
        spec_hex_upper(n / 16).push(spec_hex_char_upper(n % 16))
    }
}

/// Appends one character to a string.
#[verifier::external_body]
pub(crate) fn push_char(s: &mut String, c: char)
    ensures
        final(s)@ == old(s)@.push(c),
{
    s.push(c);
}

/// Appends the characters of `t` to `s`.
pub(crate) fn push_str(s: &mut String, t: &str)
    ensures
        final(s)@ == old(s)@ + t@,
{
    s.append(t);
}

/// A fresh copy of the characters of `t`.
pub(crate) fn to_string(t: &str) -> (res: String)
    ensures
        res@ == t@,
{
    t.to_owned()
}

/// The characters of a string slice, in order.
pub(crate) fn chars_of(s: &str) -> (res: Vec<char>)
    ensures
        res@ == s@,
{
    broadcast use vstd::string::axiom_spec_iter, vstd::string::next_postcondition;

    let mut out: Vec<char> = Vec::new();
    let mut it = s.chars();
    let ghost total = s@;
    loop
        invariant
            total == s@,
            out@ + it.remaining() == total,
            it.obeys_prophetic_iter_laws(),
            it.decrease() is Some,
        decreases it.decrease()->0,
    {
        let ghost before = it.remaining();
        match it.next() {
            Some(c) => {
                proof {
                    assert(before.len() > 0);
                    assert(out@.push(c) + it.remaining() =~= out@ + before);
                }
                out.push(c);
            },
            None => {
                proof {
                    assert(before.len() == 0);
                    assert(out@ + before =~= out@);
                }
                return out;
            },
        }
    }
}

/// A string made of the characters from position `from` up to `to`.
pub(crate) fn string_range(chars: &[char], from: usize, to: usize) -> (res: String)
    requires
        from <= to <= chars@.len(),
    ensures
        res@ == chars@.subrange(from as int, to as int),
{
    let mut s = String::new();
    let mut i: usize = from;
    while i < to
        invariant
            from <= i <= to,
            to <= chars@.len(),
            s@ == chars@.subrange(from as int, i as int),
        decreases to - i,
    {
        proof {
            assert(chars@.subrange(from as int, i as int).push(chars@[i as int]) =~= chars@.subrange(
                from as int,
                i + 1,
            ));
        }
        push_char(&mut s, chars[i]);
        i = i + 1;
    }
    s
}

/// A string made of the characters from position `from` on.
pub(crate) fn string_from(chars: &[char], from: usize) -> (res: String)
    requires
        from <= chars@.len(),
    ensures
        res@ == chars@.subrange(from as int, chars@.len() as int),
{
    string_range(chars, from, chars.len())
}

/// The character for a digit value below 10.
pub(crate) fn digit_char(d: u64) -> (c: char)
    requires
        d < 10,
    ensures
        c == spec_digit_char(d as nat),
{
    let v: u8 = 48u8 + (d as u8);
    v as char
}

/// The lowercase hexadecimal character for a value below 16.
pub(crate) fn hex_char_lower(d: u8) -> (c: char)
    requires
        d < 16,
    ensures
        c == spec_hex_char_lower(d as nat),
{
    if d < 10 {
        let v: u8 = 48u8 + d;
        v as char
    } else {
        let v: u8 = 87u8 + d;
        v as char
    }
}

/// The uppercase hexadecimal character for a value below 16.
pub(crate) fn hex_char_upper(d: u64) -> (c: char)
    requires
        d < 16,
    ensures
        c == spec_hex_char_upper(d as nat),
{
    if d < 10 {
        let v: u8 = 48u8 + (d as u8);
        v as char
    } else {
        let v: u8 = 55u8 + (d as u8);
        v as char
    }
}

/// Renders `n` in decimal.
pub fn decimal_string(n: u64) -> (res: String)
    ensures
        res@ == spec_decimal(n as nat),
    decreases n,
{
    if n < 10 {
        let mut s = String::new();
        push_char(&mut s, digit_char(n));
        s
    } else {
        let mut s = decimal_string(n / 10);
        push_char(&mut s, digit_char(n % 10));
        s
    }
}

/// Renders `n` in uppercase hexadecimal.
pub fn hex_upper_string(n: u64) -> (res: String)
    ensures
        res@ == spec_hex_upper(n as nat),
    decreases n,
{
    if n < 16 {
        let mut s = String::new();
        push_char(&mut s, hex_char_upper(n));
        s
    } else {
        let mut s = hex_upper_string(n / 16);
        push_char(&mut s, hex_char_upper(n % 16));
        s
    }
}

/// The characters of a lowercase hexadecimal rendering of `n`, without
/// leading zeros (the `{:x}` format).
pub open spec fn spec_hex_lower_num(n: nat) -> Seq<char>
    decreases n,
{
    if n < 16 {
        seq![spec_hex_char_lower(n)]
    } else {
        spec_hex_lower_num(n / 16).push(spec_hex_char_lower(n % 16))
    }
}

/// Renders `n` in lowercase hexadecimal without leading zeros.
pub fn hex_lower_string(n: u64) -> (res: String)
    ensures
        res@ == spec_hex_lower_num(n as nat),
    decreases n,
{
    if n < 16 {
        let mut s = String::new();
        push_char(&mut s, hex_char_lower(n as u8));
        s
    } else {
        let mut s = hex_lower_string(n / 16);
        push_char(&mut s, hex_char_lower((n % 16) as u8));
        s
    }
}

/// Byte-wise equality of two string slices, which is equality of their
/// characters.
pub fn str_eq(a: &str, b: &str) -> (res: bool)
    ensures
        res == (a@ == b@),
{
    let x = a.as_bytes();
    let y = b.as_bytes();
    proof {
        vstd::utf8::encode_utf8_decode_utf8(a@);
        vstd::utf8::encode_utf8_decode_utf8(b@);
    }
    if x.len() != y.len() {
        return false;
    }
    let mut i: usize = 0;
    while i < x.len()
        invariant
            x@ == a.spec_bytes(),
            y@ == b.spec_bytes(),
            x@.len() == y@.len(),
            i <= x@.len(),
            forall|j: int| 0 <= j < i ==> x@[j] == y@[j],
        decreases x@.len() - i,
    {
        if x[i] != y[i] {
            proof {
                if a@ == b@ {
                    assert(x@ == y@);
                    assert(x@[i as int] == y@[i as int]);
                }
            }
            return false;
        }
        i = i + 1;
    }
    assert(x@ =~= y@);
    true
}

/// What `String::from_utf8_lossy` makes of bytes that are not valid UTF-8
/// (each invalid sequence becomes U+FFFD).
pub uninterp spec fn spec_utf8_lossy_invalid(bytes: Seq<u8>) -> Seq<char>;

/// What `String::from_utf8_lossy` makes of a byte sequence: the characters
/// that valid UTF-8 encodes, else the lossy decoding.
pub open spec fn spec_utf8_lossy(bytes: Seq<u8>) -> Seq<char> {
    if vstd::utf8::valid_utf8(bytes) {
        vstd::utf8::decode_utf8(bytes)
    } else {
        spec_utf8_lossy_invalid(bytes)
    }
}

/// Decodes bytes as UTF-8, each invalid sequence becoming U+FFFD. It calls
/// `String::from_utf8_lossy`; the contract claims that valid UTF-8 decodes
/// to its characters and that the result on other bytes depends on the
/// bytes alone.
#[verifier::external_body]
pub(crate) fn utf8_lossy(bytes: &[u8]) -> (res: String)
    ensures
        res@ == spec_utf8_lossy(bytes@),
        !vstd::utf8::valid_utf8(bytes@) ==> res@ == spec_utf8_lossy_invalid(bytes@),
{
    String::from_utf8_lossy(bytes).into_owned()
}

/// Decodes bytes that must be UTF-8. It calls `std::str::from_utf8`; the
/// contract claims what its documentation says: it fails exactly when the
/// bytes are not valid UTF-8, and otherwise gives their characters.
#[verifier::external_body]
pub(crate) fn utf8_strict(bytes: &[u8]) -> (res: Option<String>)
    ensures
        res is Some <==> vstd::utf8::valid_utf8(bytes@),
        res matches Some(s) ==> s@ == vstd::utf8::decode_utf8(bytes@),
{
    match std::str::from_utf8(bytes) {
        Ok(s) => Some(s.to_owned()),
        Err(_) => None,
    }
}

/// What `{:?}` makes of a string: the string quoted, with escapes.
pub uninterp spec fn spec_debug_quoted(s: Seq<char>) -> Seq<char>;

/// Formats a string with `{:?}`. It calls the `Debug` formatting of `str`;
/// the contract claims only that the result depends on the characters
/// alone.
#[verifier::external_body]
pub(crate) fn debug_quoted(s: &str) -> (res: String)
    ensures
        res@ == spec_debug_quoted(s@),
{
    format!("{:?}", s)
}

/// Whether a string is one or more ASCII decimal digits.
pub open spec fn spec_all_digits(s: Seq<char>) -> bool {
    s.len() > 0 && forall|i: int| 0 <= i < s.len() ==> '0' <= #[trigger] s[i] <= '9'
}

/// The value of a string of ASCII decimal digits.
pub open spec fn spec_digits_value(s: Seq<char>) -> nat
    decreases s.len(),
{
    if s.len() == 0 {
        0
    } else {
        spec_digits_value(s.drop_last()) * 10 + ((s.last() as nat) - ('0' as nat)) as nat
    }
}

/// The number of ASCII spaces that open a string.
pub open spec fn spec_leading_spaces(s: Seq<char>) -> nat
    decreases s.len(),
{
    if s.len() > 0 && s[0] == ' ' {
        1 + spec_leading_spaces(s.drop_first())
    } else {
        0
    }
}

/// What `str::trim` leaves of a string that is not spaces then digits.
pub uninterp spec fn spec_trim_other(s: Seq<char>) -> Seq<char>;

/// What `str::trim` leaves of a string: for ASCII spaces followed by
/// digits, the digits (spaces are whitespace, digits are not); otherwise
/// the trimmed string.
pub open spec fn spec_trim(s: Seq<char>) -> Seq<char> {
    if spec_all_digits(s.skip(spec_leading_spaces(s) as int)) {
        s.skip(spec_leading_spaces(s) as int)
    } else {
        spec_trim_other(s)
    }
}

/// Removes leading and trailing whitespace. It calls `str::trim`; the
/// contract claims what its documentation says of leading spaces before
/// digits, and that the result otherwise depends on the characters alone
/// (which characters count as whitespace is Unicode's `White_Space`, left
/// unstated here).
#[verifier::external_body]
pub(crate) fn trim_str(s: &str) -> (res: String)
    ensures
        res@ == spec_trim(s@),
        !spec_all_digits(s@.skip(spec_leading_spaces(s@) as int)) ==> res@ == spec_trim_other(s@),
{
    s.trim().to_owned()
}

/// A parse outcome as plain values.
pub open spec fn spec_parse_outcome<T>(r: Result<T, String>) -> Result<T, Seq<char>> {
    match r {
        Ok(v) => Ok(v),
        Err(e) => Err(e@),
    }
}

/// What `str::parse::<u32>` makes of a string that is not a fitting
/// number of decimal digits.
pub uninterp spec fn spec_parse_u32_other(s: Seq<char>) -> Result<u32, Seq<char>>;

/// What `str::parse::<u32>` makes of a string: the value of a string of
/// decimal digits that fits, else the number or the text of the error.
pub open spec fn spec_parse_u32(s: Seq<char>) -> Result<u32, Seq<char>> {
    if spec_all_digits(s) && spec_digits_value(s) < 0x1_0000_0000 {
        Ok(spec_digits_value(s) as u32)
    } else {
        spec_parse_u32_other(s)
    }
}

/// Parses a `u32`. It calls `str::parse::<u32>` and renders its error with
/// `Display`; the contract claims, as the documentation of
/// `u32::from_str_radix` says, that a string of decimal digits whose value
/// fits is that value, and that the outcome otherwise depends on the
/// characters alone.
#[verifier::external_body]
pub(crate) fn parse_u32(s: &str) -> (res: Result<u32, String>)
    ensures
        spec_parse_outcome(res) == spec_parse_u32(s@),
        !(spec_all_digits(s@) && spec_digits_value(s@) < 0x1_0000_0000) ==> spec_parse_outcome(res)
            == spec_parse_u32_other(s@),
{
    match s.parse::<u32>() {
        Ok(v) => Ok(v),
        Err(e) => Err(e.to_string()),
    }
}

/// What `str::parse::<u8>` makes of a string that is not a fitting number
/// of decimal digits.
pub uninterp spec fn spec_parse_u8_other(s: Seq<char>) -> Result<u8, Seq<char>>;

/// What `str::parse::<u8>` makes of a string: the value of a string of
/// decimal digits that fits, else the number or the text of the error.
pub open spec fn spec_parse_u8(s: Seq<char>) -> Result<u8, Seq<char>> {
    if spec_all_digits(s) && spec_digits_value(s) < 0x100 {
        Ok(spec_digits_value(s) as u8)
    } else {
        spec_parse_u8_other(s)
    }
}

/// Parses a `u8`. It calls `str::parse::<u8>` and renders its error with
/// `Display`; the contract claims, as the documentation of
/// `u8::from_str_radix` says, that a string of decimal digits whose value
/// fits is that value, and that the outcome otherwise depends on the
/// characters alone.
#[verifier::external_body]
pub(crate) fn parse_u8(s: &str) -> (res: Result<u8, String>)
    ensures
        spec_parse_outcome(res) == spec_parse_u8(s@),
        !(spec_all_digits(s@) && spec_digits_value(s@) < 0x100) ==> spec_parse_outcome(res)
            == spec_parse_u8_other(s@),
{
    match s.parse::<u8>() {
        Ok(v) => Ok(v),
        Err(e) => Err(e.to_string()),
    }
}

/// The last component of a path, as `std::path::Path::file_name` gives it.
pub uninterp spec fn spec_path_file_name(path: Seq<char>) -> Option<Seq<char>>;

/// The last component of a path. It calls `Path::file_name`; the contract
/// claims only that the result depends on the path's characters alone.
#[verifier::external_body]
pub(crate) fn path_file_name(path: &str) -> (res: Option<String>)
    ensures
        match res {
            Some(s) => spec_path_file_name(path@) == Some(s@),
            None => spec_path_file_name(path@) is None,
        },
{
    match std::path::Path::new(path).file_name() {
        Some(n) => Some(n.to_string_lossy().into_owned()),
        None => None,
    }
}

} // verus!
