//! Editing round trip: a BMG exported to JSON compiles back to itself.
//!
//! Compiling the exported JSON in the BMG's own encoding gives the same
//! messages and extra sections, with the attribute length the build always
//! writes. It holds for messages whose 16 attribute bytes open with the id
//! (which fits in a byte) and the subid and end with a zero byte, whose
//! text parts are escape sequences and texts that never follow one
//! another, each text stored as the encoding can write it back and not
//! ending with a backslash where an escape sequence follows; and for
//! sections whose magic is UTF-8. Where text parts are empty or follow
//! one another, the messages come back with the same text bytes, their
//! parts joined.

use vstd::prelude::*;
use crate::json::{
    JsonModel, spec_entries_get, spec_get, spec_get_str, spec_get_u64,
};
use crate::text::{
    spec_decimal, spec_digit_char, spec_all_digits, spec_digits_value, spec_leading_spaces,
    spec_trim, spec_parse_u32, spec_parse_u8, spec_utf8_lossy,
};
use crate::utils::{
    spec_hex_lower, lemma_hex_roundtrip, lemma_hex_lower_shape,
};
use crate::formats::bmg::to_json::{
    spec_decode_text, spec_escape_braces, spec_part_text, spec_message_text, spec_split_lines,
    spec_text_lines, spec_str_items, spec_single_byte_encoding, spec_byte_char,
};
use crate::formats::bmg::from_json::{
    spec_encode_char, spec_brace_end, spec_flush, spec_parts_from, spec_parse_full_message, spec_join_lines, spec_line_text, lemma_brace_end, spec_item, spec_items, spec_item_attributes, spec_json_to_bmg, spec_magic_of, ItemModel,
};
use crate::formats::bmg::to_json::{spec_message_json, spec_section_json, spec_metadata_json, spec_bmg_to_json};
use crate::formats::bmg::parser::{BmgModel, MessageModel, SectionModel, spec_flat};
use crate::formats::bmg::roundtrip::spec_same_stored;
use crate::formats::bmg::attributes::{spec_decode_attributes, lemma_attributes_roundtrip};

verus! {

/// The bytes that the parser makes of characters of plain text: a newline
/// as 0x0A, any other character in the target encoding.
pub open spec fn spec_encode_chars(chars: Seq<char>, enc: Seq<char>) -> Seq<u8>
    decreases chars.len(),
{
    if chars.len() == 0 {
        Seq::empty()
    } else {
        (if chars[0] == '\n' {
            seq![0x0au8]
        } else {
            spec_encode_char(chars[0], enc)
        }) + spec_encode_chars(chars.drop_first(), enc)
    }
}

/// The brace-escaped form of text is that of its pieces, in order.
proof fn lemma_escape_add(a: Seq<char>, b: Seq<char>)
    ensures
        spec_escape_braces(a + b) == spec_escape_braces(a) + spec_escape_braces(b),
    decreases b.len(),
{
    if b.len() == 0 {
        assert(a + b =~= a);
        assert(spec_escape_braces(a) + spec_escape_braces(b) =~= spec_escape_braces(a));
    } else {
        assert((a + b).drop_last() =~= a + b.drop_last());
        assert((a + b).last() == b.last());
        lemma_escape_add(a, b.drop_last());
        let c = b.last();
        let tail: Seq<char> = if c == '{' || c == '}' {
            seq!['\\', c]
        } else {
            seq![c]
        };
        assert(spec_escape_braces(a) + spec_escape_braces(b.drop_last()) + tail =~= spec_escape_braces(a) + (
        spec_escape_braces(b.drop_last()) + tail));
    }
}

/// Brace-escaped text read from position `i` adds the bytes of the text
/// itself to the pending part, where a backslash that ends it is not read
/// together with a brace that follows.
proof fn lemma_process_escaped(
    s: Seq<char>,
    i: int,
    enc: Seq<char>,
    parts: Seq<Seq<u8>>,
    cur: Seq<u8>,
    chars: Seq<char>,
)
    requires
        0 <= i,
        i + spec_escape_braces(chars).len() <= s.len(),
        s.subrange(i, i + spec_escape_braces(chars).len()) == spec_escape_braces(chars),
        chars.len() > 0 && chars.last() == '\\' ==> i + spec_escape_braces(chars).len() >= s.len() || (s[i
            + spec_escape_braces(chars).len()] != '{' && s[i + spec_escape_braces(chars).len()] != '}'),
    ensures
        spec_parts_from(s, i, enc, parts, cur) == spec_parts_from(
            s,
            i + spec_escape_braces(chars).len(),
            enc,
            parts,
            cur + spec_encode_chars(chars, enc),
        ),
    decreases chars.len(),
{
    let esc = spec_escape_braces(chars);
    if chars.len() == 0 {
        assert(cur + spec_encode_chars(chars, enc) =~= cur);
    } else {
        let c = chars[0];
        let rest = chars.drop_first();
        let one = seq![c];
        assert(one + rest =~= chars);
        lemma_escape_add(one, rest);
        assert(one.drop_last() =~= Seq::<char>::empty());
        let chunk: Seq<char> = if c == '{' || c == '}' {
            seq!['\\', c]
        } else {
            seq![c]
        };
        assert(one.last() == c);
        assert(spec_escape_braces(one.drop_last()) == Seq::<char>::empty());
        assert(spec_escape_braces(one) == spec_escape_braces(one.drop_last()) + chunk);
        assert(spec_escape_braces(one) =~= chunk);
        let er = spec_escape_braces(rest);
        assert(esc =~= chunk + er);
        let w = chunk.len() as int;
        assert(s[i] == esc[0]);
        if w == 2 {
            assert(s[i + 1] == esc[1]);
        }
        assert(s.subrange(i + w, i + w + er.len()) =~= er) by {
            assert forall|k: int| 0 <= k < er.len() implies s.subrange(i + w, i + w + er.len())[k] == er[k] by {
                assert(s.subrange(i, i + esc.len())[w + k] == esc[w + k]);
            }
        }
        if rest.len() > 0 {
            assert(rest.last() == chars.last());
        }
        if c == '\\' && rest.len() > 0 {
            let r0 = rest[0];
            let r1 = rest.drop_first();
            assert(seq![r0] + r1 =~= rest);
            lemma_escape_add(seq![r0], r1);
            assert(seq![r0].drop_last() =~= Seq::<char>::empty());
            assert(spec_escape_braces(seq![r0].drop_last()) == Seq::<char>::empty());
            assert(seq![r0].last() == r0);
            assert(s[i + 1] == er[0]);
            assert(er[0] == spec_escape_braces(seq![r0])[0]);
        }
        let head: Seq<u8> = if c == '\n' {
            seq![0x0au8]
        } else {
            spec_encode_char(c, enc)
        };
        let cur1 = cur + head;
        if c == '\n' {
            assert(cur.push(0x0au8) =~= cur1);
        }
        lemma_process_escaped(s, i + w, enc, parts, cur1, rest);
        assert(cur1 + spec_encode_chars(rest, enc) =~= cur + spec_encode_chars(chars, enc));
    }
}

/// The characters of bytes decoded one per byte.
pub open spec fn spec_byte_chars(b: Seq<u8>) -> Seq<char> {
    Seq::new(b.len(), |i: int| spec_byte_char(b[i]))
}

/// One-byte-per-character text is written back byte for byte.
proof fn lemma_encode_byte_chars(b: Seq<u8>, enc: Seq<char>)
    requires
        enc != "shift-jis"@,
    ensures
        spec_encode_chars(spec_byte_chars(b), enc) == b,
    decreases b.len(),
{
    if b.len() > 0 {
        let rest = b.drop_first();
        assert(spec_byte_chars(b).drop_first() =~= spec_byte_chars(rest));
        lemma_encode_byte_chars(rest, enc);
        let c = spec_byte_char(b[0]);
        assert(((b[0] as char) as u32) as u8 == b[0]);
        if c == '\n' {
            assert(b[0] == 0x0a) by {
                assert(((b[0] as char) as u32) as u8 == b[0]);
            }
        }
        assert(spec_encode_chars(spec_byte_chars(b), enc) =~= seq![b[0]] + rest);
        assert(seq![b[0]] + rest =~= b);
    }
}

/// In Shift-JIS, text is written back as UTF-8.
proof fn lemma_encode_chars_utf8(chars: Seq<char>)
    ensures
        spec_encode_chars(chars, "shift-jis"@) == vstd::utf8::encode_utf8(chars),
    decreases chars.len(),
{
    if chars.len() > 0 {
        lemma_encode_chars_utf8(chars.drop_first());
        let c = chars[0];
        assert(vstd::utf8::encode_utf8(seq![c]) =~= vstd::utf8::encode_scalar(c as u32)) by {
            assert(seq![c][0] == c);
            assert(seq![c].drop_first() =~= Seq::<char>::empty());
            assert(vstd::utf8::encode_utf8(Seq::<char>::empty()) =~= Seq::<u8>::empty());
        }
        if c == '\n' {
            assert(vstd::utf8::encode_scalar(c as u32) =~= seq![0x0au8]) by {
                assert((c as u32) == 10);
                assert((10u32 & 0x7F) as u8 == 10u8) by (bit_vector);
            }
        }
    }
}

/// ASCII characters written back one byte each are their UTF-8 encoding.
proof fn lemma_encode_chars_ascii(chars: Seq<char>, enc: Seq<char>)
    requires
        enc != "shift-jis"@,
        forall|k: int| 0 <= k < chars.len() ==> (chars[k] as u32) < 0x80,
    ensures
        spec_encode_chars(chars, enc) == vstd::utf8::encode_utf8(chars),
    decreases chars.len(),
{
    if chars.len() > 0 {
        lemma_encode_chars_ascii(chars.drop_first(), enc);
        let c = chars[0];
        let v = c as u32;
        assert(v < 0x80);
        assert((v & 0x7F) as u8 == v as u8) by (bit_vector)
            requires
                v < 0x80,
        ;
        if c == '\n' {
            assert(v == 10);
        }
    }
}

/// A text part that survives the round trip: not empty, not an escape
/// sequence, and written back as it was stored: one byte per character in a single-byte encoding, else valid
/// UTF-8 that Shift-JIS writes back as UTF-8, or that is ASCII.
pub open spec fn spec_text_part_ok(p: Seq<u8>, enc: Seq<char>) -> bool {
    let chars = spec_decode_text(p, enc);
    &&& p.len() > 0
    &&& p[0] != 0x1a
    &&& (spec_single_byte_encoding(enc) || (vstd::utf8::valid_utf8(p) && (enc == "shift-jis"@
        || forall|k: int| 0 <= k < chars.len() ==> (chars[k] as u32) < 0x80)))
}

/// A text part is written back as it was stored.
proof fn lemma_encode_decoded(p: Seq<u8>, enc: Seq<char>)
    requires
        spec_text_part_ok(p, enc),
    ensures
        spec_encode_chars(spec_decode_text(p, enc), enc) == p,
{
    reveal_strlit("shift-jis");
    reveal_strlit("latin-1");
    reveal_strlit("windows-1252");
    assert("shift-jis"@.len() == 9);
    assert("latin-1"@.len() == 7);
    assert("windows-1252"@.len() == 12);
    if spec_single_byte_encoding(enc) {
        assert(enc != "shift-jis"@);
        assert(spec_decode_text(p, enc) =~= spec_byte_chars(p));
        lemma_encode_byte_chars(p, enc);
    } else {
        let chars = vstd::utf8::decode_utf8(p);
        assert(spec_decode_text(p, enc) == chars);
        vstd::utf8::decode_utf8_encode_utf8(p);
        if enc == "shift-jis"@ {
            lemma_encode_chars_utf8(chars);
        } else {
            lemma_encode_chars_ascii(chars, enc);
        }
    }
}

/// Lowercase hex text holds no closing brace.
proof fn lemma_hex_no_brace(b: Seq<u8>)
    ensures
        forall|k: int| 0 <= k < spec_hex_lower(b).len() ==> spec_hex_lower(b)[k] != '}',
{
    lemma_hex_lower_shape(b);
    assert forall|k: int| 0 <= k < spec_hex_lower(b).len() implies spec_hex_lower(b)[k] != '}' by {
        let i = k / 2;
        assert(0 <= i < b.len());
        if k % 2 == 0 {
            assert(k == 2 * i);
            let d = (b[i] / 16) as nat;
            assert(spec_hex_lower(b)[2 * i] == crate::text::spec_hex_char_lower(d));
        } else {
            assert(k == 2 * i + 1);
            assert(spec_hex_lower(b)[2 * i] == crate::text::spec_hex_char_lower((b[i] / 16) as nat));
            let d = (b[i] % 16) as nat;
            assert(spec_hex_lower(b)[2 * i + 1] == crate::text::spec_hex_char_lower(d));
        }
    }
}

/// An escape sequence part is an escape sequence: not empty, opening with
/// the escape byte.
pub open spec fn spec_escape_part(p: Seq<u8>) -> bool {
    p.len() > 0 && p[0] == 0x1a
}

/// The `{hex}` of an escape sequence read from position `i` flushes the
/// pending text and adds the escape sequence.
proof fn lemma_process_escape(s: Seq<char>, i: int, enc: Seq<char>, parts: Seq<Seq<u8>>, cur: Seq<u8>, p: Seq<u8>)
    requires
        0 <= i,
        spec_escape_part(p),
        i + spec_part_text(p, enc).len() <= s.len(),
        s.subrange(i, i + spec_part_text(p, enc).len()) == spec_part_text(p, enc),
    ensures
        spec_parts_from(s, i, enc, parts, cur) == spec_parts_from(
            s,
            i + spec_part_text(p, enc).len(),
            enc,
            spec_flush(parts, cur).push(p),
            Seq::empty(),
        ),
{
    let hex = spec_hex_lower(p);
    let pt = spec_part_text(p, enc);
    assert(pt == seq!['{'] + hex + seq!['}']);
    let j = i + 1 + hex.len();
    assert(s[i] == pt[0]);
    assert(s[j] == pt[hex.len() as int + 1]);
    lemma_hex_no_brace(p);
    assert forall|k: int| i + 1 <= k < j implies s[k] != '}' by {
        assert(s[k] == pt[k - i]);
        assert(pt[k - i] == hex[k - i - 1]);
    }
    lemma_brace_end(s, i + 1);
    let e = spec_brace_end(s, i + 1);
    if e < j {
        assert(s[e] == '}');
    }
    if e > j {
        assert(s[j] != '}');
    }
    assert(e == j);
    assert(s.subrange(i + 1, j) =~= hex) by {
        assert forall|k: int| 0 <= k < hex.len() implies s.subrange(i + 1, j)[k] == hex[k] by {
            assert(s[i + 1 + k] == pt[1 + k]);
        }
    }
    lemma_hex_roundtrip(p);
}

/// Parts that survive the round trip: each an escape sequence or a text
/// part that does, no two text parts in a row, and no text part that an
/// escape sequence follows ending with a backslash.
pub open spec fn spec_parts_ok(parts: Seq<Seq<u8>>, enc: Seq<char>) -> bool {
    &&& forall|k: int| 0 <= k < parts.len() ==> spec_escape_part(#[trigger] parts[k]) || spec_text_part_ok(parts[k], enc)
    &&& forall|k: int|
        0 <= k < parts.len() - 1 && !spec_escape_part(#[trigger] parts[k]) ==> spec_escape_part(parts[k + 1])
            && spec_ends_unescaped(spec_decode_text(parts[k], enc))
}

/// Text that does not end with a backslash, which would escape the brace
/// of a following `{hex}`.
pub open spec fn spec_ends_unescaped(chars: Seq<char>) -> bool {
    chars.len() > 0 ==> chars.last() != '\\'
}

/// The parts already cut after reading the first `k` parts' text.
pub open spec fn spec_state_parts(parts: Seq<Seq<u8>>, k: int) -> Seq<Seq<u8>> {
    if k > 0 && !spec_escape_part(parts[k - 1]) {
        parts.take(k - 1)
    } else {
        parts.take(k)
    }
}

/// The pending text part after reading the first `k` parts' text.
pub open spec fn spec_state_cur(parts: Seq<Seq<u8>>, k: int) -> Seq<u8> {
    if k > 0 && !spec_escape_part(parts[k - 1]) {
        parts[k - 1]
    } else {
        Seq::empty()
    }
}

proof fn lemma_text_prefix(parts: Seq<Seq<u8>>, enc: Seq<char>, k: nat, n: nat)
    requires
        k <= n <= parts.len(),
    ensures
        spec_message_text(parts.take(n as int), enc).len() >= spec_message_text(parts.take(k as int), enc).len(),
        spec_message_text(parts.take(n as int), enc).subrange(0, spec_message_text(parts.take(k as int), enc).len() as int)
            == spec_message_text(parts.take(k as int), enc),
    decreases n - k,
{
    if k < n {
        lemma_text_prefix(parts, enc, k, (n - 1) as nat);
        assert(parts.take(n as int).drop_last() =~= parts.take(n - 1));
        let a = spec_message_text(parts.take(k as int), enc);
        let m = spec_message_text(parts.take(n - 1), enc);
        let t = spec_message_text(parts.take(n as int), enc);
        assert(t == m + spec_part_text(parts.take(n as int).last(), enc));
        assert(t.subrange(0, a.len() as int) =~= m.subrange(0, a.len() as int));
    } else {
        let t = spec_message_text(parts.take(n as int), enc);
        assert(t.subrange(0, t.len() as int) =~= t);
    }
}

proof fn lemma_parts_step(parts: Seq<Seq<u8>>, enc: Seq<char>, k: nat)
    requires
        spec_parts_ok(parts, enc),
        k < parts.len(),
    ensures
        spec_parts_from(
            spec_message_text(parts, enc),
            spec_message_text(parts.take(k as int), enc).len() as int,
            enc,
            spec_state_parts(parts, k as int),
            spec_state_cur(parts, k as int),
        ) == spec_parts_from(
            spec_message_text(parts, enc),
            spec_message_text(parts.take(k as int + 1), enc).len() as int,
            enc,
            spec_state_parts(parts, k as int + 1),
            spec_state_cur(parts, k as int + 1),
        ),
{
    let s = spec_message_text(parts, enc);
    let n = parts.len();
    assert(parts.take(n as int) =~= parts);
    lemma_text_prefix(parts, enc, k + 1, n);
    let tk = spec_message_text(parts.take(k as int), enc);
    let tk1 = spec_message_text(parts.take(k as int + 1), enc);
    let p = parts[k as int];
    let pt = spec_part_text(p, enc);
    assert(parts.take(k as int + 1).drop_last() =~= parts.take(k as int));
    assert(parts.take(k as int + 1).last() == p);
    assert(tk1 == tk + pt);
    let i = tk.len() as int;
    assert(s.subrange(i, i + pt.len()) =~= pt) by {
        assert forall|q: int| 0 <= q < pt.len() implies s.subrange(i, i + pt.len())[q] == pt[q] by {
            assert(s.subrange(0, tk1.len() as int)[i + q] == tk1[i + q]);
        }
    }
    // What was cut before part k is the first k parts once flushed.
    assert(spec_flush(spec_state_parts(parts, k as int), spec_state_cur(parts, k as int)) =~= parts.take(k as int)) by {
        if k > 0 && !spec_escape_part(parts[k as int - 1]) {
            assert(spec_text_part_ok(parts[k as int - 1], enc));
            assert(parts.take(k as int - 1).push(parts[k as int - 1]) =~= parts.take(k as int));
        }
    }
    if spec_escape_part(p) {
        lemma_process_escape(s, i, enc, spec_state_parts(parts, k as int), spec_state_cur(parts, k as int), p);
        assert(parts.take(k as int).push(p) =~= parts.take(k as int + 1));
    } else {
        assert(spec_text_part_ok(p, enc));
        if k > 0 {
            assert(spec_escape_part(parts[k as int - 1]));
        }
        let chars = spec_decode_text(p, enc);
        assert(pt == spec_escape_braces(chars));
        if k + 1 < n {
            assert(spec_ends_unescaped(chars));
        } else {
            assert(parts.take(k as int + 1) =~= parts);
        }
        lemma_process_escaped(s, i, enc, spec_state_parts(parts, k as int), Seq::empty(), chars);
        lemma_encode_decoded(p, enc);
        assert(Seq::<u8>::empty() + spec_encode_chars(chars, enc) =~= p);
        assert(parts.take(k as int + 1).take(k as int) =~= parts.take(k as int));
    }
}

proof fn lemma_parts_upto(parts: Seq<Seq<u8>>, enc: Seq<char>, k: nat)
    requires
        spec_parts_ok(parts, enc),
        k <= parts.len(),
    ensures
        spec_parse_full_message(spec_message_text(parts, enc), enc) == spec_parts_from(
            spec_message_text(parts, enc),
            spec_message_text(parts.take(k as int), enc).len() as int,
            enc,
            spec_state_parts(parts, k as int),
            spec_state_cur(parts, k as int),
        ),
    decreases k,
{
    if k == 0 {
        assert(parts.take(0) =~= Seq::<Seq<u8>>::empty());
        assert(spec_message_text(parts.take(0), enc) =~= Seq::<char>::empty());
    } else {
        lemma_parts_upto(parts, enc, (k - 1) as nat);
        lemma_parts_step(parts, enc, (k - 1) as nat);
    }
}

/// Law: the text of parts that survive the round trip is cut back into
/// those parts.
pub proof fn lemma_message_text_roundtrip(parts: Seq<Seq<u8>>, enc: Seq<char>)
    requires
        spec_parts_ok(parts, enc),
    ensures
        spec_parse_full_message(spec_message_text(parts, enc), enc) == Ok::<Seq<Seq<u8>>, Seq<char>>(parts),
{
    let n = parts.len();
    lemma_parts_upto(parts, enc, n);
    assert(parts.take(n as int) =~= parts);
    assert(spec_flush(spec_state_parts(parts, n as int), spec_state_cur(parts, n as int)) =~= parts) by {
        if n > 0 && !spec_escape_part(parts[n - 1]) {
            assert(spec_text_part_ok(parts[n - 1], enc));
            assert(parts.take(n - 1).push(parts[n - 1]) =~= parts);
        }
    }
}

/// A decimal rendering is digits with the rendered value.
proof fn lemma_decimal_digits(n: nat)
    ensures
        spec_all_digits(spec_decimal(n)),
        spec_digits_value(spec_decimal(n)) == n,
        spec_decimal(n).len() > 0,
    decreases n,
{
    if n < 10 {
        let c = spec_digit_char(n);
        assert((c as nat) == ('0' as nat) + n);
        assert('0' <= c <= '9');
        assert(seq![c][0] == c);
        assert(seq![c].last() == c);
        assert(seq![c].drop_last() =~= Seq::<char>::empty());
        assert(spec_digits_value(Seq::<char>::empty()) == 0);
        assert(spec_digits_value(seq![c]) == ((c as nat) - ('0' as nat)) as nat);
    } else {
        lemma_decimal_digits(n / 10);
        let d = spec_decimal(n / 10);
        let c = spec_digit_char(n % 10);
        assert((c as nat) == ('0' as nat) + n % 10);
        assert(d.push(c).drop_last() =~= d);
        assert('0' <= c <= '9');
        assert forall|i: int| 0 <= i < d.push(c).len() implies '0' <= #[trigger] d.push(c)[i] <= '9' by {
            if i < d.len() {
                assert(d.push(c)[i] == d[i]);
            }
        }
        assert(spec_digits_value(d.push(c)) == (n / 10) * 10 + n % 10);
        assert((n / 10) * 10 + n % 10 == n) by {
            vstd::arithmetic::div_mod::lemma_fundamental_div_mod(n as int, 10);
        }
    }
}

/// `trim` leaves a digit string alone and takes leading spaces off one.
proof fn lemma_trim_digits(d: Seq<char>, spaces: nat)
    requires
        spec_all_digits(d),
        spaces <= 1,
    ensures
        spec_trim(Seq::new(spaces, |i: int| ' ') + d) == d,
{
    let s = Seq::new(spaces, |i: int| ' ') + d;
    if spaces == 0 {
        assert(s =~= d);
        assert(spec_leading_spaces(d) == 0);
        assert(d.skip(0) =~= d);
    } else {
        assert(s[0] == ' ');
        assert(s.drop_first() =~= d);
        assert(spec_leading_spaces(d) == 0);
        assert(spec_leading_spaces(s) == 1);
        assert(s.skip(1) =~= d);
    }
}

/// The number of commas in a concatenation.
proof fn lemma_comma_count_concat(a: Seq<char>, b: Seq<char>)
    ensures
        crate::formats::bmg::from_json::spec_comma_count(a + b) == crate::formats::bmg::from_json::spec_comma_count(a)
            + crate::formats::bmg::from_json::spec_comma_count(b),
    decreases b.len(),
{
    if b.len() > 0 {
        lemma_comma_count_concat(a, b.drop_last());
        assert((a + b).drop_last() =~= a + b.drop_last());
    } else {
        assert(a + b =~= a);
    }
}

/// Digits hold no comma.
proof fn lemma_digits_no_comma(d: Seq<char>)
    requires
        spec_all_digits(d) || d.len() == 0,
    ensures
        crate::formats::bmg::from_json::spec_comma_count(d) == 0,
    decreases d.len(),
{
    if d.len() > 0 {
        assert(d.last() == d[d.len() - 1]);
        if d.len() > 1 {
            assert(spec_all_digits(d.drop_last())) by {
                assert forall|i: int| 0 <= i < d.drop_last().len() implies '0' <= #[trigger] d.drop_last()[i] <= '9' by {
                    assert(d.drop_last()[i] == d[i]);
                }
            }
        }
        lemma_digits_no_comma(d.drop_last());
    }
}

/// The id text "<id>, <subid>" splits into the id and " <subid>".
proof fn lemma_id_parts(id: nat, subid: nat)
    ensures
        crate::formats::bmg::from_json::spec_id_parts(spec_decimal(id) + ", "@ + spec_decimal(subid)) == Some(
            (spec_decimal(id), " "@ + spec_decimal(subid)),
        ),
{
    reveal_strlit(", ");
    reveal_strlit(" ");
    let a = spec_decimal(id);
    let b = spec_decimal(subid);
    lemma_decimal_digits(id);
    lemma_decimal_digits(subid);
    let s = a + ", "@ + b;
    lemma_digits_no_comma(a);
    lemma_digits_no_comma(b);
    lemma_comma_count_concat(a + ", "@, b);
    lemma_comma_count_concat(a, ", "@);
    assert(", "@ =~= seq![',', ' ']);
    assert(", "@.drop_last() =~= seq![',']);
    assert(seq![','].drop_last() =~= Seq::<char>::empty());
    assert(seq![','].last() == ',');
    assert(", "@.last() == ' ');
    assert(crate::formats::bmg::from_json::spec_comma_count(Seq::<char>::empty()) == 0);
    assert(crate::formats::bmg::from_json::spec_comma_count(seq![',']) == 1);
    assert(crate::formats::bmg::from_json::spec_comma_count(", "@) == 1);
    crate::formats::bmg::from_json::lemma_first_comma(s, 0);
    let f = crate::formats::bmg::from_json::spec_first_comma(s, 0);
    assert(s[a.len() as int] == ',');
    assert forall|q: int| 0 <= q < a.len() implies s[q] != ',' by {
        assert(s[q] == a[q]);
        assert('0' <= a[q] <= '9');
    }
    if f < a.len() {
        assert(s[f] == ',');
    }
    if f > a.len() {
        assert(s[a.len() as int] != ',');
    }
    assert(f == a.len());
    assert(s.take(f) =~= a);
    assert(s.skip(f + 1) =~= " "@ + b);
}

/// Lines joined back together: the items of a split text join into it.
proof fn lemma_join_split(s: Seq<char>)
    ensures
        spec_join_lines(spec_str_items(spec_split_lines(s))) == s,
        spec_split_lines(s).len() > 0,
    decreases s.len(),
{
    if s.len() == 0 {
        assert(spec_str_items(seq![Seq::<char>::empty()]) =~= seq![JsonModel::Str(Seq::empty())]);
    } else {
        let prev = spec_split_lines(s.drop_last());
        lemma_join_split(s.drop_last());
        let items = spec_str_items(prev);
        let c = s.last();
        if c == '\n' {
            let lines = prev.push(Seq::empty());
            assert(spec_str_items(lines).drop_last() =~= items);
            assert(spec_str_items(lines).last() == JsonModel::Str(Seq::<char>::empty()));
            assert(s.drop_last() + seq!['\n'] + Seq::<char>::empty() =~= s);
        } else {
            let lines = prev.update(prev.len() - 1, prev.last().push(c));
            if prev.len() == 1 {
                assert(spec_str_items(lines) =~= seq![JsonModel::Str(prev[0].push(c))]);
                assert(items =~= seq![JsonModel::Str(prev[0])]);
                assert(s.drop_last().push(c) =~= s);
            } else {
                assert(spec_str_items(lines).drop_last() =~= spec_str_items(prev.drop_last()));
                assert(items.drop_last() =~= spec_str_items(prev.drop_last()));
                assert(s.drop_last().push(c) =~= s);
                assert(spec_join_lines(items) == spec_join_lines(items.drop_last()) + seq!['\n'] + spec_line_text(items.last()));
                assert(spec_join_lines(spec_str_items(lines)) =~= spec_join_lines(items).push(c));
            }
        }
    }
}

/// The member `key` of an object is that of its first member so named.
proof fn lemma_entries_get_at(es: Seq<(Seq<char>, JsonModel)>, key: Seq<char>, i: int)
    requires
        0 <= i < es.len(),
        es[i].0 == key,
        forall|j: int| 0 <= j < i ==> es[j].0 != key,
    ensures
        spec_entries_get(es, key) == Some(es[i].1),
    decreases i,
{
    if i > 0 {
        assert(es[0].0 != key);
        assert forall|j: int| 0 <= j < i - 1 implies es.drop_first()[j].0 != key by {
            assert(es.drop_first()[j] == es[j + 1]);
        }
        lemma_entries_get_at(es.drop_first(), key, i - 1);
    }
}

/// An object without a member named `key` has none.
proof fn lemma_entries_get_none(es: Seq<(Seq<char>, JsonModel)>, key: Seq<char>)
    requires
        forall|j: int| 0 <= j < es.len() ==> es[j].0 != key,
    ensures
        spec_entries_get(es, key) is None,
    decreases es.len(),
{
    if es.len() > 0 {
        assert(es[0].0 != key);
        assert forall|j: int| 0 <= j < es.len() - 1 implies es.drop_first()[j].0 != key by {
            assert(es.drop_first()[j] == es[j + 1]);
        }
        lemma_entries_get_none(es.drop_first(), key);
    }
}

/// A message that survives the round trip: 16 attribute bytes opening
/// with its id (which fits in a byte) and subid and closing with a zero
/// byte, and text parts that do.
pub open spec fn spec_message_ok(m: MessageModel, enc: Seq<char>) -> bool {
    &&& m.attributes.len() == 16
    &&& m.id <= 255
    &&& m.attributes[0] == m.id as u8
    &&& m.attributes[1] == m.subid
    &&& m.attributes[15] == 0
    &&& spec_parts_ok(m.text, enc)
}

/// A message's JSON object compiles back to the message.
proof fn lemma_message_item(m: MessageModel, idx: nat, enc: Seq<char>)
    requires
        spec_message_ok(m, enc),
    ensures
        spec_item(spec_message_json(m, idx, enc), enc) == Ok::<ItemModel, Seq<char>>(ItemModel::Message(m)),
{
    reveal_strlit("ID");
    reveal_strlit("index");
    reveal_strlit("attributes");
    reveal_strlit("text");
    reveal_strlit("Section");
    reveal_strlit(" ");
    let item = spec_message_json(m, idx, enc);
    let es = item->Object_0;
    let id_text = spec_decimal(m.id as nat) + ", "@ + spec_decimal(m.subid as nat);
    assert("ID"@.len() == 2);
    assert("index"@.len() == 5);
    assert("attributes"@.len() == 10);
    assert("text"@.len() == 4);
    assert("Section"@.len() == 7);
    assert(es.len() == 4);
    assert(es[0].0 == "ID"@);
    assert(es[1].0 == "index"@);
    assert(es[2].0 == "attributes"@);
    assert(es[3].0 == "text"@);
    lemma_entries_get_none(es, "Section"@);
    lemma_entries_get_at(es, "ID"@, 0);
    lemma_entries_get_at(es, "attributes"@, 2);
    lemma_entries_get_at(es, "text"@, 3);
    assert(spec_get_str(item, "Section"@) is None);
    assert(spec_get_str(item, "ID"@) == Some(id_text));
    lemma_id_parts(m.id as nat, m.subid as nat);
    lemma_decimal_digits(m.id as nat);
    lemma_decimal_digits(m.subid as nat);
    lemma_trim_digits(spec_decimal(m.id as nat), 0);
    assert(Seq::new(0, |i: int| ' ') + spec_decimal(m.id as nat) =~= spec_decimal(m.id as nat));
    lemma_trim_digits(spec_decimal(m.subid as nat), 1);
    assert(Seq::new(1, |i: int| ' ') + spec_decimal(m.subid as nat) =~= " "@ + spec_decimal(m.subid as nat));
    assert(spec_parse_u32(spec_trim(spec_decimal(m.id as nat))) == Ok::<u32, Seq<char>>(m.id));
    assert(spec_parse_u8(spec_trim(" "@ + spec_decimal(m.subid as nat))) == Ok::<u8, Seq<char>>(m.subid));
    let cleared = m.attributes.update(0, 0u8).update(1, 0u8);
    assert(spec_decode_attributes(cleared) =~= spec_decode_attributes(m.attributes));
    lemma_attributes_roundtrip(cleared);
    assert(spec_item_attributes(item) == Ok::<Seq<u8>, Seq<char>>(cleared));
    let lines = spec_text_lines(m.text, enc);
    assert(spec_get(item, "text"@) == Some(JsonModel::Array(spec_str_items(lines))));
    lemma_join_split(spec_message_text(m.text, enc));
    lemma_message_text_roundtrip(m.text, enc);
    assert(cleared.update(0, m.id as u8).update(1, m.subid) =~= m.attributes);
}

/// A section that survives the round trip: its four magic bytes are
/// UTF-8.
pub open spec fn spec_section_ok(sec: SectionModel) -> bool {
    sec.magic.len() == 4 && vstd::utf8::valid_utf8(sec.magic)
}

/// A section's JSON object compiles back to the section.
proof fn lemma_section_item(sec: SectionModel, enc: Seq<char>)
    requires
        spec_section_ok(sec),
    ensures
        spec_item(spec_section_json(sec), enc) == Ok::<ItemModel, Seq<char>>(ItemModel::Section(sec)),
{
    reveal_strlit("Section");
    reveal_strlit("Data");
    let item = spec_section_json(sec);
    let es = item->Object_0;
    assert("Section"@.len() == 7);
    assert("Data"@.len() == 4);
    assert(es.len() == 2);
    assert(es[0].0 == "Section"@);
    assert(es[1].0 == "Data"@);
    lemma_entries_get_at(es, "Section"@, 0);
    lemma_entries_get_at(es, "Data"@, 1);
    let name = spec_utf8_lossy(sec.magic);
    assert(spec_get_str(item, "Section"@) == Some(name));
    assert(spec_get_str(item, "Data"@) == Some(spec_hex_lower(sec.data)));
    lemma_hex_roundtrip(sec.data);
    vstd::utf8::decode_utf8_encode_utf8(sec.magic);
    assert(spec_magic_of(name) =~= sec.magic);
}

/// A BMG whose every message and section survives the round trip.
pub open spec fn spec_json_roundtrips(b: BmgModel) -> bool {
    &&& b.messages.len() <= u64::MAX
    &&& forall|i: int| 0 <= i < b.messages.len() ==> spec_message_ok(#[trigger] b.messages[i], b.encoding)
    &&& forall|k: int| 0 <= k < b.additional_sections.len() ==> spec_section_ok(#[trigger] b.additional_sections[k])
}

/// The items after the metadata.
pub open spec fn spec_body_items(b: BmgModel) -> Seq<JsonModel> {
    Seq::new(b.messages.len(), |i: int| spec_message_json(b.messages[i], i as nat, b.encoding)) + Seq::new(
        b.additional_sections.len(),
        |i: int| spec_section_json(b.additional_sections[i]),
    )
}

#[verifier::spinoff_prover]
#[verifier::rlimit(60)]
proof fn lemma_items_prefix(b: BmgModel, k: nat)
    requires
        spec_json_roundtrips(b),
        k <= b.messages.len() + b.additional_sections.len(),
    ensures
        spec_items(spec_body_items(b).take(k as int), b.encoding) == if k <= b.messages.len() {
            Ok::<(Seq<MessageModel>, Seq<SectionModel>), Seq<char>>((b.messages.take(k as int), Seq::empty()))
        } else {
            Ok::<(Seq<MessageModel>, Seq<SectionModel>), Seq<char>>(
                (b.messages, b.additional_sections.take(k - b.messages.len())),
            )
        },
    decreases k,
{
    let items = spec_body_items(b);
    let n = b.messages.len();
    if k == 0 {
        assert(items.take(0) =~= Seq::<JsonModel>::empty());
        assert(b.messages.take(0) =~= Seq::<MessageModel>::empty());
    } else {
        lemma_items_prefix(b, (k - 1) as nat);
        let prefix = items.take(k as int);
        assert(prefix.drop_last() =~= items.take(k - 1));
        let last = prefix.last();
        let prev = spec_items(items.take(k - 1), b.encoding);
        assert(spec_items(prefix, b.encoding) == match prev {
            Err(e) => Err(e),
            Ok(acc) => match spec_item(last, b.encoding) {
                Err(e) => Err(e),
                Ok(ItemModel::Section(x)) => Ok((acc.0, acc.1.push(x))),
                Ok(ItemModel::Message(x)) => Ok((acc.0.push(x), acc.1)),
            },
        });
        if k <= n {
            assert(last == spec_message_json(b.messages[k - 1], (k - 1) as nat, b.encoding));
            lemma_message_item(b.messages[k - 1], (k - 1) as nat, b.encoding);
            assert(b.messages.take(k - 1).push(b.messages[k - 1]) =~= b.messages.take(k as int));
            assert(spec_items(prefix, b.encoding) == Ok::<(Seq<MessageModel>, Seq<SectionModel>), Seq<char>>(
                (b.messages.take(k as int), Seq::empty()),
            ));
        } else {
            assert(last == spec_section_json(b.additional_sections[k - 1 - n]));
            lemma_section_item(b.additional_sections[k - 1 - n], b.encoding);
            if k - 1 == n {
                assert(b.messages.take(n as int) =~= b.messages);
                assert(Seq::<SectionModel>::empty().push(b.additional_sections[0]) =~= b.additional_sections.take(1));
            } else {
                assert(b.additional_sections.take(k - 1 - n).push(b.additional_sections[k - 1 - n]) =~= b.additional_sections.take(k - n));
            }
            assert(spec_items(prefix, b.encoding) == Ok::<(Seq<MessageModel>, Seq<SectionModel>), Seq<char>>(
                (b.messages, b.additional_sections.take(k - n)),
            ));
        }
    }
}

/// Law: compiling the exported JSON of a BMG, in the BMG's encoding, gives
/// back its messages and sections, with the attribute length the build
/// writes; for every BMG whose messages and sections survive the round
/// trip.
pub proof fn lemma_bmg_json_roundtrip(b: BmgModel)
    requires
        spec_json_roundtrips(b),
    ensures
        spec_json_to_bmg(spec_bmg_to_json(b), b.encoding) == Ok::<BmgModel, Seq<char>>(
            BmgModel { attribute_length: 20, ..b },
        ),
{
    reveal_strlit("message_count");
    let j = spec_bmg_to_json(b);
    let arr = j->Array_0;
    let total = b.messages.len() + b.additional_sections.len();
    assert(arr.len() > 0);
    assert(arr[0] == spec_metadata_json(b));
    let meta = spec_metadata_json(b)->Object_0;
    assert(meta[0].0 == "message_count"@);
    lemma_entries_get_at(meta, "message_count"@, 0);
    assert(spec_get_u64(arr[0], "message_count"@) == Some(b.messages.len() as u64));
    assert(arr.skip(1) =~= spec_body_items(b));
    lemma_items_prefix(b, total);
    assert(spec_body_items(b).take(total as int) =~= spec_body_items(b));
    if total <= b.messages.len() {
        assert(b.additional_sections.len() == 0);
        assert(b.messages.take(total as int) =~= b.messages);
        assert(Seq::<SectionModel>::empty() =~= b.additional_sections);
    } else {
        assert(b.additional_sections.take(total - b.messages.len()) =~= b.additional_sections);
    }
}

/// Parts whose text reads back with the same bytes, its parts joined as
/// the reader joins them: each an escape sequence, an empty part or a
/// text part written back as it was stored, and no escape sequence right
/// after text that ends with a backslash.
pub open spec fn spec_parts_joinable(parts: Seq<Seq<u8>>, enc: Seq<char>) -> bool {
    &&& forall|k: int|
        0 <= k < parts.len() ==> spec_escape_part(#[trigger] parts[k]) || parts[k].len() == 0
            || spec_text_part_ok(parts[k], enc)
    &&& forall|k: int|
        0 <= k < parts.len() && spec_escape_part(#[trigger] parts[k]) ==> spec_ends_unescaped(
            spec_message_text(parts.take(k), enc),
        )
}

/// The parts cut and the text pending after reading the first `k` parts.
pub open spec fn spec_read_state(parts: Seq<Seq<u8>>, k: int) -> (Seq<Seq<u8>>, Seq<u8>)
    decreases k,
{
    if k <= 0 {
        (Seq::empty(), Seq::empty())
    } else {
        let st = spec_read_state(parts, k - 1);
        let p = parts[k - 1];
        if spec_escape_part(p) {
            (spec_flush(st.0, st.1).push(p), Seq::empty())
        } else {
            (st.0, st.1 + p)
        }
    }
}

/// Flushing keeps the bytes.
proof fn lemma_flush_flat(parts: Seq<Seq<u8>>, cur: Seq<u8>)
    ensures
        spec_flat(spec_flush(parts, cur)) == spec_flat(parts) + cur,
{
    if cur.len() > 0 {
        assert(parts.push(cur).drop_last() =~= parts);
    } else {
        assert(spec_flat(parts) + cur =~= spec_flat(parts));
    }
}

/// What is cut and pending after `k` parts holds their bytes.
proof fn lemma_read_state_flat(parts: Seq<Seq<u8>>, k: int)
    requires
        0 <= k <= parts.len(),
    ensures
        spec_flat(spec_read_state(parts, k).0) + spec_read_state(parts, k).1 == spec_flat(parts.take(k)),
    decreases k,
{
    if k == 0 {
        assert(parts.take(0) =~= Seq::<Seq<u8>>::empty());
        assert(spec_flat(Seq::<Seq<u8>>::empty()) + Seq::<u8>::empty() =~= Seq::<u8>::empty());
    } else {
        lemma_read_state_flat(parts, k - 1);
        let st = spec_read_state(parts, k - 1);
        let p = parts[k - 1];
        assert(parts.take(k).drop_last() =~= parts.take(k - 1));
        assert(parts.take(k).last() == p);
        if spec_escape_part(p) {
            lemma_flush_flat(st.0, st.1);
            let f = spec_flush(st.0, st.1);
            assert(f.push(p).drop_last() =~= f);
            assert(spec_flat(f.push(p)) + Seq::<u8>::empty() =~= spec_flat(f) + p);
        } else {
            assert(spec_flat(st.0) + (st.1 + p) =~= spec_flat(st.0) + st.1 + p);
        }
    }
}

/// Brace-escaped text never opens with a brace.
proof fn lemma_escaped_head(chars: Seq<char>)
    requires
        chars.len() > 0,
    ensures
        spec_escape_braces(chars).len() > 0,
        spec_escape_braces(chars)[0] != '{',
        spec_escape_braces(chars)[0] != '}',
{
    let c = chars[0];
    let one = seq![c];
    let rest = chars.drop_first();
    assert(one + rest =~= chars);
    lemma_escape_add(one, rest);
    assert(one.drop_last() =~= Seq::<char>::empty());
    assert(spec_escape_braces(one.drop_last()) == Seq::<char>::empty());
    assert(one.last() == c);
    assert(spec_escape_braces(one) == spec_escape_braces(one.drop_last()) + if c == '{' || c == '}' {
        seq!['\\', c]
    } else {
        seq![c]
    });
}

/// Brace-escaped text ending with a backslash ends with it.
proof fn lemma_escaped_last(chars: Seq<char>)
    requires
        chars.len() > 0,
        chars.last() == '\\',
    ensures
        spec_escape_braces(chars).len() > 0,
        spec_escape_braces(chars).last() == '\\',
{
}

/// A brace right where part `k` starts in the text is the brace of an
/// escape sequence with no backslash before it.
proof fn lemma_brace_follows(parts: Seq<Seq<u8>>, enc: Seq<char>, k: int)
    requires
        spec_parts_joinable(parts, enc),
        0 <= k <= parts.len(),
    ensures
        ({
            let s = spec_message_text(parts, enc);
            let i = spec_message_text(parts.take(k), enc).len() as int;
            (i < s.len() && (s[i] == '{' || s[i] == '}')) ==> spec_ends_unescaped(
                spec_message_text(parts.take(k), enc),
            )
        }),
    decreases parts.len() - k,
{
    let n = parts.len();
    let s = spec_message_text(parts, enc);
    assert(parts.take(n as int) =~= parts);
    if k < n {
        let p = parts[k];
        let tk = spec_message_text(parts.take(k), enc);
        let tk1 = spec_message_text(parts.take(k + 1), enc);
        let pt = spec_part_text(p, enc);
        assert(parts.take(k + 1).drop_last() =~= parts.take(k));
        assert(parts.take(k + 1).last() == p);
        assert(tk1 == tk + pt);
        lemma_text_prefix(parts, enc, (k + 1) as nat, n);
        if spec_escape_part(p) {
        } else if pt.len() == 0 {
            assert(tk1 =~= tk);
            lemma_brace_follows(parts, enc, k + 1);
        } else {
            let chars = spec_decode_text(p, enc);
            assert(pt == spec_escape_braces(chars));
            if chars.len() == 0 {
                assert(spec_escape_braces(chars) =~= Seq::<char>::empty());
            }
            lemma_escaped_head(chars);
            let i = tk.len() as int;
            assert(s.subrange(0, tk1.len() as int)[i] == tk1[i]);
            assert(tk1[i] == pt[0]);
        }
    } else {
        assert(parts.take(k) =~= parts);
    }
}

proof fn lemma_join_step(parts: Seq<Seq<u8>>, enc: Seq<char>, k: int)
    requires
        spec_parts_joinable(parts, enc),
        0 <= k < parts.len(),
    ensures
        spec_parts_from(
            spec_message_text(parts, enc),
            spec_message_text(parts.take(k), enc).len() as int,
            enc,
            spec_read_state(parts, k).0,
            spec_read_state(parts, k).1,
        ) == spec_parts_from(
            spec_message_text(parts, enc),
            spec_message_text(parts.take(k + 1), enc).len() as int,
            enc,
            spec_read_state(parts, k + 1).0,
            spec_read_state(parts, k + 1).1,
        ),
{
    let s = spec_message_text(parts, enc);
    let n = parts.len();
    assert(parts.take(n as int) =~= parts);
    lemma_text_prefix(parts, enc, (k + 1) as nat, n);
    let tk = spec_message_text(parts.take(k), enc);
    let tk1 = spec_message_text(parts.take(k + 1), enc);
    let p = parts[k];
    let pt = spec_part_text(p, enc);
    assert(parts.take(k + 1).drop_last() =~= parts.take(k));
    assert(parts.take(k + 1).last() == p);
    assert(tk1 == tk + pt);
    let i = tk.len() as int;
    assert(s.subrange(i, i + pt.len()) =~= pt) by {
        assert forall|q: int| 0 <= q < pt.len() implies s.subrange(i, i + pt.len())[q] == pt[q] by {
            assert(s.subrange(0, tk1.len() as int)[i + q] == tk1[i + q]);
        }
    }
    let st = spec_read_state(parts, k);
    if spec_escape_part(p) {
        lemma_process_escape(s, i, enc, st.0, st.1, p);
    } else if p.len() == 0 {
        assert(pt =~= Seq::<char>::empty());
        assert(st.1 + p =~= st.1);
    } else {
        assert(spec_text_part_ok(p, enc));
        let chars = spec_decode_text(p, enc);
        assert(pt == spec_escape_braces(chars));
        if chars.len() > 0 && chars.last() == '\\' {
            lemma_escaped_last(chars);
            assert(tk1.last() == pt.last());
            lemma_brace_follows(parts, enc, k + 1);
        }
        lemma_process_escaped(s, i, enc, st.0, st.1, chars);
        lemma_encode_decoded(p, enc);
    }
}

proof fn lemma_join_upto(parts: Seq<Seq<u8>>, enc: Seq<char>, k: int)
    requires
        spec_parts_joinable(parts, enc),
        0 <= k <= parts.len(),
    ensures
        spec_parse_full_message(spec_message_text(parts, enc), enc) == spec_parts_from(
            spec_message_text(parts, enc),
            spec_message_text(parts.take(k), enc).len() as int,
            enc,
            spec_read_state(parts, k).0,
            spec_read_state(parts, k).1,
        ),
    decreases k,
{
    if k == 0 {
        assert(parts.take(0) =~= Seq::<Seq<u8>>::empty());
        assert(spec_message_text(parts.take(0), enc) =~= Seq::<char>::empty());
    } else {
        lemma_join_upto(parts, enc, k - 1);
        lemma_join_step(parts, enc, k - 1);
    }
}

/// The text of joinable parts reads back as parts with the same bytes.
pub proof fn lemma_message_text_joined(parts: Seq<Seq<u8>>, enc: Seq<char>)
    requires
        spec_parts_joinable(parts, enc),
    ensures
        spec_parse_full_message(spec_message_text(parts, enc), enc) matches Ok(t) && spec_flat(t) == spec_flat(
            parts,
        ),
{
    let n = parts.len() as int;
    lemma_join_upto(parts, enc, n);
    assert(parts.take(n) =~= parts);
    let st = spec_read_state(parts, n);
    lemma_read_state_flat(parts, n);
    lemma_flush_flat(st.0, st.1);
}

/// A message that reads back from its JSON with the same id, attributes
/// and text bytes: 16 attribute bytes opening with its id (which fits in a
/// byte) and subid and closing with a zero byte, and joinable text parts.
pub open spec fn spec_message_joinable(m: MessageModel, enc: Seq<char>) -> bool {
    &&& m.attributes.len() == 16
    &&& m.id <= 255
    &&& m.attributes[0] == m.id as u8
    &&& m.attributes[1] == m.subid
    &&& m.attributes[15] == 0
    &&& spec_parts_joinable(m.text, enc)
}

/// A message's JSON object compiles back to a message with the same id,
/// attributes and text bytes.
proof fn lemma_message_item_joined(m: MessageModel, idx: nat, enc: Seq<char>)
    requires
        spec_message_joinable(m, enc),
    ensures
        spec_item(spec_message_json(m, idx, enc), enc) matches Ok(ItemModel::Message(m2)) && {
            &&& m2.id == m.id
            &&& m2.subid == m.subid
            &&& m2.attributes == m.attributes
            &&& spec_flat(m2.text) == spec_flat(m.text)
        },
{
    reveal_strlit("ID");
    reveal_strlit("index");
    reveal_strlit("attributes");
    reveal_strlit("text");
    reveal_strlit("Section");
    reveal_strlit(" ");
    let item = spec_message_json(m, idx, enc);
    let es = item->Object_0;
    let id_text = spec_decimal(m.id as nat) + ", "@ + spec_decimal(m.subid as nat);
    assert("ID"@.len() == 2);
    assert("index"@.len() == 5);
    assert("attributes"@.len() == 10);
    assert("text"@.len() == 4);
    assert("Section"@.len() == 7);
    assert(es.len() == 4);
    assert(es[0].0 == "ID"@);
    assert(es[1].0 == "index"@);
    assert(es[2].0 == "attributes"@);
    assert(es[3].0 == "text"@);
    lemma_entries_get_none(es, "Section"@);
    lemma_entries_get_at(es, "ID"@, 0);
    lemma_entries_get_at(es, "attributes"@, 2);
    lemma_entries_get_at(es, "text"@, 3);
    assert(spec_get_str(item, "Section"@) is None);
    assert(spec_get_str(item, "ID"@) == Some(id_text));
    lemma_id_parts(m.id as nat, m.subid as nat);
    lemma_decimal_digits(m.id as nat);
    lemma_decimal_digits(m.subid as nat);
    lemma_trim_digits(spec_decimal(m.id as nat), 0);
    assert(Seq::new(0, |i: int| ' ') + spec_decimal(m.id as nat) =~= spec_decimal(m.id as nat));
    lemma_trim_digits(spec_decimal(m.subid as nat), 1);
    assert(Seq::new(1, |i: int| ' ') + spec_decimal(m.subid as nat) =~= " "@ + spec_decimal(m.subid as nat));
    assert(spec_parse_u32(spec_trim(spec_decimal(m.id as nat))) == Ok::<u32, Seq<char>>(m.id));
    assert(spec_parse_u8(spec_trim(" "@ + spec_decimal(m.subid as nat))) == Ok::<u8, Seq<char>>(m.subid));
    let cleared = m.attributes.update(0, 0u8).update(1, 0u8);
    assert(spec_decode_attributes(cleared) =~= spec_decode_attributes(m.attributes));
    lemma_attributes_roundtrip(cleared);
    assert(spec_item_attributes(item) == Ok::<Seq<u8>, Seq<char>>(cleared));
    let lines = spec_text_lines(m.text, enc);
    assert(spec_get(item, "text"@) == Some(JsonModel::Array(spec_str_items(lines))));
    lemma_join_split(spec_message_text(m.text, enc));
    lemma_message_text_joined(m.text, enc);
    assert(cleared.update(0, m.id as u8).update(1, m.subid) =~= m.attributes);
}

/// A BMG whose every message reads back from its JSON with the same bytes
/// and every section survives the round trip.
pub open spec fn spec_json_joinable(b: BmgModel) -> bool {
    &&& b.messages.len() <= u64::MAX
    &&& forall|i: int| 0 <= i < b.messages.len() ==> spec_message_joinable(#[trigger] b.messages[i], b.encoding)
    &&& forall|k: int| 0 <= k < b.additional_sections.len() ==> spec_section_ok(#[trigger] b.additional_sections[k])
}

#[verifier::spinoff_prover]
#[verifier::rlimit(60)]
proof fn lemma_items_prefix_joined(b: BmgModel, k: nat)
    requires
        spec_json_joinable(b),
        k <= b.messages.len() + b.additional_sections.len(),
    ensures
        spec_items(spec_body_items(b).take(k as int), b.encoding) matches Ok(acc) && if k <= b.messages.len() {
            spec_same_stored(acc.0, b.messages.take(k as int)) && acc.1 == Seq::<SectionModel>::empty()
        } else {
            spec_same_stored(acc.0, b.messages) && acc.1 == b.additional_sections.take(k - b.messages.len())
        },
    decreases k,
{
    let items = spec_body_items(b);
    let n = b.messages.len();
    if k == 0 {
        assert(items.take(0) =~= Seq::<JsonModel>::empty());
        assert(b.messages.take(0) =~= Seq::<MessageModel>::empty());
    } else {
        lemma_items_prefix_joined(b, (k - 1) as nat);
        let prefix = items.take(k as int);
        assert(prefix.drop_last() =~= items.take(k - 1));
        let last = prefix.last();
        let acc = spec_items(items.take(k - 1), b.encoding)->Ok_0;
        assert(spec_items(prefix, b.encoding) == match spec_item(last, b.encoding) {
            Err(e) => Err(e),
            Ok(ItemModel::Section(x)) => Ok((acc.0, acc.1.push(x))),
            Ok(ItemModel::Message(x)) => Ok((acc.0.push(x), acc.1)),
        });
        if k <= n {
            let m = b.messages[k - 1];
            assert(last == spec_message_json(m, (k - 1) as nat, b.encoding));
            lemma_message_item_joined(m, (k - 1) as nat, b.encoding);
            let m2 = spec_item(last, b.encoding)->Ok_0->Message_0;
            let want = b.messages.take(k as int);
            assert(b.messages.take(k - 1).push(m) =~= want);
            assert(spec_same_stored(acc.0.push(m2), want)) by {
                assert forall|i: int| 0 <= i < acc.0.push(m2).len() implies {
                    &&& (#[trigger] acc.0.push(m2)[i]).id == want[i].id
                    &&& acc.0.push(m2)[i].subid == want[i].subid
                    &&& acc.0.push(m2)[i].attributes == want[i].attributes
                    &&& spec_flat(acc.0.push(m2)[i].text) == spec_flat(want[i].text)
                } by {
                    if i < k - 1 {
                        assert(acc.0.push(m2)[i] == acc.0[i]);
                        assert(want[i] == b.messages.take(k - 1)[i]);
                    }
                }
            }
        } else {
            assert(last == spec_section_json(b.additional_sections[k - 1 - n]));
            lemma_section_item(b.additional_sections[k - 1 - n], b.encoding);
            if k - 1 == n {
                assert(b.messages.take(n as int) =~= b.messages);
                assert(Seq::<SectionModel>::empty().push(b.additional_sections[0]) =~= b.additional_sections.take(1));
            } else {
                assert(b.additional_sections.take(k - 1 - n).push(b.additional_sections[k - 1 - n]) =~= b.additional_sections.take(k - n));
            }
        }
    }
}

/// Law: compiling the exported JSON of a BMG, in the BMG's encoding, gives
/// back its extra sections and its messages with the same ids, attributes
/// and text bytes (their parts joined as the reader joins them), with the
/// attribute length the build writes; for every BMG whose messages read
/// back from their JSON and whose sections survive the round trip.
pub proof fn lemma_bmg_json_roundtrip_joined(b: BmgModel)
    requires
        spec_json_joinable(b),
    ensures
        spec_json_to_bmg(spec_bmg_to_json(b), b.encoding) matches Ok(b2) && {
            &&& b2.encoding == b.encoding
            &&& b2.attribute_length == 20
            &&& b2.additional_sections == b.additional_sections
            &&& spec_same_stored(b2.messages, b.messages)
        },
{
    reveal_strlit("message_count");
    let j = spec_bmg_to_json(b);
    let arr = j->Array_0;
    let total = b.messages.len() + b.additional_sections.len();
    assert(arr.len() > 0);
    assert(arr[0] == spec_metadata_json(b));
    let meta = spec_metadata_json(b)->Object_0;
    assert(meta[0].0 == "message_count"@);
    lemma_entries_get_at(meta, "message_count"@, 0);
    assert(spec_get_u64(arr[0], "message_count"@) == Some(b.messages.len() as u64));
    assert(arr.skip(1) =~= spec_body_items(b));
    lemma_items_prefix_joined(b, total);
    assert(spec_body_items(b).take(total as int) =~= spec_body_items(b));
    if total <= b.messages.len() {
        assert(b.additional_sections.len() == 0);
        assert(b.messages.take(total as int) =~= b.messages);
        assert(Seq::<SectionModel>::empty() =~= b.additional_sections);
    } else {
        assert(b.additional_sections.take(total - b.messages.len()) =~= b.additional_sections);
    }
}

} // verus!
