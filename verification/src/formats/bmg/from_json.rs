//! The editable JSON form compiled back into a BMG.
//!
//! The first item holds the metadata, of which `message_count` is
//! required. Each further item is an extra section (`Section`, `Data`) or
//! a message (`ID` as "id, subid", `attributes` as an object or as hex,
//! `text` as lines). Attribute bytes 0 and 1 are set from the id and the
//! subid. A message's lines are joined with newlines and cut into parts:
//! each `{hex}` becomes an escape sequence part, the text between them
//! becomes text parts in the given encoding, where `\{` and `\}` stand
//! for literal braces.

use vstd::prelude::*;
use crate::json::{
    JsonValue, JsonModel, json_seq_view, spec_get, spec_get_u64, spec_get_str, spec_as_str,
    spec_as_array,
};
use crate::text::{
    chars_of, decimal_string, parse_u32, parse_u8, push_char, push_str, spec_decimal,
    spec_parse_u32, spec_parse_u8, spec_trim, str_eq, string_from, string_range, to_string, trim_str,
};
use crate::utils::{hex_to_bytes, spec_hex_to_bytes, spec_hex_error};
use crate::formats::bmg::attributes::{encode_attributes, spec_encode_attributes};
use crate::formats::bmg::parser::{
    Bmg, BmgMessage, BmgSection, BmgModel, MessageModel, SectionModel, parts_view,
};

verus! {

/// The bytes of one character in the target encoding: UTF-8 for
/// `shift-jis`, else the low byte of the code point.
pub open spec fn spec_encode_char(c: char, enc: Seq<char>) -> Seq<u8> {
    if enc == "shift-jis"@ {
        vstd::utf8::encode_utf8(seq![c])
    } else {
        seq![(c as u32) as u8]
    }
}

/// Where the `{...}` escape opened before `j` closes: the first `}` from
/// `j` on, or the end of the text.
pub open spec fn spec_brace_end(s: Seq<char>, j: int) -> int
    decreases s.len() - j,
{
    if j >= s.len() || j < 0 || s[j] == '}' {
        j
    } else {
        spec_brace_end(s, j + 1)
    }
}

pub proof fn lemma_brace_end(s: Seq<char>, j: int)
    requires
        0 <= j,
    ensures
        j <= spec_brace_end(s, j),
        j <= s.len() ==> spec_brace_end(s, j) <= s.len(),
        spec_brace_end(s, j) < s.len() ==> s[spec_brace_end(s, j)] == '}',
        forall|k: int| j <= k < spec_brace_end(s, j) ==> s[k] != '}',
    decreases s.len() - j,
{
    if j < s.len() && s[j] != '}' {
        lemma_brace_end(s, j + 1);
    }
}

/// The parts with the pending text part added, when it is not empty.
pub open spec fn spec_flush(parts: Seq<Seq<u8>>, cur: Seq<u8>) -> Seq<Seq<u8>> {
    if cur.len() > 0 {
        parts.push(cur)
    } else {
        parts
    }
}

/// The parts of the text from position `i` on, after `parts` and the
/// pending text `cur`; the error is that of the first bad `{hex}`.
pub open spec fn spec_parts_from(s: Seq<char>, i: int, enc: Seq<char>, parts: Seq<Seq<u8>>, cur: Seq<u8>) -> Result<
    Seq<Seq<u8>>,
    Seq<char>,
>
    decreases s.len() - i,
{
    if i >= s.len() || i < 0 {
        Ok(spec_flush(parts, cur))
    } else if s[i] == '{' {
        let j = spec_brace_end(s, i + 1);
        let hex = s.subrange(i + 1, j);
        let next = if j < s.len() {
            j + 1
        } else {
            j
        };
        proof {
            lemma_brace_end(s, i + 1);
        }
        match spec_hex_to_bytes(vstd::utf8::encode_utf8(hex)) {
            Err(pos) => Err(spec_hex_error(hex, pos)),
            Ok(b) => spec_parts_from(s, next, enc, spec_flush(parts, cur).push(b), Seq::empty()),
        }
    } else if s[i] == '\\' && i + 1 < s.len() && (s[i + 1] == '{' || s[i + 1] == '}') {
        spec_parts_from(s, i + 2, enc, parts, cur + spec_encode_char(s[i + 1], enc))
    } else if s[i] == '\n' {
        spec_parts_from(s, i + 1, enc, parts, cur.push(0x0a))
    } else {
        spec_parts_from(s, i + 1, enc, parts, cur + spec_encode_char(s[i], enc))
    }
}

/// The parts of a message's text.
pub open spec fn spec_parse_full_message(s: Seq<char>, enc: Seq<char>) -> Result<Seq<Seq<u8>>, Seq<char>> {
    spec_parts_from(s, 0, enc, Seq::empty(), Seq::empty())
}

fn encode_char(c: char, encoding: &str, out: &mut Vec<u8>)
    ensures
        final(out)@ == old(out)@ + spec_encode_char(c, encoding@),
{
    proof {
        reveal_strlit("shift-jis");
    }
    if str_eq(encoding, "shift-jis") {
        let mut s = String::new();
        push_char(&mut s, c);
        let b = s.as_str().as_bytes();
        let mut k: usize = 0;
        let ghost start = out@;
        while k < b.len()
            invariant
                k <= b@.len(),
                b@ == vstd::utf8::encode_utf8(seq![c]),
                out@ == start + b@.take(k as int),
            decreases b@.len() - k,
        {
            proof {
                assert(b@.take(k + 1) =~= b@.take(k as int).push(b@[k as int]));
            }
            out.push(b[k]);
            k = k + 1;
        }
        assert(b@.take(b@.len() as int) =~= b@);
    } else {
        out.push((c as u32) as u8);
    }
}

/// Cuts a message's text into parts: each `{hex}` an escape sequence part,
/// the text between them text parts in `encoding`, a newline as byte 0x0A.
pub fn parse_full_message(full: &str, encoding: &str) -> (res: Result<Vec<Vec<u8>>, String>)
    ensures
        match spec_parse_full_message(full@, encoding@) {
            Ok(p) => res matches Ok(v) && parts_view(v@) == p,
            Err(e) => res matches Err(m) && m@ == e,
        },
{
    let chars = chars_of(full);
    let n = chars.len();
    let ghost s = full@;
    let mut parts: Vec<Vec<u8>> = Vec::new();
    let mut current: Vec<u8> = Vec::new();
    let mut i: usize = 0;
    assert(parts_view(parts@) =~= Seq::<Seq<u8>>::empty());
    while i < n
        invariant
            i <= n,
            n == chars@.len(),
            chars@ == s,
            s == full@,
            spec_parse_full_message(s, encoding@) == spec_parts_from(
                s,
                i as int,
                encoding@,
                parts_view(parts@),
                current@,
            ),
        decreases n - i,
    {
        let ch = chars[i];
        if ch == '{' {
            let mut j = i + 1;
            let mut hex = String::new();
            proof {
                lemma_brace_end(s, i + 1);
            }
            while j < n && chars[j] != '}'
                invariant
                    i < j <= n,
                    n == chars@.len(),
                    chars@ == s,
                    hex@ == s.subrange(i + 1, j as int),
                    spec_brace_end(s, i + 1) == spec_brace_end(s, j as int),
                decreases n - j,
            {
                push_char(&mut hex, chars[j]);
                proof {
                    assert(s.subrange(i + 1, j + 1) =~= s.subrange(i + 1, j as int).push(s[j as int]));
                }
                j = j + 1;
            }
            let next = if j < n {
                j + 1
            } else {
                j
            };
            let ghost before = parts_view(parts@);
            let ghost cur0 = current@;
            if current.len() > 0 {
                let done = current;
                current = Vec::new();
                parts.push(done);
                proof {
                    assert(parts_view(parts@) =~= before.push(cur0));
                }
            }
            assert(parts_view(parts@) == spec_flush(before, cur0));
            match hex_to_bytes(hex.as_str()) {
                Ok(b) => {
                    let ghost mid = parts_view(parts@);
                    parts.push(b);
                    proof {
                        assert(parts_view(parts@) =~= mid.push(parts@.last()@));
                        assert(current@ =~= Seq::<u8>::empty());
                    }
                },
                Err(m) => {
                    return Err(m);
                },
            }
            i = next;
        } else if ch == '\\' && i + 1 < n && (chars[i + 1] == '{' || chars[i + 1] == '}') {
            encode_char(chars[i + 1], encoding, &mut current);
            i = i + 2;
        } else if ch == '\n' {
            current.push(0x0a);
            i = i + 1;
        } else {
            encode_char(ch, encoding, &mut current);
            i = i + 1;
        }
    }
    let ghost before = parts_view(parts@);
    let ghost cur0 = current@;
    if current.len() > 0 {
        parts.push(current);
        proof {
            assert(parts_view(parts@) =~= before.push(cur0));
        }
    }
    Ok(parts)
}

/// Where the first comma of `s` stands.
pub open spec fn spec_first_comma(s: Seq<char>, k: int) -> int
    decreases s.len() - k,
{
    if k >= s.len() || k < 0 || s[k] == ',' {
        k
    } else {
        spec_first_comma(s, k + 1)
    }
}

/// The number of commas in `s`.
pub open spec fn spec_comma_count(s: Seq<char>) -> nat
    decreases s.len(),
{
    if s.len() == 0 {
        0
    } else {
        spec_comma_count(s.drop_last()) + if s.last() == ',' {
            1nat
        } else {
            0nat
        }
    }
}

/// The two sides of an id "id, subid": defined where `s` holds exactly one
/// comma.
pub open spec fn spec_id_parts(s: Seq<char>) -> Option<(Seq<char>, Seq<char>)> {
    if spec_comma_count(s) == 1 {
        let p = spec_first_comma(s, 0);
        Some((s.take(p), s.skip(p + 1)))
    } else {
        None
    }
}

pub proof fn lemma_first_comma(s: Seq<char>, k: int)
    requires
        0 <= k <= s.len(),
    ensures
        k <= spec_first_comma(s, k) <= s.len(),
        spec_first_comma(s, k) < s.len() ==> s[spec_first_comma(s, k)] == ',',
        forall|q: int| k <= q < spec_first_comma(s, k) ==> s[q] != ',',
    decreases s.len() - k,
{
    if k < s.len() && s[k] != ',' {
        lemma_first_comma(s, k + 1);
    }
}

/// Splits an id at its one comma.
fn id_parts(s: &str) -> (res: Option<(String, String)>)
    ensures
        match spec_id_parts(s@) {
            Some((a, b)) => res matches Some(r) && r.0@ == a && r.1@ == b,
            None => res is None,
        },
{
    let chars = chars_of(s);
    let n = chars.len();
    let mut count: usize = 0;
    let mut first: usize = n;
    let mut k: usize = 0;
    proof {
        lemma_first_comma(s@, 0);
    }
    while k < n
        invariant
            k <= n,
            n == chars@.len(),
            chars@ == s@,
            count == spec_comma_count(s@.take(k as int)),
            count <= k,
            count == 0 ==> first == n && forall|q: int| 0 <= q < k ==> s@[q] != ',',
            count > 0 ==> first == spec_first_comma(s@, 0) && first < k,
        decreases n - k,
    {
        proof {
            assert(s@.take(k + 1).drop_last() =~= s@.take(k as int));
        }
        if chars[k] == ',' {
            if count == 0 {
                first = k;
                proof {
                    lemma_first_comma(s@, 0);
                    assert(spec_first_comma(s@, 0) == k) by {
                        if spec_first_comma(s@, 0) < k {
                            assert(s@[spec_first_comma(s@, 0)] == ',');
                        }
                    }
                }
            }
            count = count + 1;
        }
        k = k + 1;
    }
    assert(s@.take(n as int) =~= s@);
    if count != 1 {
        return None;
    }
    let a = string_range(chars.as_slice(), 0, first);
    let b = string_from(chars.as_slice(), first + 1);
    proof {
        assert(chars@.subrange(0, first as int) =~= s@.take(first as int));
        assert(chars@.subrange(first + 1, n as int) =~= s@.skip(first + 1));
    }
    Some((a, b))
}

/// The text of a line item: its string, or nothing where it is not one.
pub open spec fn spec_line_text(l: JsonModel) -> Seq<char> {
    match spec_as_str(l) {
        Some(s) => s,
        None => Seq::empty(),
    }
}

/// Line items joined with newlines.
pub open spec fn spec_join_lines(lines: Seq<JsonModel>) -> Seq<char>
    decreases lines.len(),
{
    if lines.len() == 0 {
        Seq::empty()
    } else if lines.len() == 1 {
        spec_line_text(lines[0])
    } else {
        spec_join_lines(lines.drop_last()) + seq!['\n'] + spec_line_text(lines.last())
    }
}

fn join_lines(lines: &Vec<JsonValue>) -> (res: String)
    ensures
        res@ == spec_join_lines(json_seq_view(lines@)),
{
    let ghost lv = json_seq_view(lines@);
    let mut full = String::new();
    let mut k: usize = 0;
    while k < lines.len()
        invariant
            k <= lines@.len(),
            lv == json_seq_view(lines@),
            full@ == spec_join_lines(lv.take(k as int)),
        decreases lines@.len() - k,
    {
        proof {
            assert(lv.take(k + 1).drop_last() =~= lv.take(k as int));
            assert(lv.take(k + 1).last() == lines@[k as int]@);
        }
        if k > 0 {
            push_char(&mut full, '\n');
        }
        match lines[k].as_str() {
            Some(t) => push_str(&mut full, t),
            None => {},
        }
        proof {
            if k == 0 {
                assert(full@ =~= spec_join_lines(lv.take(1)));
            } else {
                assert(full@ =~= spec_join_lines(lv.take(k + 1)));
            }
        }
        k = k + 1;
    }
    assert(lv.take(lines@.len() as int) =~= lv);
    full
}

/// The attribute bytes of a message item, before its id is written in.
pub open spec fn spec_item_attributes(item: JsonModel) -> Result<Seq<u8>, Seq<char>> {
    match spec_get(item, "attributes"@) {
        Some(JsonModel::Object(e)) => spec_encode_attributes(JsonModel::Object(e)),
        Some(JsonModel::Str(h)) => match spec_hex_to_bytes(vstd::utf8::encode_utf8(h)) {
            Ok(b) => Ok(b),
            Err(pos) => Err(spec_hex_error(h, pos)),
        },
        Some(_) => Err("Message attributes must be an object or hex string"@),
        None => Err("Message missing attributes"@),
    }
}

fn item_attributes(item: &JsonValue) -> (res: Result<Vec<u8>, String>)
    ensures
        match spec_item_attributes(item@) {
            Ok(b) => res matches Ok(v) && v@ == b,
            Err(e) => res matches Err(m) && m@ == e,
        },
{
    match item.get("attributes") {
        Some(v) => match v {
            JsonValue::Object(_) => encode_attributes(v),
            JsonValue::Str(h) => hex_to_bytes(h.as_str()),
            _ => Err(to_string("Message attributes must be an object or hex string")),
        },
        None => Err(to_string("Message missing attributes")),
    }
}

/// The message that a message item compiles to, or why it cannot.
pub open spec fn spec_message_item(item: JsonModel, enc: Seq<char>) -> Result<MessageModel, Seq<char>> {
    match spec_get_str(item, "ID"@) {
        None => Err("Message missing ID"@),
        Some(id_str) => match spec_id_parts(id_str) {
            None => Err("Invalid ID format: "@ + id_str),
            Some(parts) => match spec_parse_u32(spec_trim(parts.0)) {
                Err(e) => Err("Invalid ID: "@ + e),
                Ok(id) => match spec_parse_u8(spec_trim(parts.1)) {
                    Err(e) => Err("Invalid subid: "@ + e),
                    Ok(subid) => match spec_item_attributes(item) {
                        Err(e) => Err(e),
                        Ok(attrs) => if attrs.len() != 16 {
                            Err(
                                "Message attributes must be exactly 16 bytes, got "@ + spec_decimal(
                                    attrs.len(),
                                ),
                            )
                        } else if id > 255 {
                            Err(
                                "ID group component must fit in one byte for attributes[0], got "@
                                    + spec_decimal(id as nat),
                            )
                        } else {
                            match spec_get(item, "text"@) {
                                Some(JsonModel::Array(lines)) => match spec_parse_full_message(
                                    spec_join_lines(lines),
                                    enc,
                                ) {
                                    Err(e) => Err(e),
                                    Ok(text) => Ok(
                                        MessageModel {
                                            id,
                                            subid,
                                            attributes: attrs.update(0, id as u8).update(1, subid),
                                            text,
                                        },
                                    ),
                                },
                                _ => Err("Message missing text array"@),
                            }
                        },
                    },
                },
            },
        },
    }
}

fn message_item(item: &JsonValue, encoding: &str) -> (res: Result<BmgMessage, String>)
    ensures
        match spec_message_item(item@, encoding@) {
            Ok(m) => res matches Ok(v) && v@ == m,
            Err(e) => res matches Err(msg) && msg@ == e,
        },
{
    let id_str = match item.get("ID") {
        Some(v) => match v.as_str() {
            Some(s) => s,
            None => {
                return Err(to_string("Message missing ID"));
            },
        },
        None => {
            return Err(to_string("Message missing ID"));
        },
    };
    let (p0, p1) = match id_parts(id_str) {
        Some(p) => p,
        None => {
            let mut m = to_string("Invalid ID format: ");
            push_str(&mut m, id_str);
            return Err(m);
        },
    };
    let t0 = trim_str(p0.as_str());
    let id = match parse_u32(t0.as_str()) {
        Ok(v) => v,
        Err(e) => {
            let mut m = to_string("Invalid ID: ");
            push_str(&mut m, e.as_str());
            return Err(m);
        },
    };
    let t1 = trim_str(p1.as_str());
    let subid = match parse_u8(t1.as_str()) {
        Ok(v) => v,
        Err(e) => {
            let mut m = to_string("Invalid subid: ");
            push_str(&mut m, e.as_str());
            return Err(m);
        },
    };
    let mut attributes = match item_attributes(item) {
        Ok(a) => a,
        Err(e) => {
            return Err(e);
        },
    };
    if attributes.len() != 16 {
        let mut m = to_string("Message attributes must be exactly 16 bytes, got ");
        let d = decimal_string(attributes.len() as u64);
        push_str(&mut m, d.as_str());
        return Err(m);
    }
    if id > 255 {
        let mut m = to_string("ID group component must fit in one byte for attributes[0], got ");
        let d = decimal_string(id as u64);
        push_str(&mut m, d.as_str());
        return Err(m);
    }
    attributes.set(0, id as u8);
    attributes.set(1, subid);
    let lines = match item.get("text") {
        Some(v) => match v.as_array() {
            Some(a) => a,
            None => {
                return Err(to_string("Message missing text array"));
            },
        },
        None => {
            return Err(to_string("Message missing text array"));
        },
    };
    let full = join_lines(lines);
    let text = match parse_full_message(full.as_str(), encoding) {
        Ok(t) => t,
        Err(e) => {
            return Err(e);
        },
    };
    Ok(BmgMessage { id: (id, subid), attributes, text })
}

/// The four magic bytes made from a section name: its first four UTF-8
/// bytes, zeros where it is shorter.
pub open spec fn spec_magic_of(name: Seq<char>) -> Seq<u8> {
    let b = vstd::utf8::encode_utf8(name);
    Seq::new(4, |i: int| if i < b.len() { b[i] } else { 0u8 })
}

/// What an item compiles to.
pub enum ItemModel {
    Section(SectionModel),
    Message(MessageModel),
}

/// What an item compiles to: an extra section where it has a string
/// `Section`, else a message.
pub open spec fn spec_item(item: JsonModel, enc: Seq<char>) -> Result<ItemModel, Seq<char>> {
    match spec_get_str(item, "Section"@) {
        Some(name) => match spec_get_str(item, "Data"@) {
            None => Err("Section missing Data"@),
            Some(d) => match spec_hex_to_bytes(vstd::utf8::encode_utf8(d)) {
                Err(pos) => Err(spec_hex_error(d, pos)),
                Ok(data) => Ok(ItemModel::Section(SectionModel { magic: spec_magic_of(name), data })),
            },
        },
        None => match spec_message_item(item, enc) {
            Err(e) => Err(e),
            Ok(m) => Ok(ItemModel::Message(m)),
        },
    }
}

/// The messages and sections of a list of items, in order, or the first
/// error.
pub open spec fn spec_items(items: Seq<JsonModel>, enc: Seq<char>) -> Result<(Seq<MessageModel>, Seq<SectionModel>), Seq<char>>
    decreases items.len(),
{
    if items.len() == 0 {
        Ok((Seq::empty(), Seq::empty()))
    } else {
        match spec_items(items.drop_last(), enc) {
            Err(e) => Err(e),
            Ok(acc) => match spec_item(items.last(), enc) {
                Err(e) => Err(e),
                Ok(ItemModel::Section(s)) => Ok((acc.0, acc.1.push(s))),
                Ok(ItemModel::Message(m)) => Ok((acc.0.push(m), acc.1)),
            },
        }
    }
}

proof fn lemma_items_err_prefix(items: Seq<JsonModel>, n: nat, enc: Seq<char>)
    requires
        n <= items.len(),
        spec_items(items.take(n as int), enc) is Err,
    ensures
        spec_items(items, enc) == spec_items(items.take(n as int), enc),
    decreases items.len() - n,
{
    if n < items.len() {
        assert(items.take(n as int + 1).drop_last() =~= items.take(n as int));
        lemma_items_err_prefix(items, n + 1, enc);
    } else {
        assert(items.take(n as int) =~= items);
    }
}

/// The BMG that a JSON value compiles to, or why it does not.
pub open spec fn spec_json_to_bmg(v: JsonModel, enc: Seq<char>) -> Result<BmgModel, Seq<char>> {
    match spec_as_array(v) {
        None => Err("Expected JSON array"@),
        Some(arr) => if arr.len() == 0 {
            Err("Empty JSON"@)
        } else {
            match spec_get_u64(arr[0], "message_count"@) {
                None => Err("Missing message_count"@),
                Some(expected) => match spec_items(arr.skip(1), enc) {
                    Err(e) => Err(e),
                    Ok(acc) => if expected != acc.0.len() {
                        Err(
                            "message_count mismatch: metadata says "@ + spec_decimal(expected as nat)
                                + ", parsed "@ + spec_decimal(acc.0.len()),
                        )
                    } else {
                        Ok(
                            BmgModel {
                                encoding: enc,
                                messages: acc.0,
                                attribute_length: 20,
                                additional_sections: acc.1,
                            },
                        )
                    },
                },
            }
        },
    }
}

fn section_item(name: &str, item: &JsonValue) -> (res: Result<BmgSection, String>)
    ensures
        match spec_get_str(item@, "Data"@) {
            None => res matches Err(m) && m@ == "Section missing Data"@,
            Some(d) => match spec_hex_to_bytes(vstd::utf8::encode_utf8(d)) {
                Err(pos) => res matches Err(m) && m@ == spec_hex_error(d, pos),
                Ok(data) => res matches Ok(s) && s@ == SectionModel { magic: spec_magic_of(name@), data },
            },
        },
{
    let data_hex = match item.get("Data") {
        Some(v) => match v.as_str() {
            Some(s) => s,
            None => {
                return Err(to_string("Section missing Data"));
            },
        },
        None => {
            return Err(to_string("Section missing Data"));
        },
    };
    let data = match hex_to_bytes(data_hex) {
        Ok(d) => d,
        Err(e) => {
            return Err(e);
        },
    };
    let nb = name.as_bytes();
    let mut magic = [0u8; 4];
    let mut i: usize = 0;
    while i < 4
        invariant
            i <= 4,
            nb@ == vstd::utf8::encode_utf8(name@),
            forall|q: int| 0 <= q < i ==> magic@[q] == (if q < nb@.len() { nb@[q] } else { 0u8 }),
            forall|q: int| i <= q < 4 ==> magic@[q] == 0u8,
        decreases 4 - i,
    {
        if i < nb.len() {
            magic[i] = nb[i];
        }
        i = i + 1;
    }
    assert(magic@ =~= spec_magic_of(name@));
    Ok(BmgSection { magic, data })
}

/// The plain values of a list of messages.
pub open spec fn messages_view(v: Seq<BmgMessage>) -> Seq<MessageModel> {
    v.map_values(|m: BmgMessage| m@)
}

/// The plain values of a list of sections.
pub open spec fn sections_view(v: Seq<BmgSection>) -> Seq<SectionModel> {
    v.map_values(|s: BmgSection| s@)
}

fn compile_item(
    item: &JsonValue,
    encoding: &str,
    messages: &mut Vec<BmgMessage>,
    sections: &mut Vec<BmgSection>,
) -> (res: Result<(), String>)
    ensures
        match spec_item(item@, encoding@) {
            Err(e) => res matches Err(m) && m@ == e,
            Ok(ItemModel::Section(sec)) => res is Ok && messages_view(final(messages)@) == messages_view(
                old(messages)@,
            ) && sections_view(final(sections)@) == sections_view(old(sections)@).push(sec),
            Ok(ItemModel::Message(msg)) => res is Ok && messages_view(final(messages)@) == messages_view(
                old(messages)@,
            ).push(msg) && sections_view(final(sections)@) == sections_view(old(sections)@),
        },
{
    let section_name = match item.get("Section") {
        Some(v) => v.as_str(),
        None => None,
    };
    match section_name {
        Some(name) => match section_item(name, item) {
            Ok(s) => {
                sections.push(s);
                assert(sections_view(sections@) =~= sections_view(old(sections)@).push(sections@.last()@));
                Ok(())
            },
            Err(e) => Err(e),
        },
        None => match message_item(item, encoding) {
            Ok(m) => {
                messages.push(m);
                assert(messages_view(messages@) =~= messages_view(old(messages)@).push(messages@.last()@));
                Ok(())
            },
            Err(e) => Err(e),
        },
    }
}

/// Compiles the editable JSON form of a BMG back into a BMG in
/// `encoding`, with attribute length 20.
pub fn json_to_bmg(val: &JsonValue, encoding: &str) -> (res: Result<Bmg, String>)
    ensures
        match spec_json_to_bmg(val@, encoding@) {
            Ok(b) => res matches Ok(v) && v@ == b,
            Err(e) => res matches Err(m) && m@ == e,
        },
{
    let arr = match val.as_array() {
        Some(a) => a,
        None => {
            return Err(to_string("Expected JSON array"));
        },
    };
    if arr.len() == 0 {
        return Err(to_string("Empty JSON"));
    }
    let ghost av = json_seq_view(arr@);
    let expected = match arr[0].get("message_count") {
        Some(v) => match v.as_u64() {
            Some(n) => n,
            None => {
                return Err(to_string("Missing message_count"));
            },
        },
        None => {
            return Err(to_string("Missing message_count"));
        },
    };
    let mut messages: Vec<BmgMessage> = Vec::new();
    let mut sections: Vec<BmgSection> = Vec::new();
    let mut k: usize = 1;
    proof {
        assert(av.skip(1).take(0) =~= Seq::<JsonModel>::empty());
        assert(messages_view(messages@) =~= Seq::<MessageModel>::empty());
        assert(sections_view(sections@) =~= Seq::<SectionModel>::empty());
    }
    while k < arr.len()
        invariant
            1 <= k <= arr@.len(),
            av == json_seq_view(arr@),
            spec_as_array(val@) == Some(av),
            spec_get_u64(av[0], "message_count"@) == Some(expected),
            spec_items(av.skip(1).take(k - 1), encoding@) == Ok::<(Seq<MessageModel>, Seq<SectionModel>), Seq<char>>((
                messages_view(messages@),
                sections_view(sections@),
            )),
        decreases arr@.len() - k,
    {
        let ghost items = av.skip(1).take(k as int);
        proof {
            assert(items.drop_last() =~= av.skip(1).take(k - 1));
            assert(items.last() == arr@[k as int]@);
        }
        match compile_item(&arr[k], encoding, &mut messages, &mut sections) {
            Ok(()) => {},
            Err(e) => {
                proof {
                    assert(spec_items(items, encoding@) is Err);
                    lemma_items_err_prefix(av.skip(1), k as nat, encoding@);
                }
                return Err(e);
            },
        }
        k = k + 1;
    }
    proof {
        assert(av.skip(1).take(arr@.len() - 1) =~= av.skip(1));
    }
    if expected != messages.len() as u64 {
        let mut m = to_string("message_count mismatch: metadata says ");
        let d = decimal_string(expected);
        push_str(&mut m, d.as_str());
        push_str(&mut m, ", parsed ");
        let d2 = decimal_string(messages.len() as u64);
        push_str(&mut m, d2.as_str());
        return Err(m);
    }
    Ok(
        Bmg {
            encoding: to_string(encoding),
            messages,
            attribute_length: 20,
            additional_sections: sections,
        },
    )
}

} // verus!
