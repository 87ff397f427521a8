//! A BMG as editable JSON.
//!
//! The JSON is an array: first the metadata (the message count), then one
//! object per message (`ID`, `index`, `attributes` as an object of the
//! fields that differ from their defaults, `text`), then one object per
//! extra section (`Section`, `Data`). A message's text parts are run together: escape sequences as
//! `{hex}`, text decoded with the file's encoding and with its braces
//! escaped as `\{` and `\}`; the result is split into lines.

use vstd::prelude::*;
use crate::json::{
    JsonValue, JsonModel, json_seq_view, json_entries_view, member, lemma_seq_view_push, lemma_view_containers,
};
use crate::text::{
    chars_of, decimal_string, hex_lower_string, push_char, push_str, spec_decimal,
    spec_hex_lower_num, spec_utf8_lossy, str_eq, to_string, utf8_lossy,
};
use crate::utils::{bytes_to_hex, spec_hex_lower};
use crate::formats::bmg::parser::{Bmg, BmgMessage, BmgSection, MessageModel, SectionModel, BmgModel, parts_view};
use crate::formats::bmg::attributes::{decode_attributes, spec_decode_attributes};

verus! {

/// Whether an encoding name stands for a one-byte-per-character encoding.
pub open spec fn spec_single_byte_encoding(enc: Seq<char>) -> bool {
    enc == "latin-1"@ || enc == "windows-1252"@
}

/// The character with the code of a byte.
pub open spec fn spec_byte_char(b: u8) -> char {
    b as char
}

/// Text bytes decoded: one character per byte in a single-byte encoding,
/// else as UTF-8 with each invalid sequence replaced.
pub open spec fn spec_decode_text(b: Seq<u8>, enc: Seq<char>) -> Seq<char> {
    if spec_single_byte_encoding(enc) {
        Seq::new(b.len(), |i: int| spec_byte_char(b[i]))
    } else {
        spec_utf8_lossy(b)
    }
}

/// Text with each brace escaped by a backslash.
pub open spec fn spec_escape_braces(s: Seq<char>) -> Seq<char>
    decreases s.len(),
{
    if s.len() == 0 {
        Seq::empty()
    } else {
        let c = s.last();
        spec_escape_braces(s.drop_last()) + if c == '{' || c == '}' {
            seq!['\\', c]
        } else {
            seq![c]
        }
    }
}

/// The JSON text of one text part: escape sequences as `{hex}`, text
/// decoded with its braces escaped, empty parts as nothing.
pub open spec fn spec_part_text(part: Seq<u8>, enc: Seq<char>) -> Seq<char> {
    if part.len() == 0 {
        Seq::empty()
    } else if part[0] == 0x1a {
        seq!['{'] + spec_hex_lower(part) + seq!['}']
    } else {
        spec_escape_braces(spec_decode_text(part, enc))
    }
}

/// A message's parts run together.
pub open spec fn spec_message_text(parts: Seq<Seq<u8>>, enc: Seq<char>) -> Seq<char>
    decreases parts.len(),
{
    if parts.len() == 0 {
        Seq::empty()
    } else {
        spec_message_text(parts.drop_last(), enc) + spec_part_text(parts.last(), enc)
    }
}

/// Text split at each newline; there is always at least one line.
pub open spec fn spec_split_lines(s: Seq<char>) -> Seq<Seq<char>>
    decreases s.len(),
{
    if s.len() == 0 {
        seq![Seq::empty()]
    } else {
        let prev = spec_split_lines(s.drop_last());
        if s.last() == '\n' {
            prev.push(Seq::empty())
        } else {
            prev.update(prev.len() - 1, prev.last().push(s.last()))
        }
    }
}

/// The JSON lines of a message's text.
pub open spec fn spec_text_lines(parts: Seq<Seq<u8>>, enc: Seq<char>) -> Seq<Seq<char>> {
    spec_split_lines(spec_message_text(parts, enc))
}

/// A list of strings as JSON strings.
pub open spec fn spec_str_items(lines: Seq<Seq<char>>) -> Seq<JsonModel> {
    Seq::new(lines.len(), |i: int| JsonModel::Str(lines[i]))
}

/// The JSON object of message `idx`.
pub open spec fn spec_message_json(m: MessageModel, idx: nat, enc: Seq<char>) -> JsonModel {
    JsonModel::Object(
        seq![
            ("ID"@, JsonModel::Str(spec_decimal(m.id as nat) + ", "@ + spec_decimal(m.subid as nat))),
            ("index"@, JsonModel::Str("0x"@ + spec_hex_lower_num(idx))),
            ("attributes"@, JsonModel::Object(spec_decode_attributes(m.attributes))),
            ("text"@, JsonModel::Array(spec_str_items(spec_text_lines(m.text, enc)))),
        ],
    )
}

/// The JSON object of an extra section.
pub open spec fn spec_section_json(s: SectionModel) -> JsonModel {
    JsonModel::Object(
        seq![
            ("Section"@, JsonModel::Str(spec_utf8_lossy(s.magic))),
            ("Data"@, JsonModel::Str(spec_hex_lower(s.data))),
        ],
    )
}

/// The metadata object.
pub open spec fn spec_metadata_json(b: BmgModel) -> JsonModel {
    JsonModel::Object(seq![("message_count"@, JsonModel::UInt(b.messages.len() as u64))])
}

/// Why the messages cannot be exported: the first one whose attributes
/// are not 16 bytes.
pub open spec fn spec_attributes_error(msgs: Seq<MessageModel>) -> Option<Seq<char>>
    decreases msgs.len(),
{
    if msgs.len() == 0 {
        None
    } else {
        match spec_attributes_error(msgs.drop_last()) {
            Some(e) => Some(e),
            None => if msgs.last().attributes.len() != 16 {
                Some("Expected 16 attribute bytes, got "@ + spec_decimal(msgs.last().attributes.len()))
            } else {
                None
            },
        }
    }
}

/// The JSON form of a BMG.
pub open spec fn spec_bmg_to_json(b: BmgModel) -> JsonModel {
    JsonModel::Array(
        seq![spec_metadata_json(b)] + Seq::new(
            b.messages.len(),
            |i: int| spec_message_json(b.messages[i], i as nat, b.encoding),
        ) + Seq::new(b.additional_sections.len(), |i: int| spec_section_json(b.additional_sections[i])),
    )
}

/// Once some messages cannot be exported, neither can any longer list
/// that begins with them.
proof fn lemma_attributes_error_prefix(msgs: Seq<MessageModel>, k: nat)
    requires
        k <= msgs.len(),
        spec_attributes_error(msgs.take(k as int)) is Some,
    ensures
        spec_attributes_error(msgs) == spec_attributes_error(msgs.take(k as int)),
    decreases msgs.len() - k,
{
    if k < msgs.len() {
        assert(msgs.take(k as int + 1).drop_last() =~= msgs.take(k as int));
        lemma_attributes_error_prefix(msgs, (k + 1) as nat);
    } else {
        assert(msgs.take(k as int) =~= msgs);
    }
}

fn decode_text(bytes: &[u8], encoding: &str) -> (res: String)
    ensures
        res@ == spec_decode_text(bytes@, encoding@),
{
    let single = str_eq(encoding, "latin-1") || str_eq(encoding, "windows-1252");
    if single {
        let mut s = String::new();
        let mut i: usize = 0;
        while i < bytes.len()
            invariant
                i <= bytes@.len(),
                s@ =~= Seq::new(i as nat, |j: int| spec_byte_char(bytes@[j])),
            decreases bytes@.len() - i,
        {
            push_char(&mut s, bytes[i] as char);
            i = i + 1;
        }
        s
    } else {
        utf8_lossy(bytes)
    }
}

fn escape_braces(text: &str, out: &mut String)
    ensures
        final(out)@ == old(out)@ + spec_escape_braces(text@),
{
    let chars = chars_of(text);
    let mut i: usize = 0;
    while i < chars.len()
        invariant
            i <= chars@.len(),
            chars@ == text@,
            out@ == old(out)@ + spec_escape_braces(chars@.take(i as int)),
        decreases chars@.len() - i,
    {
        let c = chars[i];
        proof {
            assert(chars@.take(i + 1).drop_last() =~= chars@.take(i as int));
        }
        if c == '{' || c == '}' {
            push_char(out, '\\');
            push_char(out, c);
        } else {
            push_char(out, c);
        }
        proof {
            assert(out@ =~= old(out)@ + spec_escape_braces(chars@.take(i + 1)));
        }
        i = i + 1;
    }
    assert(chars@.take(chars@.len() as int) =~= chars@);
}

fn message_text(parts: &[Vec<u8>], encoding: &str) -> (res: String)
    ensures
        res@ == spec_message_text(parts_view(parts@), encoding@),
{
    let ghost pv = parts_view(parts@);
    let mut full = String::new();
    let mut k: usize = 0;
    while k < parts.len()
        invariant
            k <= parts@.len(),
            pv == parts_view(parts@),
            full@ == spec_message_text(pv.take(k as int), encoding@),
        decreases parts@.len() - k,
    {
        let part = &parts[k];
        proof {
            assert(pv.take(k + 1).drop_last() =~= pv.take(k as int));
            assert(pv.take(k + 1).last() == part@);
        }
        if part.len() == 0 {
            assert(full@ =~= full@ + spec_part_text(part@, encoding@));
        } else if part[0] == 0x1a {
            push_char(&mut full, '{');
            let h = bytes_to_hex(part.as_slice());
            push_str(&mut full, h.as_str());
            push_char(&mut full, '}');
            proof {
                assert(full@ =~= spec_message_text(pv.take(k as int), encoding@) + (seq!['{'] + spec_hex_lower(part@) + seq!['}']));
            }
        } else {
            let text = decode_text(part.as_slice(), encoding);
            escape_braces(text.as_str(), &mut full);
        }
        k = k + 1;
    }
    assert(pv.take(parts@.len() as int) =~= pv);
    full
}

fn split_lines(text: &str) -> (res: Vec<JsonValue>)
    ensures
        json_seq_view(res@) == spec_str_items(spec_split_lines(text@)),
{
    let chars = chars_of(text);
    let mut done: Vec<JsonValue> = Vec::new();
    let ghost mut lines: Seq<Seq<char>> = Seq::empty();
    let mut cur = String::new();
    let mut i: usize = 0;
    proof {
        assert(chars@.take(0) =~= Seq::<char>::empty());
        assert(lines.push(cur@) =~= spec_split_lines(chars@.take(0)));
    }
    while i < chars.len()
        invariant
            i <= chars@.len(),
            chars@ == text@,
            json_seq_view(done@) == spec_str_items(lines),
            lines.push(cur@) == spec_split_lines(chars@.take(i as int)),
        decreases chars@.len() - i,
    {
        let c = chars[i];
        proof {
            assert(chars@.take(i + 1).drop_last() =~= chars@.take(i as int));
        }
        if c == '\n' {
            let finished = cur;
            cur = String::new();
            let ghost before = done@;
            proof {
                lines = lines.push(finished@);
            }
            done.push(JsonValue::Str(finished));
            proof {
                lemma_seq_view_push(before, done@.last());
                assert(json_seq_view(done@) =~= spec_str_items(lines));
                assert(lines.push(cur@) =~= spec_split_lines(chars@.take(i + 1)));
            }
        } else {
            push_char(&mut cur, c);
            proof {
                assert(lines.push(cur@) =~= spec_split_lines(chars@.take(i + 1)));
            }
        }
        i = i + 1;
    }
    let ghost last = cur@;
    let ghost before = done@;
    done.push(JsonValue::Str(cur));
    proof {
        lemma_seq_view_push(before, done@.last());
        assert(chars@.take(chars@.len() as int) =~= chars@);
        assert(json_seq_view(done@) =~= spec_str_items(lines.push(last)));
    }
    done
}

/// The text lines of a message: its parts joined, escapes written inline
/// as hex in braces, then split at each newline.
fn format_text_parts(parts: &[Vec<u8>], encoding: &str) -> (res: Vec<JsonValue>)
    ensures
        json_seq_view(res@) == spec_str_items(spec_split_lines(spec_message_text(parts_view(parts@), encoding@))),
{
    let full = message_text(parts, encoding);
    split_lines(full.as_str())
}

fn message_json(msg: &BmgMessage, idx: usize, encoding: &str, attrs: JsonValue) -> (res: JsonValue)
    requires
        attrs@ == JsonModel::Object(spec_decode_attributes(msg.attributes@)),
    ensures
        res@ == spec_message_json(msg@, idx as nat, encoding@),
{
    let mut id = decimal_string(msg.id.0 as u64);
    push_str(&mut id, ", ");
    let sub = decimal_string(msg.id.1 as u64);
    push_str(&mut id, sub.as_str());
    let mut index = to_string("0x");
    let h = hex_lower_string(idx as u64);
    push_str(&mut index, h.as_str());
    let lines = format_text_parts(msg.text.as_slice(), encoding);
    let mut entries: Vec<(String, JsonValue)> = Vec::new();
    entries.push(member("ID", JsonValue::Str(id)));
    entries.push(member("index", JsonValue::Str(index)));
    entries.push(member("attributes", attrs));
    let ghost lines_view = json_seq_view(lines@);
    entries.push(member("text", JsonValue::Array(lines)));
    let res = JsonValue::Object(entries);
    proof {
        lemma_view_containers(res);
        lemma_view_containers(entries@[3].1);
        assert(res@->Object_0 =~= spec_message_json(msg@, idx as nat, encoding@)->Object_0);
    }
    res
}

fn section_json(sec: &BmgSection) -> (res: JsonValue)
    ensures
        res@ == spec_section_json(sec@),
{
    let name = utf8_lossy(&sec.magic);
    let data = bytes_to_hex(sec.data.as_slice());
    let mut entries: Vec<(String, JsonValue)> = Vec::new();
    entries.push(member("Section", JsonValue::Str(name)));
    entries.push(member("Data", JsonValue::Str(data)));
    let res = JsonValue::Object(entries);
    proof {
        lemma_view_containers(res);
        assert(json_entries_view(entries@) =~= spec_section_json(sec@)->Object_0);
    }
    res
}

/// Converts a BMG into its editable JSON form; a message whose attributes
/// are not 16 bytes cannot be exported.
pub fn bmg_to_json(bmg: &Bmg) -> (res: Result<JsonValue, String>)
    ensures
        match spec_attributes_error(bmg@.messages) {
            Some(e) => res matches Err(m) && m@ == e,
            None => res matches Ok(v) && v@ == spec_bmg_to_json(bmg@),
        },
{
    let ghost bv = bmg@;
    let mut items: Vec<JsonValue> = Vec::new();
    assert(json_seq_view(items@) =~= Seq::<JsonModel>::empty());
    let mut meta: Vec<(String, JsonValue)> = Vec::new();
    meta.push(member("message_count", JsonValue::UInt(bmg.messages.len() as u64)));
    let meta_json = JsonValue::Object(meta);
    proof {
        lemma_view_containers(meta_json);
        assert(json_entries_view(meta@) =~= spec_metadata_json(bv)->Object_0);
        assert(json_seq_view(items@) =~= Seq::<JsonModel>::empty());
    }
    let ghost empty_items = items@;
    items.push(meta_json);
    proof {
        lemma_seq_view_push(empty_items, items@.last());
        assert(json_seq_view(items@) =~= seq![spec_metadata_json(bv)] + Seq::new(
            0,
            |j: int| spec_message_json(bv.messages[j], j as nat, bv.encoding),
        ));
    }
    let mut i: usize = 0;
    while i < bmg.messages.len()
        invariant
            i <= bmg.messages@.len(),
            bv == bmg@,
            spec_attributes_error(bv.messages.take(i as int)) is None,
            json_seq_view(items@) == seq![spec_metadata_json(bv)] + Seq::new(
                i as nat,
                |j: int| spec_message_json(bv.messages[j], j as nat, bv.encoding),
            ),
        decreases bmg.messages@.len() - i,
    {
        proof {
            assert(bv.messages.take(i + 1).drop_last() =~= bv.messages.take(i as int));
            assert(bv.messages.take(i + 1).last() == bmg.messages@[i as int]@);
        }
        let attrs = match decode_attributes(bmg.messages[i].attributes.as_slice()) {
            Ok(a) => a,
            Err(e) => {
                proof {
                    lemma_attributes_error_prefix(bv.messages, (i + 1) as nat);
                }
                return Err(e);
            },
        };
        let m = message_json(&bmg.messages[i], i, bmg.encoding.as_str(), attrs);
        let ghost before = items@;
        items.push(m);
        proof {
            lemma_seq_view_push(before, items@.last());
            assert(json_seq_view(items@) =~= seq![spec_metadata_json(bv)] + Seq::new(
                (i + 1) as nat,
                |j: int| spec_message_json(bv.messages[j], j as nat, bv.encoding),
            ));
        }
        i = i + 1;
    }
    proof {
        assert(bv.messages.take(bv.messages.len() as int) =~= bv.messages);
    }
    let ghost n = bmg.messages@.len();
    let mut k: usize = 0;
    while k < bmg.additional_sections.len()
        invariant
            k <= bmg.additional_sections@.len(),
            bv == bmg@,
            n == bv.messages.len(),
            json_seq_view(items@) == seq![spec_metadata_json(bv)] + Seq::new(
                n,
                |j: int| spec_message_json(bv.messages[j], j as nat, bv.encoding),
            ) + Seq::new(k as nat, |j: int| spec_section_json(bv.additional_sections[j])),
        decreases bmg.additional_sections@.len() - k,
    {
        let s = section_json(&bmg.additional_sections[k]);
        let ghost before = items@;
        items.push(s);
        proof {
            lemma_seq_view_push(before, items@.last());
            assert(json_seq_view(items@) =~= seq![spec_metadata_json(bv)] + Seq::new(
                n,
                |j: int| spec_message_json(bv.messages[j], j as nat, bv.encoding),
            ) + Seq::new((k + 1) as nat, |j: int| spec_section_json(bv.additional_sections[j])));
        }
        k = k + 1;
    }
    let res = JsonValue::Array(items);
    proof {
        lemma_view_containers(res);
        assert(json_seq_view(items@) =~= spec_bmg_to_json(bv)->Array_0);
    }
    Ok(res)
}

} // verus!
