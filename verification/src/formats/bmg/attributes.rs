//! The 16 attribute bytes of a message, as an editable JSON object.
//!
//! Bytes 2-3 hold the event label id, byte 4 the speaker, bytes 5-7 the
//! box style, print style and box position (which have names), bytes 8-14
//! the item id, line arrangement, sound mood, camera id, base and face
//! animations and a flag. Decoding leaves out every field at its default;
//! encoding fills in the default of every field left out.

use vstd::prelude::*;
use crate::json::{JsonValue, JsonModel, json_entries_view, spec_get, spec_as_u64, spec_get_u64};
use crate::text::{decimal_string, push_str, spec_decimal, str_eq, to_string};

verus! {

/// The number of attribute bytes of a message.
pub const ATTR_LEN: usize = 16;

/// The names and values of a table.
pub open spec fn table_view(t: Seq<(&str, u8)>) -> Seq<(Seq<char>, u8)> {
    Seq::new(t.len(), |i: int| (t[i].0@, t[i].1))
}

/// The named box styles.
pub open spec fn spec_box_styles() -> Seq<(Seq<char>, u8)> {
    seq![
        ("standard_dialogue"@, 0x00u8),
        ("no_background"@, 0x01u8),
        ("fullscreen_sign_forced_instant"@, 0x02u8),
        ("no_background_voiceless"@, 0x05u8),
        ("no_background_centered_credits"@, 0x07u8),
        ("standard_with_glow_effect"@, 0x08u8),
        ("get_item_box"@, 0x09u8),
        ("item_name_or_description"@, 0x0Bu8),
        ("header_top_left_area_name"@, 0x0Cu8),
        ("midna_dialogue_blue_text"@, 0x0Du8),
        ("animal_wolf_link_green_text"@, 0x0Eu8),
        ("instant_fade_in_non_modal"@, 0x0Fu8),
        ("system_message"@, 0x10u8),
        ("wolf_song_interface"@, 0x11u8),
        ("boss_name_title_card"@, 0x13u8),
    ]
}

/// The named print styles.
pub open spec fn spec_print_styles() -> Seq<(Seq<char>, u8)> {
    seq![
        ("typewriter_skippable"@, 0x00u8),
        ("forced_instant_skippable"@, 0x01u8),
        ("typewriter_no_skip"@, 0x02u8),
        ("forced_instant_first_box_fades"@, 0x03u8),
        ("typewriter_no_instant_tag_no_skip"@, 0x04u8),
        ("typewriter_slow_5x"@, 0x05u8),
        ("typewriter_skippable_alt"@, 0x06u8),
        ("typewriter_ui_emphasis"@, 0x07u8),
        ("forced_instant_fade_credits"@, 0x09u8),
    ]
}

/// The named box positions.
pub open spec fn spec_box_positions() -> Seq<(Seq<char>, u8)> {
    seq![
        ("bottom"@, 0x00u8),
        ("top"@, 0x01u8),
        ("center"@, 0x02u8),
        ("bottom_alt_mayor_messages"@, 0x03u8),
        ("bottom_alt_system_voiceless"@, 0x05u8),
    ]
}

fn box_styles() -> (res: Vec<(&'static str, u8)>)
    ensures
        table_view(res@) == spec_box_styles(),
{
    let v = vec![
        ("standard_dialogue", 0x00u8),
        ("no_background", 0x01u8),
        ("fullscreen_sign_forced_instant", 0x02u8),
        ("no_background_voiceless", 0x05u8),
        ("no_background_centered_credits", 0x07u8),
        ("standard_with_glow_effect", 0x08u8),
        ("get_item_box", 0x09u8),
        ("item_name_or_description", 0x0Bu8),
        ("header_top_left_area_name", 0x0Cu8),
        ("midna_dialogue_blue_text", 0x0Du8),
        ("animal_wolf_link_green_text", 0x0Eu8),
        ("instant_fade_in_non_modal", 0x0Fu8),
        ("system_message", 0x10u8),
        ("wolf_song_interface", 0x11u8),
        ("boss_name_title_card", 0x13u8),
    ];
    assert(table_view(v@) =~= spec_box_styles());
    v
}

fn print_styles() -> (res: Vec<(&'static str, u8)>)
    ensures
        table_view(res@) == spec_print_styles(),
{
    let v = vec![
        ("typewriter_skippable", 0x00u8),
        ("forced_instant_skippable", 0x01u8),
        ("typewriter_no_skip", 0x02u8),
        ("forced_instant_first_box_fades", 0x03u8),
        ("typewriter_no_instant_tag_no_skip", 0x04u8),
        ("typewriter_slow_5x", 0x05u8),
        ("typewriter_skippable_alt", 0x06u8),
        ("typewriter_ui_emphasis", 0x07u8),
        ("forced_instant_fade_credits", 0x09u8),
    ];
    assert(table_view(v@) =~= spec_print_styles());
    v
}

fn box_positions() -> (res: Vec<(&'static str, u8)>)
    ensures
        table_view(res@) == spec_box_positions(),
{
    let v = vec![
        ("bottom", 0x00u8),
        ("top", 0x01u8),
        ("center", 0x02u8),
        ("bottom_alt_mayor_messages", 0x03u8),
        ("bottom_alt_system_voiceless", 0x05u8),
    ];
    assert(table_view(v@) =~= spec_box_positions());
    v
}

/// The name of the first table entry with value `val`.
pub open spec fn spec_name_of(t: Seq<(Seq<char>, u8)>, val: u8) -> Option<Seq<char>>
    decreases t.len(),
{
    if t.len() == 0 {
        None
    } else if t[0].1 == val {
        Some(t[0].0)
    } else {
        spec_name_of(t.drop_first(), val)
    }
}

/// The value of the first table entry named `name`.
pub open spec fn spec_value_of(t: Seq<(Seq<char>, u8)>, name: Seq<char>) -> Option<u8>
    decreases t.len(),
{
    if t.len() == 0 {
        None
    } else if t[0].0 == name {
        Some(t[0].1)
    } else {
        spec_value_of(t.drop_first(), name)
    }
}

/// A mapped byte as JSON: its name where the table has one, else the
/// number.
pub open spec fn spec_decode_with_map(val: u8, t: Seq<(Seq<char>, u8)>) -> JsonModel {
    match spec_name_of(t, val) {
        Some(name) => JsonModel::Str(name),
        None => JsonModel::UInt(val as u64),
    }
}

/// A mapped field's JSON value as a byte: a name from the table, or a
/// non-negative integer (its low byte).
pub open spec fn spec_encode_from_map(v: JsonModel, t: Seq<(Seq<char>, u8)>) -> Result<u8, Seq<char>> {
    match v {
        JsonModel::Str(s) => match spec_value_of(t, s) {
            Some(b) => Ok(b),
            None => Err("Unknown value: "@ + s),
        },
        JsonModel::UInt(n) => Ok(n as u8),
        JsonModel::OtherNumber(_) => Err("Invalid number"@),
        _ => Err("Expected string or number"@),
    }
}

fn decode_with_map(val: u8, t: &[(&str, u8)]) -> (res: JsonValue)
    ensures
        res@ == spec_decode_with_map(val, table_view(t@)),
{
    let ghost tv = table_view(t@);
    assert(tv.skip(0) =~= tv);
    let mut i: usize = 0;
    while i < t.len()
        invariant
            i <= t@.len(),
            tv == table_view(t@),
            spec_name_of(tv, val) == spec_name_of(tv.skip(i as int), val),
        decreases t@.len() - i,
    {
        proof {
            assert(tv.skip(i as int).drop_first() =~= tv.skip(i + 1));
        }
        if t[i].1 == val {
            return JsonValue::Str(to_string(t[i].0));
        }
        i = i + 1;
    }
    JsonValue::UInt(val as u64)
}

fn value_of(t: &[(&str, u8)], name: &str) -> (res: Option<u8>)
    ensures
        res == spec_value_of(table_view(t@), name@),
{
    let ghost tv = table_view(t@);
    assert(tv.skip(0) =~= tv);
    let mut i: usize = 0;
    while i < t.len()
        invariant
            i <= t@.len(),
            tv == table_view(t@),
            spec_value_of(tv, name@) == spec_value_of(tv.skip(i as int), name@),
        decreases t@.len() - i,
    {
        proof {
            assert(tv.skip(i as int).drop_first() =~= tv.skip(i + 1));
        }
        if str_eq(t[i].0, name) {
            return Some(t[i].1);
        }
        i = i + 1;
    }
    None
}

fn encode_from_map(v: &JsonValue, t: &[(&str, u8)]) -> (res: Result<u8, String>)
    ensures
        match spec_encode_from_map(v@, table_view(t@)) {
            Ok(b) => res == Ok::<u8, String>(b),
            Err(e) => res matches Err(m) && m@ == e,
        },
{
    match v {
        JsonValue::Str(s) => match value_of(t, s.as_str()) {
            Some(b) => Ok(b),
            None => {
                let mut m = to_string("Unknown value: ");
                push_str(&mut m, s.as_str());
                Err(m)
            },
        },
        JsonValue::UInt(n) => Ok(*n as u8),
        JsonValue::OtherNumber(_) => Err(to_string("Invalid number")),
        _ => Err(to_string("Expected string or number")),
    }
}

/// A member added where `cond` holds.
pub open spec fn spec_push_if(e: Seq<(Seq<char>, JsonModel)>, cond: bool, key: Seq<char>, v: JsonModel) -> Seq<(Seq<char>, JsonModel)> {
    if cond {
        e.push((key, v))
    } else {
        e
    }
}

/// The members that decoding gives for 16 attribute bytes, in the order
/// they are written: each field that differs from its default.
pub open spec fn spec_decode_attributes(a: Seq<u8>) -> Seq<(Seq<char>, JsonModel)> {
    let e0 = Seq::<(Seq<char>, JsonModel)>::empty();
    let e1 = spec_push_if(e0, a[5] != 0, "box_style"@, spec_decode_with_map(a[5], spec_box_styles()));
    let e2 = spec_push_if(e1, a[6] != 0, "print_style"@, spec_decode_with_map(a[6], spec_print_styles()));
    let e3 = spec_push_if(
        e2,
        a[7] != 0,
        "box_position"@,
        spec_decode_with_map(a[7], spec_box_positions()),
    );
    let ev = a[2] * 256 + a[3];
    let e4 = spec_push_if(e3, ev != 0, "event_label_id"@, JsonModel::UInt(ev as u64));
    let e5 = spec_push_if(e4, a[4] != 0, "speaker"@, JsonModel::UInt(a[4] as u64));
    let e6 = spec_push_if(e5, a[8] != 0xFF, "item_id"@, JsonModel::UInt(a[8] as u64));
    let e7 = spec_push_if(e6, a[9] != 0, "line_arrange"@, JsonModel::UInt(a[9] as u64));
    let e8 = spec_push_if(e7, a[10] != 0, "sound_mood"@, JsonModel::UInt(a[10] as u64));
    let e9 = spec_push_if(e8, a[11] != 0, "camera_id"@, JsonModel::UInt(a[11] as u64));
    let e10 = spec_push_if(e9, a[12] != 0, "anim_base"@, JsonModel::UInt(a[12] as u64));
    let e11 = spec_push_if(e10, a[13] != 0, "anim_face"@, JsonModel::UInt(a[13] as u64));
    spec_push_if(e11, a[14] != 4, "flag"@, JsonModel::UInt(a[14] as u64))
}

fn push_member_if(
    entries: &mut Vec<(String, JsonValue)>,
    cond: bool,
    key: &str,
    v: JsonValue,
)
    ensures
        json_entries_view(final(entries)@) == spec_push_if(json_entries_view(old(entries)@), cond, key@, v@),
{
    if cond {
        entries.push((to_string(key), v));
        assert(json_entries_view(entries@) =~= json_entries_view(old(entries)@).push((key@, v@)));
    }
}

/// Decodes 16 attribute bytes into a JSON object that lists each field
/// differing from its default.
pub fn decode_attributes(attrs: &[u8]) -> (res: Result<JsonValue, String>)
    ensures
        attrs@.len() == 16 ==> (res matches Ok(v) && v@ == JsonModel::Object(
            spec_decode_attributes(attrs@),
        )),
        attrs@.len() != 16 ==> (res matches Err(m) && m@ == "Expected 16 attribute bytes, got "@
            + spec_decimal(attrs@.len() as nat)),
{
    if attrs.len() != ATTR_LEN {
        let mut m = to_string("Expected 16 attribute bytes, got ");
        let n = decimal_string(attrs.len() as u64);
        push_str(&mut m, n.as_str());
        return Err(m);
    }
    let boxes = box_styles();
    let prints = print_styles();
    let positions = box_positions();
    let mut e: Vec<(String, JsonValue)> = Vec::new();
    assert(json_entries_view(e@) =~= Seq::<(Seq<char>, JsonModel)>::empty());
    push_member_if(&mut e, attrs[5] != 0, "box_style", decode_with_map(attrs[5], boxes.as_slice()));
    push_member_if(&mut e, attrs[6] != 0, "print_style", decode_with_map(attrs[6], prints.as_slice()));
    push_member_if(
        &mut e,
        attrs[7] != 0,
        "box_position",
        decode_with_map(attrs[7], positions.as_slice()),
    );
    let event_label_id: u16 = (attrs[2] as u16) * 256 + (attrs[3] as u16);
    push_member_if(&mut e, event_label_id != 0, "event_label_id", JsonValue::UInt(event_label_id as u64));
    push_member_if(&mut e, attrs[4] != 0, "speaker", JsonValue::UInt(attrs[4] as u64));
    push_member_if(&mut e, attrs[8] != 0xFF, "item_id", JsonValue::UInt(attrs[8] as u64));
    push_member_if(&mut e, attrs[9] != 0, "line_arrange", JsonValue::UInt(attrs[9] as u64));
    push_member_if(&mut e, attrs[10] != 0, "sound_mood", JsonValue::UInt(attrs[10] as u64));
    push_member_if(&mut e, attrs[11] != 0, "camera_id", JsonValue::UInt(attrs[11] as u64));
    push_member_if(&mut e, attrs[12] != 0, "anim_base", JsonValue::UInt(attrs[12] as u64));
    push_member_if(&mut e, attrs[13] != 0, "anim_face", JsonValue::UInt(attrs[13] as u64));
    push_member_if(&mut e, attrs[14] != 4, "flag", JsonValue::UInt(attrs[14] as u64));
    let res = JsonValue::Object(e);
    assert(res@->Object_0 =~= json_entries_view(e@));
    Ok(res)
}

/// A plain numeric field: its low byte where it is a non-negative
/// integer, the default where it is missing.
pub open spec fn spec_get_u8(m: JsonModel, key: Seq<char>, default: u8) -> Result<u8, Seq<char>> {
    match spec_get(m, key) {
        Some(v) => match spec_as_u64(v) {
            Some(n) => Ok(n as u8),
            None => Err("Invalid numeric attribute field: "@ + key),
        },
        None => Ok(default),
    }
}

/// A mapped field: its byte from the table, the default where it is
/// missing.
pub open spec fn spec_get_mapped_u8(m: JsonModel, key: Seq<char>, t: Seq<(Seq<char>, u8)>, default: u8) -> Result<u8, Seq<char>> {
    match spec_get(m, key) {
        Some(v) => match spec_encode_from_map(v, t) {
            Ok(b) => Ok(b),
            Err(e) => Err("Invalid "@ + key + ": "@ + e),
        },
        None => Ok(default),
    }
}

/// The byte fields 4 to 14, in the order they are checked.
pub open spec fn spec_attr_fields(m: JsonModel) -> Seq<Result<u8, Seq<char>>> {
    seq![
        spec_get_u8(m, "speaker"@, 0),
        spec_get_mapped_u8(m, "box_style"@, spec_box_styles(), 0),
        spec_get_mapped_u8(m, "print_style"@, spec_print_styles(), 0),
        spec_get_mapped_u8(m, "box_position"@, spec_box_positions(), 0),
        spec_get_u8(m, "item_id"@, 0xFF),
        spec_get_u8(m, "line_arrange"@, 0),
        spec_get_u8(m, "sound_mood"@, 0),
        spec_get_u8(m, "camera_id"@, 0),
        spec_get_u8(m, "anim_base"@, 0),
        spec_get_u8(m, "anim_face"@, 0),
        spec_get_u8(m, "flag"@, 4),
    ]
}

/// The first error among some field results.
pub open spec fn spec_first_error(rs: Seq<Result<u8, Seq<char>>>) -> Option<Seq<char>>
    decreases rs.len(),
{
    if rs.len() == 0 {
        None
    } else {
        match rs[0] {
            Err(e) => Some(e),
            Ok(_) => spec_first_error(rs.drop_first()),
        }
    }
}

/// The event label id: the member's low 16 bits, 0 where it is missing or
/// not a non-negative integer.
pub open spec fn spec_event_label_id(m: JsonModel) -> u16 {
    match spec_get_u64(m, "event_label_id"@) {
        Some(n) => n as u16,
        None => 0,
    }
}

/// The 16 bytes that an attributes object encodes to, or the first field
/// that cannot be encoded.
pub open spec fn spec_encode_attributes(m: JsonModel) -> Result<Seq<u8>, Seq<char>> {
    if !(m is Object) {
        Err("Attributes must be a JSON object"@)
    } else {
        let rs = spec_attr_fields(m);
        match spec_first_error(rs) {
            Some(e) => Err(e),
            None => {
                let ev = spec_event_label_id(m);
                Ok(
                    seq![0u8, 0u8, (ev / 256) as u8, (ev % 256) as u8]
                        + Seq::new(11, |i: int| rs[i]->Ok_0)
                        + seq![0u8],
                )
            },
        }
    }
}

proof fn lemma_first_error_at(rs: Seq<Result<u8, Seq<char>>>, k: int)
    requires
        0 <= k < rs.len(),
        forall|j: int| 0 <= j < k ==> rs[j] is Ok,
        rs[k] is Err,
    ensures
        spec_first_error(rs) == Some(rs[k]->Err_0),
    decreases k,
{
    if k > 0 {
        assert forall|j: int| 0 <= j < k - 1 implies rs.drop_first()[j] is Ok by {
            assert(rs.drop_first()[j] == rs[j + 1]);
        }
        lemma_first_error_at(rs.drop_first(), k - 1);
    }
}

proof fn lemma_no_error(rs: Seq<Result<u8, Seq<char>>>)
    requires
        forall|j: int| 0 <= j < rs.len() ==> rs[j] is Ok,
    ensures
        spec_first_error(rs) is None,
    decreases rs.len(),
{
    if rs.len() > 0 {
        assert forall|j: int| 0 <= j < rs.len() - 1 implies rs.drop_first()[j] is Ok by {
            assert(rs.drop_first()[j] == rs[j + 1]);
        }
        lemma_no_error(rs.drop_first());
    }
}

fn get_u8(attr: &JsonValue, key: &str, default: u8) -> (res: Result<u8, String>)
    ensures
        match spec_get_u8(attr@, key@, default) {
            Ok(b) => res == Ok::<u8, String>(b),
            Err(e) => res matches Err(m) && m@ == e,
        },
{
    match attr.get(key) {
        Some(v) => match v.as_u64() {
            Some(n) => Ok(n as u8),
            None => {
                let mut m = to_string("Invalid numeric attribute field: ");
                push_str(&mut m, key);
                Err(m)
            },
        },
        None => Ok(default),
    }
}

fn get_mapped_u8(attr: &JsonValue, key: &str, t: &[(&str, u8)], default: u8) -> (res: Result<u8, String>)
    ensures
        match spec_get_mapped_u8(attr@, key@, table_view(t@), default) {
            Ok(b) => res == Ok::<u8, String>(b),
            Err(e) => res matches Err(m) && m@ == e,
        },
{
    match attr.get(key) {
        Some(v) => match encode_from_map(v, t) {
            Ok(b) => Ok(b),
            Err(e) => {
                let mut m = to_string("Invalid ");
                push_str(&mut m, key);
                push_str(&mut m, ": ");
                push_str(&mut m, e.as_str());
                Err(m)
            },
        },
        None => Ok(default),
    }
}

/// Encodes an attributes object into 16 bytes; bytes 0, 1 and 15 are 0.
pub fn encode_attributes(attr: &JsonValue) -> (res: Result<Vec<u8>, String>)
    ensures
        match spec_encode_attributes(attr@) {
            Ok(b) => res matches Ok(v) && v@ == b,
            Err(e) => res matches Err(m) && m@ == e,
        },
{
    if !attr.is_object() {
        return Err(to_string("Attributes must be a JSON object"));
    }
    let ghost rs = spec_attr_fields(attr@);
    let event_label_id: u16 = match attr.get("event_label_id") {
        Some(v) => match v.as_u64() {
            Some(n) => n as u16,
            None => 0,
        },
        None => 0,
    };
    let boxes = box_styles();
    let prints = print_styles();
    let positions = box_positions();
    let speaker = match get_u8(attr, "speaker", 0) {
        Ok(b) => b,
        Err(m) => {
            proof {
                assert(rs[0] is Err);
                lemma_first_error_at(rs, 0);
            }
            return Err(m);
        },
    };
    assert(rs[0] == Ok::<u8, Seq<char>>(speaker));
    let box_style = match get_mapped_u8(attr, "box_style", boxes.as_slice(), 0) {
        Ok(b) => b,
        Err(m) => {
            proof {
                assert(rs[0] is Ok);
                assert(rs[1] is Err);
                lemma_first_error_at(rs, 1);
            }
            return Err(m);
        },
    };
    assert(rs[1] == Ok::<u8, Seq<char>>(box_style));
    let print_style = match get_mapped_u8(attr, "print_style", prints.as_slice(), 0) {
        Ok(b) => b,
        Err(m) => {
            proof {
                assert(rs[0] is Ok);
                assert(rs[1] is Ok);
                assert(rs[2] is Err);
                lemma_first_error_at(rs, 2);
            }
            return Err(m);
        },
    };
    assert(rs[2] == Ok::<u8, Seq<char>>(print_style));
    let box_position = match get_mapped_u8(attr, "box_position", positions.as_slice(), 0) {
        Ok(b) => b,
        Err(m) => {
            proof {
                assert(rs[0] is Ok);
                assert(rs[1] is Ok);
                assert(rs[2] is Ok);
                assert(rs[3] is Err);
                lemma_first_error_at(rs, 3);
            }
            return Err(m);
        },
    };
    assert(rs[3] == Ok::<u8, Seq<char>>(box_position));
    let item_id = match get_u8(attr, "item_id", 0xFF) {
        Ok(b) => b,
        Err(m) => {
            proof {
                assert(rs[0] is Ok);
                assert(rs[1] is Ok);
                assert(rs[2] is Ok);
                assert(rs[3] is Ok);
                assert(rs[4] is Err);
                lemma_first_error_at(rs, 4);
            }
            return Err(m);
        },
    };
    assert(rs[4] == Ok::<u8, Seq<char>>(item_id));
    let line_arrange = match get_u8(attr, "line_arrange", 0) {
        Ok(b) => b,
        Err(m) => {
            proof {
                assert(rs[0] is Ok);
                assert(rs[1] is Ok);
                assert(rs[2] is Ok);
                assert(rs[3] is Ok);
                assert(rs[4] is Ok);
                assert(rs[5] is Err);
                lemma_first_error_at(rs, 5);
            }
            return Err(m);
        },
    };
    assert(rs[5] == Ok::<u8, Seq<char>>(line_arrange));
    let sound_mood = match get_u8(attr, "sound_mood", 0) {
        Ok(b) => b,
        Err(m) => {
            proof {
                assert(rs[0] is Ok);
                assert(rs[1] is Ok);
                assert(rs[2] is Ok);
                assert(rs[3] is Ok);
                assert(rs[4] is Ok);
                assert(rs[5] is Ok);
                assert(rs[6] is Err);
                lemma_first_error_at(rs, 6);
            }
            return Err(m);
        },
    };
    assert(rs[6] == Ok::<u8, Seq<char>>(sound_mood));
    let camera_id = match get_u8(attr, "camera_id", 0) {
        Ok(b) => b,
        Err(m) => {
            proof {
                assert(rs[0] is Ok);
                assert(rs[1] is Ok);
                assert(rs[2] is Ok);
                assert(rs[3] is Ok);
                assert(rs[4] is Ok);
                assert(rs[5] is Ok);
                assert(rs[6] is Ok);
                assert(rs[7] is Err);
                lemma_first_error_at(rs, 7);
            }
            return Err(m);
        },
    };
    assert(rs[7] == Ok::<u8, Seq<char>>(camera_id));
    let anim_base = match get_u8(attr, "anim_base", 0) {
        Ok(b) => b,
        Err(m) => {
            proof {
                assert(rs[0] is Ok);
                assert(rs[1] is Ok);
                assert(rs[2] is Ok);
                assert(rs[3] is Ok);
                assert(rs[4] is Ok);
                assert(rs[5] is Ok);
                assert(rs[6] is Ok);
                assert(rs[7] is Ok);
                assert(rs[8] is Err);
                lemma_first_error_at(rs, 8);
            }
            return Err(m);
        },
    };
    assert(rs[8] == Ok::<u8, Seq<char>>(anim_base));
    let anim_face = match get_u8(attr, "anim_face", 0) {
        Ok(b) => b,
        Err(m) => {
            proof {
                assert(rs[0] is Ok);
                assert(rs[1] is Ok);
                assert(rs[2] is Ok);
                assert(rs[3] is Ok);
                assert(rs[4] is Ok);
                assert(rs[5] is Ok);
                assert(rs[6] is Ok);
                assert(rs[7] is Ok);
                assert(rs[8] is Ok);
                assert(rs[9] is Err);
                lemma_first_error_at(rs, 9);
            }
            return Err(m);
        },
    };
    assert(rs[9] == Ok::<u8, Seq<char>>(anim_face));
    let flag = match get_u8(attr, "flag", 4) {
        Ok(b) => b,
        Err(m) => {
            proof {
                assert(rs[0] is Ok);
                assert(rs[1] is Ok);
                assert(rs[2] is Ok);
                assert(rs[3] is Ok);
                assert(rs[4] is Ok);
                assert(rs[5] is Ok);
                assert(rs[6] is Ok);
                assert(rs[7] is Ok);
                assert(rs[8] is Ok);
                assert(rs[9] is Ok);
                assert(rs[10] is Err);
                lemma_first_error_at(rs, 10);
            }
            return Err(m);
        },
    };
    assert(rs[10] == Ok::<u8, Seq<char>>(flag));
    let out: Vec<u8> = vec![
        0u8,
        0u8,
        (event_label_id / 256) as u8,
        (event_label_id % 256) as u8,
        speaker,
        box_style,
        print_style,
        box_position,
        item_id,
        line_arrange,
        sound_mood,
        camera_id,
        anim_base,
        anim_face,
        flag,
        0u8,
    ];
    proof {
        lemma_no_error(rs);
        let ev = spec_event_label_id(attr@);
        assert(event_label_id == ev);
        assert(out@ =~= seq![0u8, 0u8, (ev / 256) as u8, (ev % 256) as u8] + Seq::new(
            11,
            |i: int| rs[i]->Ok_0,
        ) + seq![0u8]);
    }
    Ok(out)
}


/// Looking a key up after adding a member: an earlier member with that key
/// still wins.
proof fn lemma_get_push(e: Seq<(Seq<char>, JsonModel)>, k: Seq<char>, v: JsonModel, key: Seq<char>)
    ensures
        crate::json::spec_entries_get(e.push((k, v)), key) == match crate::json::spec_entries_get(e, key) {
            Some(x) => Some(x),
            None => if k == key {
                Some(v)
            } else {
                None
            },
        },
    decreases e.len(),
{
    let f = e.push((k, v));
    if e.len() > 0 {
        assert(f[0] == e[0]);
        assert(f.drop_first() =~= e.drop_first().push((k, v)));
        lemma_get_push(e.drop_first(), k, v, key);
        if e[0].0 != key {
            assert(crate::json::spec_entries_get(f, key) == crate::json::spec_entries_get(f.drop_first(), key));
            assert(crate::json::spec_entries_get(e, key) == crate::json::spec_entries_get(e.drop_first(), key));
        }
    } else {
        assert(f[0] == (k, v));
        assert(f.drop_first() =~= Seq::<(Seq<char>, JsonModel)>::empty());
        assert(crate::json::spec_entries_get(f.drop_first(), key) is None);
        assert(crate::json::spec_entries_get(e, key) is None);
    }
}

broadcast proof fn lemma_get_push_if(e: Seq<(Seq<char>, JsonModel)>, cond: bool, k: Seq<char>, v: JsonModel, key: Seq<char>)
    ensures
        #[trigger] crate::json::spec_entries_get(spec_push_if(e, cond, k, v), key) == match crate::json::spec_entries_get(e, key) {
            Some(x) => Some(x),
            None => if cond && k == key {
                Some(v)
            } else {
                None
            },
        },
{
    if cond {
        lemma_get_push(e, k, v, key);
    }
}

/// The names of a table are all different.
pub open spec fn spec_names_distinct(t: Seq<(Seq<char>, u8)>) -> bool {
    forall|i: int, j: int| 0 <= i < j < t.len() ==> t[i].0 != t[j].0
}

proof fn lemma_name_of_member(t: Seq<(Seq<char>, u8)>, val: u8)
    ensures
        spec_name_of(t, val) matches Some(nm) ==> exists|j: int| 0 <= j < t.len() && t[j].0 == nm,
    decreases t.len(),
{
    if t.len() > 0 && t[0].1 != val {
        lemma_name_of_member(t.drop_first(), val);
        if let Some(nm) = spec_name_of(t.drop_first(), val) {
            let j = choose|j: int| 0 <= j < t.drop_first().len() && t.drop_first()[j].0 == nm;
            assert(t[j + 1].0 == nm);
        }
    }
}

/// A mapped byte decoded and encoded again is itself.
proof fn lemma_map_roundtrip(t: Seq<(Seq<char>, u8)>, val: u8)
    requires
        spec_names_distinct(t),
    ensures
        spec_encode_from_map(spec_decode_with_map(val, t), t) == Ok::<u8, Seq<char>>(val),
    decreases t.len(),
{
    if t.len() > 0 && t[0].1 != val {
        let rest = t.drop_first();
        assert(spec_names_distinct(rest)) by {
            assert forall|i: int, j: int| 0 <= i < j < rest.len() implies rest[i].0 != rest[j].0 by {
                assert(t[i + 1].0 != t[j + 1].0);
            }
        }
        lemma_map_roundtrip(rest, val);
        lemma_name_of_member(rest, val);
        if let Some(nm) = spec_name_of(rest, val) {
            let j = choose|j: int| 0 <= j < rest.len() && rest[j].0 == nm;
            assert(t[0].0 != t[j + 1].0);
        }
    }
}

proof fn lemma_tables_distinct()
    ensures
        spec_names_distinct(spec_box_styles()),
        spec_names_distinct(spec_print_styles()),
        spec_names_distinct(spec_box_positions()),
{
    reveal_strlit("standard_dialogue");
    reveal_strlit("no_background");
    reveal_strlit("fullscreen_sign_forced_instant");
    reveal_strlit("no_background_voiceless");
    reveal_strlit("no_background_centered_credits");
    reveal_strlit("standard_with_glow_effect");
    reveal_strlit("get_item_box");
    reveal_strlit("item_name_or_description");
    reveal_strlit("header_top_left_area_name");
    reveal_strlit("midna_dialogue_blue_text");
    reveal_strlit("animal_wolf_link_green_text");
    reveal_strlit("instant_fade_in_non_modal");
    reveal_strlit("system_message");
    reveal_strlit("wolf_song_interface");
    reveal_strlit("boss_name_title_card");
    reveal_strlit("typewriter_skippable");
    reveal_strlit("forced_instant_skippable");
    reveal_strlit("typewriter_no_skip");
    reveal_strlit("forced_instant_first_box_fades");
    reveal_strlit("typewriter_no_instant_tag_no_skip");
    reveal_strlit("typewriter_slow_5x");
    reveal_strlit("typewriter_skippable_alt");
    reveal_strlit("typewriter_ui_emphasis");
    reveal_strlit("forced_instant_fade_credits");
    reveal_strlit("bottom");
    reveal_strlit("top");
    reveal_strlit("center");
    reveal_strlit("bottom_alt_mayor_messages");
    reveal_strlit("bottom_alt_system_voiceless");
    let b = spec_box_styles();
    assert forall|i: int, j: int| 0 <= i < j < b.len() implies b[i].0 != b[j].0 by {
        if b[i].0 == b[j].0 {
            assert(b[i].0.len() == b[j].0.len());
            assert(b[i].0[0] == b[j].0[0]);
            assert(b[i].0[b[i].0.len() - 1] == b[j].0[b[j].0.len() - 1]);
            assert(b[i].0[3] == b[j].0[3]);
        }
    }
    let p = spec_print_styles();
    assert forall|i: int, j: int| 0 <= i < j < p.len() implies p[i].0 != p[j].0 by {
        if p[i].0 == p[j].0 {
            assert(p[i].0.len() == p[j].0.len());
            assert(p[i].0[0] == p[j].0[0]);
            assert(p[i].0[p[i].0.len() - 1] == p[j].0[p[j].0.len() - 1]);
            assert(p[i].0[15] == p[j].0[15]);
        }
    }
    let q = spec_box_positions();
    assert forall|i: int, j: int| 0 <= i < j < q.len() implies q[i].0 != q[j].0 by {
        if q[i].0 == q[j].0 {
            assert(q[i].0.len() == q[j].0.len());
            assert(q[i].0[0] == q[j].0[0]);
            assert(q[i].0[q[i].0.len() - 1] == q[j].0[q[j].0.len() - 1]);
        }
    }
}

/// The attribute member names: their lengths, and the names of equal
/// length told apart.
proof fn lemma_attribute_keys()
    ensures
        "box_style"@.len() == 9,
        "print_style"@.len() == 11,
        "box_position"@.len() == 12,
        "event_label_id"@.len() == 14,
        "speaker"@.len() == 7,
        "item_id"@.len() == 7,
        "line_arrange"@.len() == 12,
        "sound_mood"@.len() == 10,
        "camera_id"@.len() == 9,
        "anim_base"@.len() == 9,
        "anim_face"@.len() == 9,
        "flag"@.len() == 4,
        "speaker"@ != "item_id"@,
        "box_position"@ != "line_arrange"@,
        "box_style"@ != "camera_id"@,
        "box_style"@ != "anim_base"@,
        "box_style"@ != "anim_face"@,
        "camera_id"@ != "anim_base"@,
        "camera_id"@ != "anim_face"@,
        "anim_base"@ != "anim_face"@,
{
    reveal_strlit("box_style");
    reveal_strlit("print_style");
    reveal_strlit("box_position");
    reveal_strlit("event_label_id");
    reveal_strlit("speaker");
    reveal_strlit("item_id");
    reveal_strlit("line_arrange");
    reveal_strlit("sound_mood");
    reveal_strlit("camera_id");
    reveal_strlit("anim_base");
    reveal_strlit("anim_face");
    reveal_strlit("flag");
    assert("speaker"@[0] != "item_id"@[0]);
    assert("box_position"@[0] != "line_arrange"@[0]);
    assert("box_style"@[0] != "camera_id"@[0]);
    assert("box_style"@[0] != "anim_base"@[0]);
    assert("box_style"@[0] != "anim_face"@[0]);
    assert("camera_id"@[0] != "anim_base"@[0]);
    assert("camera_id"@[0] != "anim_face"@[0]);
    assert("anim_base"@[5] != "anim_face"@[5]);
}

/// Law: attribute bytes decoded into their JSON object and encoded again
/// are the bytes themselves, where bytes 0, 1 and 15, which the object
/// does not carry, are zero.
#[verifier::spinoff_prover]
#[verifier::rlimit(100)]
pub proof fn lemma_attributes_roundtrip(a: Seq<u8>)
    requires
        a.len() == 16,
        a[0] == 0,
        a[1] == 0,
        a[15] == 0,
    ensures
        spec_encode_attributes(JsonModel::Object(spec_decode_attributes(a))) == Ok::<Seq<u8>, Seq<char>>(a),
{
    broadcast use lemma_get_push_if;
    lemma_tables_distinct();
    lemma_map_roundtrip(spec_box_styles(), a[5]);
    lemma_map_roundtrip(spec_print_styles(), a[6]);
    lemma_map_roundtrip(spec_box_positions(), a[7]);
    lemma_attribute_keys();
    let m = JsonModel::Object(spec_decode_attributes(a));
    let rs = spec_attr_fields(m);
    let ev = a[2] * 256 + a[3];
    assert(spec_get(m, "event_label_id"@) == if ev != 0 {
        Some(JsonModel::UInt(ev as u64))
    } else {
        None::<JsonModel>
    });
    assert(spec_get(m, "speaker"@) == if a[4] != 0 {
        Some(JsonModel::UInt(a[4] as u64))
    } else {
        None::<JsonModel>
    });
    assert(rs[0] == Ok::<u8, Seq<char>>(a[4]));
    assert(rs[1] == Ok::<u8, Seq<char>>(a[5]));
    assert(rs[2] == Ok::<u8, Seq<char>>(a[6]));
    assert(rs[3] == Ok::<u8, Seq<char>>(a[7]));
    assert(rs[4] == Ok::<u8, Seq<char>>(a[8]));
    assert(rs[5] == Ok::<u8, Seq<char>>(a[9]));
    assert(rs[6] == Ok::<u8, Seq<char>>(a[10]));
    assert(rs[7] == Ok::<u8, Seq<char>>(a[11]));
    assert(rs[8] == Ok::<u8, Seq<char>>(a[12]));
    assert(rs[9] == Ok::<u8, Seq<char>>(a[13]));
    assert(rs[10] == Ok::<u8, Seq<char>>(a[14]));
    lemma_no_error(rs);
    assert(spec_event_label_id(m) == ev);
    assert((ev / 256) as u8 == a[2]);
    assert((ev % 256) as u8 == a[3]);
    let out = seq![0u8, 0u8, (spec_event_label_id(m) / 256) as u8, (spec_event_label_id(m) % 256) as u8]
        + Seq::new(11, |i: int| rs[i]->Ok_0) + seq![0u8];
    assert(out =~= a);
}

} // verus!
