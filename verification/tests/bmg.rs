use tpmt::formats::bmg::attributes::{decode_attributes, encode_attributes};
use tpmt::formats::bmg::from_json::json_to_bmg;
use tpmt::formats::bmg::parser::{Bmg, BmgMessage, BmgSection};
use tpmt::formats::bmg::to_json::bmg_to_json;
use tpmt::json::JsonValue;

fn sample_bmg() -> Bmg {
    Bmg {
        encoding: "shift-jis".to_string(),
        messages: vec![BmgMessage {
            id: (1, 0),
            attributes: vec![0u8; 16],
            text: vec![b"Hello".to_vec()],
        }],
        attribute_length: 20,
        additional_sections: vec![],
    }
}

// Verifies a parsed BMG can be serialized and parsed again without losing messages.
#[test]
fn bmg_roundtrip_preserves_message_count() {
    assert_eq!(Bmg::parse(&sample_bmg().to_bytes().unwrap()).unwrap().messages.len(), 1);
}

// Verifies invalid magic is rejected before any section parsing happens.
#[test]
fn bmg_parse_rejects_invalid_magic() {
    assert!(Bmg::parse(b"bad").is_err());
}

#[test]
fn bmg_roundtrip_keeps_every_field() {
    let bmg = Bmg {
        encoding: "utf-16be".to_string(),
        messages: vec![
            BmgMessage {
                id: (0x123456, 7),
                attributes: vec![1, 2, 3, 4],
                text: vec![b"Hi ".to_vec(), vec![0x1a, 0x05, 0x00, 0x01, 0x02], b"there".to_vec()],
            },
            BmgMessage { id: (2, 1), attributes: vec![9, 9, 9, 9], text: vec![vec![]] },
        ],
        attribute_length: 8,
        additional_sections: vec![BmgSection { magic: *b"FLW1", data: vec![0xaa, 0xbb] }],
    };
    let parsed = Bmg::parse(&bmg.to_bytes().unwrap()).unwrap();
    assert_eq!(parsed.encoding, "utf-16be");
    assert_eq!(parsed.attribute_length, 8);
    assert_eq!(parsed.messages.len(), 2);
    assert_eq!(parsed.messages[0].id, (0x123456, 7));
    assert_eq!(parsed.messages[0].attributes, vec![1, 2, 3, 4]);
    assert_eq!(parsed.messages[0].text, bmg.messages[0].text);
    assert_eq!(parsed.messages[1].id, (2, 1));
    assert_eq!(parsed.messages[1].text, vec![Vec::<u8>::new()]);
    assert_eq!(parsed.additional_sections.len(), 1);
    assert_eq!(&parsed.additional_sections[0].magic, b"FLW1");
    assert_eq!(parsed.additional_sections[0].data, vec![0xaa, 0xbb]);
}

#[test]
fn bmg_writes_header_and_section_layout() {
    let bytes = sample_bmg().to_bytes().unwrap();
    assert_eq!(&bytes[0..8], b"MESGbmg1");
    assert_eq!(u32::from_be_bytes([bytes[8], bytes[9], bytes[10], bytes[11]]) as usize, bytes.len());
    assert_eq!(u32::from_be_bytes([bytes[12], bytes[13], bytes[14], bytes[15]]), 3);
    assert_eq!(u32::from_be_bytes([bytes[16], bytes[17], bytes[18], bytes[19]]), 0x0300_0000);
    assert_eq!(&bytes[32..36], b"INF1");
}

#[test]
fn bmg_latin1_is_written_as_windows_1252() {
    let mut bmg = sample_bmg();
    bmg.encoding = "latin-1".to_string();
    let parsed = Bmg::parse(&bmg.to_bytes().unwrap()).unwrap();
    assert_eq!(parsed.encoding, "windows-1252");
}

#[test]
fn bmg_parse_errors_name_the_failing_check() {
    assert_eq!(Bmg::parse(b"bad").err(), Some("BMG data too short".to_string()));
    let mut data = vec![0u8; 32];
    assert_eq!(Bmg::parse(&data).err(), Some("Invalid BMG magic".to_string()));
    data[0..8].copy_from_slice(b"MESGbmg1");
    assert_eq!(Bmg::parse(&data).err(), Some("BMG must have at least 3 sections".to_string()));
    data[15] = 1;
    assert_eq!(Bmg::parse(&data).err(), Some("Section header out of bounds".to_string()));
}

#[test]
fn bmg_parse_reports_missing_sections() {
    let mut data = vec![0u8; 32];
    data[0..8].copy_from_slice(b"MESGbmg1");
    data[15] = 3;
    for _ in 0..3 {
        data.extend_from_slice(b"ABCD");
        data.extend_from_slice(&8u32.to_be_bytes());
    }
    assert_eq!(Bmg::parse(&data).err(), Some("Missing INF1 section".to_string()));
}

#[test]
fn bmg_parse_rejects_truncated_escape() {
    let mut bmg = sample_bmg();
    bmg.messages[0].text = vec![vec![0x1a]];
    let bytes = bmg.to_bytes().unwrap();
    assert_eq!(Bmg::parse(&bytes).err(), Some("Escape data truncated".to_string()));
}

fn obj(members: Vec<(&str, JsonValue)>) -> JsonValue {
    JsonValue::Object(members.into_iter().map(|(k, v)| (k.to_string(), v)).collect())
}

fn s(text: &str) -> JsonValue {
    JsonValue::Str(text.to_string())
}

fn item(v: &JsonValue, i: usize) -> &JsonValue {
    &v.as_array().expect("array")[i]
}

// Verifies default attribute bytes still decode into the JSON fields the parser preserves.
#[test]
fn decode_attributes_preserves_default_item_fields() {
    let v = decode_attributes(&[0u8; 16]).unwrap();
    assert_eq!(v.get("item_id").and_then(|x| x.as_u64()), Some(0));
}

// Verifies named attribute values decode to the documented human-readable labels.
#[test]
fn decode_attributes_maps_named_values() {
    let mut attrs = [0u8; 16];
    attrs[0x05] = 0x0D;
    let v = decode_attributes(&attrs).unwrap();
    assert_eq!(v.get("box_style").and_then(|x| x.as_str()), Some("midna_dialogue_blue_text"));
}

// Verifies encoding a named attribute writes the correct byte value back out.
#[test]
fn encode_attributes_writes_named_values() {
    let attr = obj(vec![("box_style", s("boss_name_title_card"))]);
    assert_eq!(encode_attributes(&attr).unwrap()[0x05], 0x13);
}

// Verifies invalid attribute names fail instead of silently falling back.
#[test]
fn encode_attributes_rejects_unknown_named_values() {
    assert!(encode_attributes(&obj(vec![("box_style", s("not_real"))])).is_err());
}

// Verifies non-object attributes are rejected because the schema is field-based.
#[test]
fn encode_attributes_rejects_non_object_input() {
    assert!(encode_attributes(&JsonValue::Null).is_err());
}

#[test]
fn decode_attributes_rejects_wrong_length() {
    assert_eq!(
        decode_attributes(&[0u8; 4]).err(),
        Some("Expected 16 attribute bytes, got 4".to_string())
    );
}

#[test]
fn attributes_roundtrip_through_json() {
    let mut attrs = [0u8; 16];
    attrs[0x05] = 0x13;
    attrs[0x08] = 0x2A;
    let decoded = decode_attributes(&attrs).unwrap();
    assert_eq!(encode_attributes(&decoded).unwrap(), attrs.to_vec());
}

fn single_message_json(count: u64, id: &str, attributes: JsonValue, text: &str) -> JsonValue {
    JsonValue::Array(vec![
        obj(vec![("message_count", JsonValue::UInt(count))]),
        obj(vec![
            ("ID", s(id)),
            ("attributes", attributes),
            ("text", JsonValue::Array(vec![s(text)])),
        ]),
    ])
}

// Verifies a single JSON message compiles into one BMG message.
#[test]
fn json_to_bmg_parses_a_single_message() {
    let json = single_message_json(1, "1, 0", obj(vec![("box_style", s("standard_dialogue"))]), "Hello");
    let bmg = json_to_bmg(&json, "shift-jis").unwrap();
    assert_eq!(bmg.messages.len(), 1);
    assert_eq!(bmg.messages[0].id, (1, 0));
    assert_eq!(bmg.messages[0].text, vec![b"Hello".to_vec()]);
}

// Verifies consolidated extra sections survive JSON-to-BMG conversion.
#[test]
fn json_to_bmg_preserves_section_data() {
    let json = JsonValue::Array(vec![
        obj(vec![("message_count", JsonValue::UInt(0))]),
        obj(vec![("Section", s("ABCD")), ("Data", s("0a0b"))]),
    ]);
    let bmg = json_to_bmg(&json, "shift-jis").unwrap();
    assert_eq!(bmg.additional_sections.len(), 1);
    assert_eq!(&bmg.additional_sections[0].magic, b"ABCD");
    assert_eq!(bmg.additional_sections[0].data, vec![0x0a, 0x0b]);
}

// Verifies message_count mismatches are reported instead of being ignored.
#[test]
fn json_to_bmg_rejects_message_count_mismatch() {
    let json = single_message_json(2, "1, 0", s("00000000000000000000000000000000"), "Hello");
    assert!(json_to_bmg(&json, "shift-jis").is_err());
}

// Verifies malformed IDs fail fast so message coordinates stay unambiguous.
#[test]
fn json_to_bmg_rejects_invalid_id_format() {
    let json = single_message_json(1, "1", s("00000000000000000000000000000000"), "");
    assert!(json_to_bmg(&json, "shift-jis").is_err());
}

#[test]
fn json_to_bmg_rejects_non_array_input() {
    assert!(json_to_bmg(&JsonValue::Null, "shift-jis").is_err());
}

#[test]
fn json_to_bmg_splits_inline_escapes() {
    let json = single_message_json(1, "3, 2", s("00000000000000000000000000000000"), "A{1a0200}B");
    let bmg = json_to_bmg(&json, "windows-1252").unwrap();
    assert_eq!(bmg.messages[0].id, (3, 2));
    assert_eq!(bmg.messages[0].text, vec![b"A".to_vec(), vec![0x1a, 0x02, 0x00], b"B".to_vec()]);
}

// Verifies BMG messages serialize back into the documented JSON array shape.
#[test]
fn bmg_to_json_emits_a_message_array() {
    let v = bmg_to_json(&sample_bmg()).unwrap();
    assert_eq!(item(&v, 1).get("ID").and_then(|x| x.as_str()), Some("1, 0"));
    assert_eq!(item(&v, 0).get("message_count").and_then(|x| x.as_u64()), Some(1));
}

// Verifies escape sequences remain inline as hex braces during export.
#[test]
fn bmg_to_json_formats_escape_sequences_inline() {
    let bmg = Bmg {
        encoding: "shift-jis".to_string(),
        messages: vec![BmgMessage {
            id: (1, 0),
            attributes: vec![0u8; 16],
            text: vec![vec![0x1A, 0x02, 0x00]],
        }],
        attribute_length: 20,
        additional_sections: vec![],
    };
    let v = bmg_to_json(&bmg).unwrap();
    let text = item(&v, 1).get("text").unwrap();
    assert_eq!(item(text, 0).as_str(), Some("{1a0200}"));
}

// Verifies the alternate single-byte decoder keeps legacy text readable.
#[test]
fn bmg_to_json_decodes_windows_1252_text() {
    let bmg = Bmg {
        encoding: "windows-1252".to_string(),
        messages: vec![BmgMessage {
            id: (1, 0),
            attributes: vec![0u8; 16],
            text: vec![vec![0xE9]],
        }],
        attribute_length: 20,
        additional_sections: vec![],
    };
    let v = bmg_to_json(&bmg).unwrap();
    let text = item(&v, 1).get("text").unwrap();
    assert_eq!(item(text, 0).as_str(), Some("é"));
}

#[test]
fn bmg_json_roundtrip_restores_messages_and_sections() {
    let bmg = Bmg {
        encoding: "shift-jis".to_string(),
        messages: vec![BmgMessage {
            id: (5, 1),
            attributes: {
                let mut a = vec![0u8; 16];
                a[0] = 5;
                a[1] = 1;
                a[5] = 0x0D;
                a
            },
            text: vec![b"Hi ".to_vec(), vec![0x1a, 0x05, 0x00, 0x01, 0x02], b"there".to_vec()],
        }],
        attribute_length: 20,
        additional_sections: vec![BmgSection { magic: *b"FLW1", data: vec![0xaa, 0xbb] }],
    };
    let json = bmg_to_json(&bmg).unwrap();
    let back = json_to_bmg(&json, "shift-jis").unwrap();
    assert_eq!(back.messages.len(), 1);
    assert_eq!(back.messages[0].id, (5, 1));
    assert_eq!(back.messages[0].attributes, bmg.messages[0].attributes);
    assert_eq!(back.messages[0].text, bmg.messages[0].text);
    assert_eq!(back.attribute_length, 20);
    assert_eq!(&back.additional_sections[0].magic, b"FLW1");
    assert_eq!(back.additional_sections[0].data, vec![0xaa, 0xbb]);
}

#[test]
fn bmg_to_json_writes_attributes_as_fields() {
    let mut bmg = sample_bmg();
    bmg.messages[0].attributes[5] = 0x0D;
    bmg.messages[0].attributes[8] = 0xFF;
    bmg.messages[0].attributes[14] = 4;
    let v = bmg_to_json(&bmg).unwrap();
    let meta = item(&v, 0);
    match meta {
        JsonValue::Object(members) => assert_eq!(members.len(), 1),
        _ => panic!("metadata is not an object"),
    }
    assert!(meta.get("Attribute Length").is_none());
    let attrs = item(&v, 1).get("attributes").unwrap();
    assert_eq!(attrs.get("box_style").and_then(|x| x.as_str()), Some("midna_dialogue_blue_text"));
    match attrs {
        JsonValue::Object(members) => assert_eq!(members.len(), 1),
        _ => panic!("attributes are not an object"),
    }
}

#[test]
fn bmg_to_json_lists_non_default_fields() {
    let v = bmg_to_json(&sample_bmg()).unwrap();
    let attrs = item(&v, 1).get("attributes").unwrap();
    assert_eq!(attrs.get("item_id").and_then(|x| x.as_u64()), Some(0));
    assert_eq!(attrs.get("flag").and_then(|x| x.as_u64()), Some(0));
    assert!(attrs.get("box_style").is_none());
}

#[test]
fn bmg_to_json_rejects_attributes_of_the_wrong_length() {
    let mut bmg = sample_bmg();
    bmg.messages[0].attributes = vec![0u8; 4];
    assert_eq!(bmg_to_json(&bmg).err(), Some("Expected 16 attribute bytes, got 4".to_string()));
}

#[test]
fn json_to_bmg_keeps_escaped_braces_literal() {
    let json = single_message_json(1, "1, 0", s("00000000000000000000000000000000"), r"a\{b\}");
    let bmg = json_to_bmg(&json, "shift-jis").unwrap();
    assert_eq!(bmg.messages[0].text.concat(), b"a{b}".to_vec());
}

#[test]
fn bmg_json_roundtrip_keeps_braces_in_text() {
    let mut bmg = sample_bmg();
    bmg.messages[0].attributes[0] = 1;
    bmg.messages[0].text = vec![b"x{y}z".to_vec()];
    let json = bmg_to_json(&bmg).unwrap();
    let text = item(v_text(&json), 0).as_str().map(|t| t.to_string());
    assert_eq!(text, Some(r"x\{y\}z".to_string()));
    let back = json_to_bmg(&json, "shift-jis").unwrap();
    assert_eq!(back.messages[0].text.concat(), b"x{y}z".to_vec());
}

fn v_text(json: &JsonValue) -> &JsonValue {
    item(json, 1).get("text").unwrap()
}

#[test]
fn encoding_decoded_attributes_gives_the_bytes_back() {
    let attrs: [u8; 16] = [0, 0, 0x12, 0x34, 3, 9, 2, 4, 0x2A, 1, 2, 3, 4, 5, 7, 0];
    let decoded = decode_attributes(&attrs).unwrap();
    assert_eq!(decoded.get("event_label_id").and_then(|x| x.as_u64()), Some(0x1234));
    assert_eq!(decoded.get("box_position").and_then(|x| x.as_u64()), Some(4));
    assert_eq!(encode_attributes(&decoded).unwrap(), attrs.to_vec());
}

#[test]
fn bmg_roundtrip_keeps_joined_text_of_plain_parts() {
    let mut bmg = sample_bmg();
    bmg.messages[0].text = vec![b"He".to_vec(), b"llo".to_vec(), vec![], b"!".to_vec()];
    bmg.messages.push(BmgMessage { id: (2, 0), attributes: vec![0u8; 16], text: vec![] });
    let parsed = Bmg::parse(&bmg.to_bytes().unwrap()).unwrap();
    assert_eq!(parsed.messages.len(), 2);
    assert_eq!(parsed.messages[0].text.concat(), b"Hello!".to_vec());
    assert_eq!(parsed.messages[0].text, vec![b"Hello!".to_vec()]);
    assert_eq!(parsed.messages[1].text.concat(), Vec::<u8>::new());
    assert_eq!(parsed.messages[1].id, (2, 0));
}

#[test]
fn bmg_json_roundtrip_keeps_backslashes_before_braces() {
    let mut bmg = sample_bmg();
    bmg.messages[0].attributes[0] = 1;
    bmg.messages[0].text = vec![br"a\{b".to_vec()];
    let json = bmg_to_json(&bmg).unwrap();
    assert_eq!(item(v_text(&json), 0).as_str(), Some(r"a\\{b"));
    let back = json_to_bmg(&json, "shift-jis").unwrap();
    assert_eq!(back.messages[0].text, vec![br"a\{b".to_vec()]);
}

#[test]
fn bmg_json_roundtrip_keeps_text_bytes_of_any_parts() {
    let mut bmg = sample_bmg();
    bmg.messages[0].attributes[0] = 1;
    bmg.messages[0].text = vec![b"He".to_vec(), b"llo".to_vec(), vec![0x1a, 0x05, 0x00, 0x01, 0x02], vec![]];
    bmg.messages.push(BmgMessage {
        id: (2, 0),
        attributes: {
            let mut a = vec![0u8; 16];
            a[0] = 2;
            a
        },
        text: vec![],
    });
    let json = bmg_to_json(&bmg).unwrap();
    let back = json_to_bmg(&json, "shift-jis").unwrap();
    assert_eq!(back.messages.len(), 2);
    assert_eq!(back.messages[0].text.concat(), bmg.messages[0].text.concat());
    assert_eq!(back.messages[0].text, vec![b"Hello".to_vec(), vec![0x1a, 0x05, 0x00, 0x01, 0x02]]);
    assert_eq!(back.messages[1].text.concat(), Vec::<u8>::new());
    assert_eq!(back.messages[1].id, (2, 0));
    assert_eq!(back.messages[1].attributes, bmg.messages[1].attributes);
}
