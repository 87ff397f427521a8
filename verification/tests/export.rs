use tpmt::export::bmg_files::{bmg_json_path, bmg_paths, export_single_bmg, find_entry_in_rarc};
use tpmt::export::consolidated_bmg::{find_individual, to_individual_bmgs, BmgSource, ConsolidatedBmg};
use tpmt::export::manifest::{build_manifest, sanitize_entry};
use tpmt::export::pipeline::{
    archive_entry, archive_stem, contains, direct_iso_entry, get_friendly_path, is_decoded_format,
};
use tpmt::export::entries::{
    finalize_bmg_entry, insert_direct_iso_entry, insert_entry, process_bmg_entries, process_plain_entries,
};
use tpmt::export::unpack::{unpack_arc, ArcEntry};
use tpmt::formats::bmg::parser::{Bmg, BmgMessage};
use tpmt::formats::rarc::builder::RarcBuilder;
use tpmt::json::JsonValue;

fn obj(members: Vec<(&str, JsonValue)>) -> JsonValue {
    JsonValue::Object(members.into_iter().map(|(k, v)| (k.to_string(), v)).collect())
}

fn s(text: &str) -> JsonValue {
    JsonValue::Str(text.to_string())
}

fn str_at<'a>(v: &'a JsonValue, path: &[&str]) -> Option<&'a str> {
    let mut cur = v;
    for key in path {
        cur = cur.get(key)?;
    }
    cur.as_str()
}

// Verifies direct manifest entries stay in the top-level entries map.
#[test]
fn write_manifest_keeps_direct_entries_top_level() {
    let entries = vec![("sys/main.dol".to_string(), obj(vec![("iso", s("sys/main.dol")), ("sha1", s("abc"))]))];
    let manifest = build_manifest(&entries);
    assert_eq!(str_at(&manifest, &["entries", "sys/main.dol", "sha1"]), Some("abc"));
    assert_eq!(manifest.get("version").and_then(|v| v.as_u64()), Some(1));
}

// Verifies archive-backed entries are hoisted into the archives section.
#[test]
fn write_manifest_hoists_archive_entries() {
    let entries = vec![(
        "stages/forest_temple/room.dzr".to_string(),
        obj(vec![
            ("archive", s("files/res/Stage/D_MN05/R00_00.arc")),
            ("path", s("room.dzr")),
            ("sha1", s("abc")),
        ]),
    )];
    let manifest = build_manifest(&entries);
    assert!(manifest.get("archives").is_some());
    assert_eq!(
        str_at(
            &manifest,
            &["archives", "files/res/Stage/D_MN05/R00_00.arc", "stages/forest_temple/room.dzr", "path"]
        ),
        Some("room.dzr")
    );
}

// Verifies consolidated BMG sources are hoisted into the archive lookup map.
#[test]
fn write_manifest_hoists_consolidated_bmg_sources() {
    let entries = vec![(
        "text/messages.json".to_string(),
        obj(vec![(
            "sources",
            JsonValue::Array(vec![obj(vec![
                ("archive", s("files/res/Msgus/bmgres.arc")),
                ("path", s("zel_00.bmg")),
                ("sha1", s("abc")),
            ])]),
        )]),
    )];
    let manifest = build_manifest(&entries);
    let arc = manifest.get("archives").and_then(|a| a.get("files/res/Msgus/bmgres.arc")).unwrap();
    assert!(arc.get("zel_00.bmg").is_some());
}

#[test]
fn sanitize_entry_keeps_the_recorded_fields() {
    let e = obj(vec![("iso", s("a")), ("sha1", s("abc")), ("extra", JsonValue::UInt(3))]);
    let clean = sanitize_entry(&e);
    assert_eq!(str_at(&clean, &["iso"]), Some("a"));
    assert_eq!(str_at(&clean, &["sha1"]), Some("abc"));
}

#[test]
fn friendly_paths_follow_the_archive_category() {
    assert_eq!(
        get_friendly_path("files/res/Stage/D_MN05/R00_00.arc", "R00_00", "room.dzr"),
        Some("stages/R00_00/room.dzr".to_string())
    );
    assert_eq!(
        get_friendly_path("files/res/Object/Alink.arc", "Alink", "bmdr/al.bmd"),
        Some("actors/Alink/bmdr/al.bmd".to_string())
    );
    assert_eq!(
        get_friendly_path("files/Audiores/Waves/x.arc", "x", "bank.aw"),
        Some("audio/waves/x/bank.json".to_string())
    );
    assert_eq!(get_friendly_path("files/res/Other/y.arc", "y", "z"), Some("res/y/z".to_string()));
}

#[test]
fn archive_stem_is_the_file_stem() {
    assert_eq!(archive_stem("files/res/Stage/D_MN05/R00_00.arc"), Ok("R00_00".to_string()));
}

#[test]
fn only_bmg_files_have_their_own_decoder() {
    assert!(is_decoded_format("zel_00.bmg"));
    assert!(!is_decoded_format("room.dzr"));
    assert!(contains("files/res/Stage/a.arc", "Stage/"));
    assert!(!contains("files/res/a.arc", "Stage/"));
}

#[test]
fn manifest_entries_record_sha1_hashes() {
    let d = direct_iso_entry("sys/main.dol", b"abc");
    assert_eq!(str_at(&d, &["iso"]), Some("sys/main.dol"));
    assert_eq!(str_at(&d, &["sha1"]), Some("a9993e364706816aba3e25717850c26c9cd0d89d"));
    let a = archive_entry("files/a.arc", "foo.txt", b"abc");
    assert_eq!(str_at(&a, &["archive"]), Some("files/a.arc"));
    assert_eq!(str_at(&a, &["path"]), Some("foo.txt"));
    assert_eq!(str_at(&a, &["sha1"]), Some("a9993e364706816aba3e25717850c26c9cd0d89d"));
}

#[test]
fn consolidated_messages_split_back_into_their_sources() {
    let messages = JsonValue::Array(vec![obj(vec![("message_count", JsonValue::UInt(0))])]);
    let mut all = ConsolidatedBmg::new();
    all.add_source(BmgSource::from_bmg(
        "files/a.arc".to_string(),
        "one.bmg".to_string(),
        "shift-jis".to_string(),
        messages,
    ));
    let json = all.to_json();
    let individuals = to_individual_bmgs(&json).unwrap();
    assert_eq!(individuals.len(), 1);
    assert_eq!(individuals[0].archive, "files/a.arc");
    assert_eq!(individuals[0].path, "one.bmg");
    assert_eq!(individuals[0].encoding, "shift-jis");
    assert_eq!(find_individual(&individuals, "files/a.arc", "one.bmg"), Some(0));
    assert_eq!(find_individual(&individuals, "files/a.arc", "two.bmg"), None);
}

#[test]
fn unpack_arc_flattens_nested_archives() {
    let inner = RarcBuilder::new().add_file("x.txt".to_string(), b"abc".to_vec()).build();
    let inner_bytes = inner.to_bytes().unwrap();
    let outer = RarcBuilder::new()
        .add_file("inner.arc".to_string(), inner_bytes)
        .add_file("y.bin".to_string(), vec![7])
        .build()
        .to_bytes_compressed()
        .unwrap();
    let mut arcs = Vec::new();
    let mut found: Vec<ArcEntry> = Vec::new();
    unpack_arc("files/a.arc", "files/a.arc", "", &outer, &mut arcs, &mut found).unwrap();
    assert_eq!(arcs, vec!["files/a.arc".to_string(), "files/a.arc/inner.arc".to_string()]);
    let listed: Vec<(&str, &str, &[u8])> = found
        .iter()
        .map(|e| (e.top_level_arc.as_str(), e.internal_path.as_str(), e.data.as_slice()))
        .collect();
    assert_eq!(
        listed,
        vec![("files/a.arc", "inner.arc/x.txt", &b"abc"[..]), ("files/a.arc", "y.bin", &[7u8][..])]
    );
}

#[test]
fn unpack_arc_passes_over_unparsable_bytes() {
    let mut arcs = Vec::new();
    let mut found: Vec<ArcEntry> = Vec::new();
    unpack_arc("files/a.arc", "files/a.arc", "", b"NOPE", &mut arcs, &mut found).unwrap();
    assert!(arcs.is_empty());
    assert!(found.is_empty());
}

#[test]
fn insert_entry_replaces_in_place() {
    let mut entries = vec![("a".to_string(), JsonValue::UInt(1)), ("b".to_string(), JsonValue::UInt(2))];
    insert_entry(&mut entries, "a".to_string(), JsonValue::UInt(3));
    insert_entry(&mut entries, "c".to_string(), JsonValue::UInt(4));
    let keys: Vec<&str> = entries.iter().map(|e| e.0.as_str()).collect();
    assert_eq!(keys, vec!["a", "b", "c"]);
    assert_eq!(entries[0].1.as_u64(), Some(3));
}

fn found(top: &str, internal: &str, data: &[u8]) -> ArcEntry {
    ArcEntry { top_level_arc: top.to_string(), internal_path: internal.to_string(), data: data.to_vec() }
}

#[test]
fn plain_entries_are_keyed_by_friendly_path() {
    let arc = vec![
        found("files/res/Stage/D_MN05/R00_00.arc", "room.dzr", b"abc"),
        found("files/res/Msgus/bmgres.arc", "zel_00.bmg", b"xyz"),
    ];
    let mut entries = Vec::new();
    process_plain_entries(&arc, &mut entries);
    assert_eq!(entries.len(), 1);
    assert_eq!(entries[0].0, "stages/R00_00/room.dzr");
    assert_eq!(str_at(&entries[0].1, &["archive"]), Some("files/res/Stage/D_MN05/R00_00.arc"));
    assert_eq!(str_at(&entries[0].1, &["sha1"]), Some("a9993e364706816aba3e25717850c26c9cd0d89d"));
}

#[test]
fn bmg_entries_become_message_sources() {
    let bmg = Bmg {
        encoding: "shift-jis".to_string(),
        messages: vec![BmgMessage { id: (1, 0), attributes: vec![0u8; 16], text: vec![b"Hi".to_vec()] }],
        attribute_length: 20,
        additional_sections: vec![],
    };
    let arc = vec![
        found("files/res/Msgus/bmgres.arc", "zel_00.bmg", &bmg.to_bytes().unwrap()),
        found("files/res/Msgus/bmgres.arc", "broken.bmg", b"bad"),
        found("files/res/Msgus/bmgres.arc", "other.txt", b"x"),
    ];
    let mut all = ConsolidatedBmg::new();
    process_bmg_entries(&arc, &mut all).unwrap();
    assert_eq!(all.sources.len(), 1);
    assert_eq!(all.sources[0].path, "zel_00.bmg");
    assert_eq!(all.sources[0].encoding, "shift-jis");
    assert_eq!(all.sources[0].messages.len(), 2);

    let mut entries = Vec::new();
    finalize_bmg_entry(&mut entries, &all, &vec![b"abc".to_vec()]);
    assert_eq!(entries[0].0, "text/messages.json");
    let src = &entries[0].1.get("sources").unwrap().as_array().unwrap()[0];
    assert_eq!(str_at(src, &["path"]), Some("zel_00.bmg"));
    assert_eq!(str_at(src, &["sha1"]), Some("a9993e364706816aba3e25717850c26c9cd0d89d"));
}

#[test]
fn direct_entries_are_registered_under_their_disc_path() {
    let mut entries = Vec::new();
    insert_direct_iso_entry(&mut entries, "sys/main.dol", b"abc");
    assert_eq!(entries[0].0, "sys/main.dol");
    assert_eq!(str_at(&entries[0].1, &["iso"]), Some("sys/main.dol"));
}

#[test]
fn bmg_entries_stop_at_a_message_file_that_cannot_be_exported() {
    let good = Bmg {
        encoding: "shift-jis".to_string(),
        messages: vec![BmgMessage { id: (1, 0), attributes: vec![0u8; 16], text: vec![b"Hi".to_vec()] }],
        attribute_length: 20,
        additional_sections: vec![],
    };
    let short = Bmg {
        encoding: "shift-jis".to_string(),
        messages: vec![BmgMessage { id: (1, 0), attributes: vec![0u8; 4], text: vec![b"Hi".to_vec()] }],
        attribute_length: 8,
        additional_sections: vec![],
    };
    let arc = vec![
        found("files/res/Msgus/bmgres.arc", "a.bmg", &good.to_bytes().unwrap()),
        found("files/res/Msgus/bmgres.arc", "b.bmg", &short.to_bytes().unwrap()),
        found("files/res/Msgus/bmgres.arc", "c.bmg", &good.to_bytes().unwrap()),
    ];
    let mut all = ConsolidatedBmg::new();
    let res = process_bmg_entries(&arc, &mut all);
    assert_eq!(res.err(), Some("Expected 16 attribute bytes, got 4".to_string()));
    assert_eq!(all.sources.len(), 1);
    assert_eq!(all.sources[0].path, "a.bmg");
}

fn message_archive(bmg_bytes: &[u8]) -> tpmt::formats::rarc::parser::Rarc {
    let bytes = RarcBuilder::new()
        .add_file("zel_00.bmg".to_string(), bmg_bytes.to_vec())
        .add_file("notes.txt".to_string(), b"x".to_vec())
        .add_file("bad.bmg".to_string(), b"bad".to_vec())
        .build()
        .to_bytes()
        .unwrap();
    tpmt::formats::rarc::parser::Rarc::parse(bytes).unwrap()
}

fn one_message_bmg() -> Bmg {
    Bmg {
        encoding: "shift-jis".to_string(),
        messages: vec![BmgMessage { id: (1, 0), attributes: vec![0u8; 16], text: vec![b"Hi".to_vec()] }],
        attribute_length: 20,
        additional_sections: vec![],
    }
}

#[test]
fn bmg_paths_lists_message_files_in_order() {
    let rarc = message_archive(&one_message_bmg().to_bytes().unwrap());
    assert_eq!(bmg_paths(&rarc), vec!["zel_00.bmg".to_string(), "bad.bmg".to_string()]);
    assert_eq!(find_entry_in_rarc(&rarc, "bad.bmg"), Some(2));
    assert_eq!(find_entry_in_rarc(&rarc, "missing.bmg"), None);
}

#[test]
fn bmg_json_path_drops_leading_slashes_and_suffix() {
    assert_eq!(bmg_json_path("bmgres", "//msg/zel_00.bmg"), "text/bmgres/msg/zel_00.json");
    assert_eq!(bmg_json_path("bmgres", "notes.txt"), "text/bmgres/notes.txt.json");
}

#[test]
fn export_single_bmg_names_output_and_source() {
    let bytes = one_message_bmg().to_bytes().unwrap();
    let rarc = message_archive(&bytes);
    let (path, json, meta) = export_single_bmg(&rarc, "zel_00.bmg", "files/res/Msgus/bmgres.arc").unwrap();
    assert_eq!(path, "text/bmgres/zel_00.json");
    assert_eq!(json.as_array().map(|a| a.len()), Some(2));
    assert_eq!(meta.iso_path, "files/res/Msgus/bmgres.arc");
    assert_eq!(meta.arc_path, "files/res/Msgus/bmgres.arc");
    assert_eq!(meta.bmg_filename, "zel_00.bmg");
    assert_eq!(meta.sha1, tpmt::utils::sha1_hex(&bytes));
    assert_eq!(meta.sha1.len(), 40);
}

#[test]
fn export_single_bmg_reports_missing_and_broken_files() {
    let rarc = message_archive(&one_message_bmg().to_bytes().unwrap());
    assert_eq!(
        export_single_bmg(&rarc, "missing.bmg", "files/res/Msgus/bmgres.arc").err(),
        Some("BMG not found in archive".to_string())
    );
    assert_eq!(
        export_single_bmg(&rarc, "bad.bmg", "files/res/Msgus/bmgres.arc").err(),
        Some("BMG data too short".to_string())
    );
}
