use tpmt::build::archive_plan::{
    archive_source, load_manifest_archives, plan_archive_groups, CompiledFile, ModifiedFile,
};
use tpmt::build::assemble::{assemble_archives, ArchiveInput, Modification};
use tpmt::build::compile::{compile_bmg_json, compile_consolidated, consolidated_friendly_path, is_text_json};
use tpmt::build::hash_check::{consolidated_changes, classify_entry, source_changed, standard_change, EntryCheck, SourceHash};
use tpmt::build::output::{collect_direct_outputs, partition_compiled};
use tpmt::export::consolidated_bmg::{to_individual_bmgs, IndividualBmg};
use tpmt::formats::bmg::parser::Bmg;
use tpmt::formats::iso::iso::parse_fst;
use tpmt::formats::rarc::builder::RarcBuilder;
use tpmt::formats::rarc::parser::Rarc;
use tpmt::json::JsonValue;

fn obj(members: Vec<(&str, JsonValue)>) -> JsonValue {
    JsonValue::Object(members.into_iter().map(|(k, v)| (k.to_string(), v)).collect())
}

fn s(text: &str) -> JsonValue {
    JsonValue::Str(text.to_string())
}

fn message_list() -> JsonValue {
    JsonValue::Array(vec![
        obj(vec![("message_count", JsonValue::UInt(1))]),
        obj(vec![
            ("ID", s("1, 0")),
            ("attributes", obj(vec![("box_style", s("standard_dialogue"))])),
            ("text", JsonValue::Array(vec![s("Hi")])),
        ]),
    ])
}

fn archive_file(friendly: &str, archive: &str, internal: &str, bytes: &[u8]) -> CompiledFile {
    CompiledFile {
        mod_file: ModifiedFile {
            friendly_path: friendly.to_string(),
            mod_path: "ignored".to_string(),
            archive: Some(archive.to_string()),
            internal_path: Some(internal.to_string()),
        },
        compiled_bytes: bytes.to_vec(),
    }
}

fn complete_manifest() -> JsonValue {
    obj(vec![
        (
            "archives",
            obj(vec![(
                "files/a.arc",
                obj(vec![("foo.txt", obj(vec![("path", s("foo.txt")), ("sha1", s("abc"))]))]),
            )]),
        ),
        ("entries", obj(vec![])),
    ])
}

/// The FST of a disc holding one file at the root.
fn single_file_fst(name: &str) -> Vec<u8> {
    let mut fst = vec![1, 0, 0, 0, 0, 0, 0, 0, 0, 0, 0, 2, 0, 0, 0, 0, 0, 0, 0x12, 0, 0, 0, 0, 3];
    fst.extend_from_slice(name.as_bytes());
    fst.push(0);
    fst
}

// Verifies standard JSON text files compile into BMG bytes.
#[test]
fn compile_modified_files_converts_text_json_to_bmg() {
    assert!(is_text_json("text/a.json"));
    let bytes = compile_bmg_json(&message_list(), "shift-jis").unwrap();
    assert_eq!(Bmg::parse(&bytes).unwrap().messages.len(), 1);
}

// Verifies consolidated messages.json is split back into the modified source archive entry.
#[test]
fn compile_modified_files_splits_consolidated_bmg_sources() {
    let json = obj(vec![(
        "sources",
        JsonValue::Array(vec![obj(vec![
            ("archive", s("files/res/Msgus/bmgres.arc")),
            ("path", s("zel_00.bmg")),
            ("encoding", s("shift-jis")),
            ("messages", message_list()),
        ])]),
    )]);
    let individuals = to_individual_bmgs(&json).unwrap();
    let modified = vec![ModifiedFile {
        friendly_path: "text/messages.json".to_string(),
        mod_path: "unused".to_string(),
        archive: Some("files/res/Msgus/bmgres.arc".to_string()),
        internal_path: Some("zel_00.bmg".to_string()),
    }];
    let compiled = compile_consolidated(&modified, &individuals).unwrap();
    assert_eq!(compiled[0].mod_file.friendly_path, "res/Msgus/bmgres.arc/zel_00.bmg");
    assert_eq!(compiled[0].mod_file.archive.as_deref(), Some("files/res/Msgus/bmgres.arc"));
}

#[test]
fn consolidated_friendly_path_drops_the_files_root() {
    assert_eq!(consolidated_friendly_path("files/res/a.arc", "b.bmg"), "res/a.arc/b.bmg");
    assert_eq!(consolidated_friendly_path("res/a.arc", "b.bmg"), "res/a.arc/b.bmg");
}

// Verifies archives can be rebuilt directly when the manifest proves all internal files are present.
#[test]
fn pipeline_plan_archive_inputs_uses_mods_only_when_manifest_is_complete() {
    let manifest = complete_manifest();
    let compiled = vec![archive_file("a.arc/foo.txt", "files/a.arc", "foo.txt", b"new")];
    let groups = plan_archive_groups(&compiled, &manifest).unwrap().unwrap();
    assert_eq!(groups.len(), 1);
    assert_eq!(groups[0].0, "files/a.arc");
    let archives = load_manifest_archives(&manifest).unwrap();
    let iso_files = parse_fst(&single_file_fst("other.txt")).unwrap();
    assert_eq!(archive_source(&groups[0].0, &groups[0].1, archives, &iso_files), Ok(None));
}

// Verifies the build rejects archive edits when the manifest lacks archive mappings.
#[test]
fn pipeline_plan_archive_inputs_rejects_missing_manifest_archives() {
    let manifest = obj(vec![("entries", obj(vec![]))]);
    let compiled = vec![archive_file("a.arc/foo.txt", "files/a.arc", "foo.txt", b"new")];
    assert!(plan_archive_groups(&compiled, &manifest).is_err());
}

// Verifies archive entries with complete manifest coverage can be rebuilt from mods only.
#[test]
fn archive_plan_plan_archive_inputs_uses_mods_only_when_manifest_is_complete() {
    let manifest = complete_manifest();
    let compiled = vec![archive_file("a.arc/foo.txt", "files/a.arc", "foo.txt", b"new")];
    let groups = plan_archive_groups(&compiled, &manifest).unwrap().unwrap();
    let archives = load_manifest_archives(&manifest).unwrap();
    let iso_files = parse_fst(&single_file_fst("a.arc")).unwrap();
    assert_eq!(archive_source(&groups[0].0, &groups[0].1, archives, &iso_files), Ok(None));
}

// Verifies missing archive mappings fail early so the build does not guess at archive layout.
#[test]
fn archive_plan_plan_archive_inputs_rejects_missing_manifest_archives() {
    let manifest = obj(vec![("entries", obj(vec![]))]);
    let compiled = vec![archive_file("a.arc/foo.txt", "files/a.arc", "foo.txt", b"new")];
    assert!(plan_archive_groups(&compiled, &manifest).is_err());
}

#[test]
fn archive_source_finds_incomplete_archives_on_the_disc() {
    let manifest = obj(vec![(
        "archives",
        obj(vec![(
            "files/a.arc",
            obj(vec![
                ("foo.txt", obj(vec![("path", s("foo.txt"))])),
                ("bar.txt", obj(vec![("path", s("bar.txt"))])),
            ]),
        )]),
    )]);
    let archives = load_manifest_archives(&manifest).unwrap();
    let mods = vec![Modification { path: "foo.txt".to_string(), data: b"new".to_vec() }];
    let with_arc = parse_fst(&single_file_fst("a.arc")).unwrap();
    assert_eq!(archive_source("files/a.arc", &mods, archives, &with_arc), Ok(Some(0)));
    let without = parse_fst(&single_file_fst("other.txt")).unwrap();
    assert_eq!(
        archive_source("files/a.arc", &mods, archives, &without),
        Err("Arc not found in ISO: files/a.arc".to_string())
    );
}

#[test]
fn plan_archive_groups_is_empty_without_archive_files() {
    let compiled = vec![CompiledFile {
        mod_file: ModifiedFile {
            friendly_path: "sys/main.dol".to_string(),
            mod_path: "ignored".to_string(),
            archive: None,
            internal_path: None,
        },
        compiled_bytes: vec![1],
    }];
    assert!(plan_archive_groups(&compiled, &complete_manifest()).unwrap().is_none());
}

#[test]
fn plan_archive_groups_puts_deeper_archives_first_and_skips_unmapped_ones() {
    let manifest = obj(vec![(
        "archives",
        obj(vec![
            ("files/a.arc", obj(vec![])),
            ("files/x/y/b.arc", obj(vec![])),
        ]),
    )]);
    let compiled = vec![
        archive_file("a.arc/1", "files/a.arc", "1", b"1"),
        archive_file("b.arc/2", "files/x/y/b.arc", "2", b"2"),
        archive_file("c.arc/3", "files/c.arc", "3", b"3"),
    ];
    let groups = plan_archive_groups(&compiled, &manifest).unwrap().unwrap();
    let names: Vec<&str> = groups.iter().map(|g| g.0.as_str()).collect();
    assert_eq!(names, vec!["files/x/y/b.arc", "files/a.arc"]);
}

// Verifies modification-only archives are rebuilt directly without source bytes.
#[test]
fn assemble_archives_rebuilds_mod_only_archives() {
    let inputs = vec![ArchiveInput::FromModsOnly {
        arc_iso_path: "files/res/Stage/D_MN05/R00_00.arc".to_string(),
        modifications: vec![Modification { path: "foo.txt".to_string(), data: b"new".to_vec() }],
    }];
    let built = assemble_archives(&inputs).unwrap();
    assert_eq!(built[0].path, "files/res/Stage/D_MN05/R00_00.arc");
    let rarc = Rarc::parse(built[0].bytes.clone()).unwrap();
    assert_eq!(rarc.list_files()[0].0, "foo.txt");
}

// Verifies source-backed archives replace the modified file while keeping archive structure intact.
#[test]
fn assemble_archives_applies_modifications_to_existing_arcs() {
    let arc_bytes = RarcBuilder::new()
        .add_file("foo.txt".to_string(), b"old".to_vec())
        .build()
        .to_bytes_compressed()
        .unwrap();
    let inputs = vec![ArchiveInput::FromIso {
        arc_iso_path: "files/res/Stage/D_MN05/R00_00.arc".to_string(),
        modifications: vec![Modification { path: "foo.txt".to_string(), data: b"new".to_vec() }],
        arc_bytes,
    }];
    let rebuilt = assemble_archives(&inputs).unwrap();
    let rarc = Rarc::parse(rebuilt[0].bytes.clone()).unwrap();
    let entry = rarc.file_entries.iter().find(|e| e.name == "foo.txt").unwrap();
    assert_eq!(entry.data, Some(b"new".to_vec()));
}

#[test]
fn assemble_archives_names_unparsable_archives() {
    let inputs = vec![ArchiveInput::FromIso {
        arc_iso_path: "files/bad.arc".to_string(),
        modifications: vec![],
        arc_bytes: b"NOPE".to_vec(),
    }];
    assert_eq!(assemble_archives(&inputs).err(), Some("Failed to parse arc: files/bad.arc".to_string()));
}

// Verifies compiled direct files become build outputs without changing paths.
#[test]
fn collect_direct_outputs_preserves_paths() {
    let compiled = vec![CompiledFile {
        mod_file: ModifiedFile {
            friendly_path: "sys/main.dol".to_string(),
            mod_path: "ignored".to_string(),
            archive: None,
            internal_path: None,
        },
        compiled_bytes: vec![1, 2, 3],
    }];
    let outputs = collect_direct_outputs(&compiled);
    assert_eq!(outputs[0].path, "sys/main.dol");
    assert_eq!(outputs[0].bytes, vec![1, 2, 3]);
}

#[test]
fn partition_compiled_keeps_order_on_both_sides() {
    let direct = |p: &str| CompiledFile {
        mod_file: ModifiedFile {
            friendly_path: p.to_string(),
            mod_path: String::new(),
            archive: None,
            internal_path: None,
        },
        compiled_bytes: vec![],
    };
    let compiled = vec![direct("a"), archive_file("b", "files/x.arc", "b", b""), direct("c")];
    let (outside, inside) = partition_compiled(compiled);
    let names: Vec<&str> = outside.iter().map(|c| c.mod_file.friendly_path.as_str()).collect();
    assert_eq!(names, vec!["a", "c"]);
    assert_eq!(inside.len(), 1);
    assert_eq!(inside[0].mod_file.friendly_path, "b");
}

#[test]
fn classify_entry_reads_standard_and_consolidated_entries() {
    let entry = obj(vec![("sha1", s("abc")), ("archive", s("files/a.arc")), ("path", s("x"))]);
    match classify_entry("a.arc/x", &entry).unwrap() {
        EntryCheck::Standard { sha1, archive, internal_path } => {
            assert_eq!(sha1, "abc");
            assert_eq!(archive.as_deref(), Some("files/a.arc"));
            assert_eq!(internal_path.as_deref(), Some("x"));
        }
        EntryCheck::Consolidated => panic!("expected a standard entry"),
    }
    assert!(matches!(
        classify_entry("text/messages.json", &obj(vec![])).unwrap(),
        EntryCheck::Consolidated
    ));
    assert_eq!(
        classify_entry("a.txt", &obj(vec![])).err(),
        Some("Entry a.txt missing sha1".to_string())
    );
    assert_eq!(classify_entry("a.txt", &JsonValue::Null).err(), Some("Entry is not an object".to_string()));
}

#[test]
fn standard_change_reports_only_changed_hashes() {
    assert!(standard_change("text/a.txt", "/m/text/a.txt", "abc", &None, &None, "abc").is_none());
    let m = standard_change("text/a.txt", "/m/text/a.txt", "abc", &None, &None, "def").unwrap();
    assert_eq!(m.friendly_path, "text/a.txt");
    assert_eq!(m.mod_path, "/m/text/a.txt");
}

#[test]
fn source_changed_compares_with_the_recorded_hash() {
    let hashes = vec![SourceHash {
        archive: "files/res/Msgus/bmgres.arc".to_string(),
        path: "zel_00.bmg".to_string(),
        sha1: "abc".to_string(),
    }];
    assert!(!source_changed(&hashes, "files/res/Msgus/bmgres.arc", "zel_00.bmg", "abc"));
    assert!(source_changed(&hashes, "files/res/Msgus/bmgres.arc", "zel_00.bmg", "def"));
}

#[test]
fn consolidated_changes_lists_only_changed_sources() {
    let individual = |path: &str| IndividualBmg {
        archive: "files/res/Msgus/bmgres.arc".to_string(),
        path: path.to_string(),
        bmg_json: JsonValue::Array(vec![]),
        encoding: "shift-jis".to_string(),
    };
    let hashes = vec![
        SourceHash {
            archive: "files/res/Msgus/bmgres.arc".to_string(),
            path: "a.bmg".to_string(),
            sha1: "a9993e364706816aba3e25717850c26c9cd0d89d".to_string(),
        },
        SourceHash {
            archive: "files/res/Msgus/bmgres.arc".to_string(),
            path: "b.bmg".to_string(),
            sha1: "0000000000000000000000000000000000000000".to_string(),
        },
    ];
    let individuals = vec![individual("a.bmg"), individual("b.bmg")];
    let serialized = vec![b"abc".to_vec(), b"abc".to_vec()];
    let changed = consolidated_changes(&hashes, &individuals, &serialized, "/m/text/messages.json");
    assert_eq!(changed.len(), 1);
    assert_eq!(changed[0].friendly_path, "text/messages.json");
    assert_eq!(changed[0].mod_path, "/m/text/messages.json");
    assert_eq!(changed[0].internal_path.as_deref(), Some("b.bmg"));
}

#[test]
fn assemble_archives_passes_unchanged_files_through() {
    let arc_bytes = RarcBuilder::new()
        .add_file("a.bin".to_string(), b"old-a".to_vec())
        .add_file("b.bin".to_string(), b"keep-b".to_vec())
        .add_file("c.bin".to_string(), b"keep-c".to_vec())
        .build()
        .to_bytes_compressed()
        .unwrap();
    let before = Rarc::parse(arc_bytes.clone()).unwrap();
    let inputs = vec![ArchiveInput::FromIso {
        arc_iso_path: "files/res/Stage/D_MN05/R00_00.arc".to_string(),
        modifications: vec![Modification { path: "a.bin".to_string(), data: b"new a!".to_vec() }],
        arc_bytes,
    }];
    let rebuilt = assemble_archives(&inputs).unwrap();
    let after = Rarc::parse(rebuilt[0].bytes.clone()).unwrap();
    assert_eq!(after.file_entries.len(), before.file_entries.len());
    let names: Vec<&str> = after.file_entries.iter().map(|e| e.name.as_str()).collect();
    assert_eq!(names, vec!["a.bin", "b.bin", "c.bin", ".", ".."]);
    assert_eq!(after.file_entries[0].data, Some(b"new a!".to_vec()));
    assert_eq!(after.file_entries[1].data, Some(b"keep-b".to_vec()));
    assert_eq!(after.file_entries[2].data, Some(b"keep-c".to_vec()));
    let paths: Vec<String> = after.list_files().into_iter().map(|(p, _)| p).collect();
    assert_eq!(paths, vec!["a.bin".to_string(), "b.bin".to_string(), "c.bin".to_string()]);
}
