use tpmt::formats::rarc::builder::RarcBuilder;
use tpmt::formats::rarc::parser::{FileEntry, Node, Rarc};

// Verifies the archive builder seeds the mandatory root directory entries.
#[test]
fn rarc_builder_starts_with_root_entries() {
    assert_eq!(RarcBuilder::new().build().file_entries.len(), 2);
}

// Verifies adding a file keeps the archive rooted where the game expects it.
#[test]
fn rarc_builder_places_files_in_the_root_directory() {
    assert_eq!(
        RarcBuilder::new().add_file("foo.txt".to_string(), b"abc".to_vec()).build().list_files()[0].0,
        "foo.txt"
    );
}

// Verifies a small archive can round-trip through Yaz0 compression and parsing.
#[test]
fn rarc_roundtrip_preserves_file_listing() {
    let rarc = RarcBuilder::new().add_file("foo.txt".to_string(), b"abc".to_vec()).build();
    let parsed = Rarc::parse(rarc.to_bytes_compressed().unwrap()).unwrap();
    assert_eq!(parsed.list_files()[0].0, "foo.txt");
}

// Verifies non-RARC bytes are rejected before header parsing begins.
#[test]
fn rarc_parse_rejects_wrong_magic() {
    assert!(Rarc::parse(b"NOPE".to_vec()).is_none());
}

// Verifies the root node path stays empty so callers can build child paths cleanly.
#[test]
fn node_path_returns_empty_for_root() {
    let rarc = Rarc {
        nodes: vec![],
        file_entries: vec![],
    };
    assert_eq!(rarc.node_path(0), "");
}

#[test]
fn builder_lists_files_in_insertion_order_with_sizes() {
    let rarc = RarcBuilder::new()
        .add_file("a.bin".to_string(), vec![1, 2, 3])
        .add_file("b.bin".to_string(), vec![4])
        .build();
    let listing = rarc.list_files();
    assert_eq!(listing, vec![("a.bin".to_string(), 3), ("b.bin".to_string(), 1)]);
    assert_eq!(rarc.nodes[0].num_files, 4);
    assert_eq!(rarc.file_entries[2].name, ".");
    assert_eq!(rarc.file_entries[3].name, "..");
}

#[test]
fn written_archive_reads_back_with_its_data() {
    let rarc = RarcBuilder::new()
        .add_file("x.txt".to_string(), b"hello".to_vec())
        .add_file("y.txt".to_string(), b"world!".to_vec())
        .build();
    let bytes = rarc.to_bytes().unwrap();
    assert_eq!(&bytes[0..4], b"RARC");
    assert_eq!(bytes.len() % 32, 11);
    let parsed = Rarc::parse(bytes).unwrap();
    assert_eq!(parsed.list_files(), rarc.list_files());
    assert_eq!(parsed.file_entries[0].data, Some(b"hello".to_vec()));
    assert_eq!(parsed.file_entries[1].data, Some(b"world!".to_vec()));
    assert_eq!(parsed.nodes[0].type_str, "ROOT");
    assert_eq!(parsed.nodes[0].name, "archive");
    assert_eq!(parsed.nodes[0].dir_entry_index, Some(2));
}

#[test]
fn string_table_starts_with_dot_entries() {
    let bytes = RarcBuilder::new().build().to_bytes().unwrap();
    // header 0x20 + data header 0x20 + one node 0x10 + two entries 0x28
    let table = 0x20 + 0x20 + 0x10 + 0x28;
    assert_eq!(&bytes[table..table + 5], b".\0..\0");
}

#[test]
fn rarc_parse_rejects_truncated_header() {
    assert!(Rarc::parse(b"RARC\0\0\0\0".to_vec()).is_none());
}

#[test]
fn node_path_follows_directory_entries() {
    let node = |name: &str, first: u32, dir: Option<usize>| Node {
        type_str: "DIR ".to_string(),
        name_offset: 0,
        name: name.to_string(),
        num_files: 0,
        first_file_index: first,
        dir_entry_index: dir,
    };
    let dir = |name: &str, node: u32, parent: usize| FileEntry {
        name: name.to_string(),
        is_dir: true,
        node_index_for_dir: Some(node),
        parent_node_index: Some(parent),
        data: None,
        data_size: 0x10,
    };
    let rarc = Rarc {
        nodes: vec![node("root", 0, None), node("a", 0, Some(0)), node("b", 0, Some(1))],
        file_entries: vec![dir("a", 1, 0), dir("b", 2, 1)],
    };
    assert_eq!(rarc.node_path(2), "a/b");
    assert_eq!(rarc.node_path(1), "a");
}

#[test]
fn rarc_roundtrip_gives_back_every_file() {
    let rarc = RarcBuilder::new()
        .add_file("a.bin".to_string(), vec![1, 2, 3])
        .add_file("b.txt".to_string(), b"hello".to_vec())
        .build();
    for bytes in [rarc.to_bytes().unwrap(), rarc.to_bytes_compressed().unwrap()] {
        let parsed = Rarc::parse(bytes).unwrap();
        assert_eq!(parsed.file_entries.len(), 4);
        assert_eq!(parsed.file_entries[0].name, "a.bin");
        assert_eq!(parsed.file_entries[0].data, Some(vec![1, 2, 3]));
        assert_eq!(parsed.file_entries[1].name, "b.txt");
        assert_eq!(parsed.file_entries[1].data, Some(b"hello".to_vec()));
        assert!(parsed.file_entries[2].is_dir && parsed.file_entries[3].is_dir);
        assert_eq!(parsed.list_files(), vec![("a.bin".to_string(), 3), ("b.txt".to_string(), 5)]);
    }
}
