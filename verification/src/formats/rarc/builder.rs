//! Building archives from scratch: a root node holding files.

use vstd::prelude::*;
use crate::formats::rarc::parser::{
    Rarc, RarcModel, NodeModel, FileEntryModel, Node, FileEntry, nodes_view, entries_view,
    spec_links_ok, spec_list_files, spec_list_upto, spec_file_path, spec_node_path,
};
use crate::text::to_string;
use crate::utils::low32;

verus! {

/// The root node of a fresh archive, holding `files` entries.
pub open spec fn spec_root_node(files: u16) -> NodeModel {
    NodeModel {
        type_str: "ROOT"@,
        name_offset: 0,
        name: "archive"@,
        num_files: files,
        first_file_index: 0,
        dir_entry_index: None,
    }
}

/// A directory entry of the root.
pub open spec fn spec_root_dir_entry(name: Seq<char>, node: u32) -> FileEntryModel {
    FileEntryModel {
        name,
        is_dir: true,
        node_index_for_dir: Some(node),
        parent_node_index: Some(0),
        data: None,
        data_size: 0x10,
    }
}

/// A fresh archive: the root node with its "." and ".." entries.
pub open spec fn spec_builder_new() -> RarcModel {
    RarcModel {
        nodes: seq![spec_root_node(2)],
        file_entries: seq![
            spec_root_dir_entry("."@, 0),
            spec_root_dir_entry(".."@, 0xFFFF_FFFF),
        ],
    }
}

/// A file entry of the root.
pub open spec fn spec_root_file_entry(name: Seq<char>, data: Seq<u8>) -> FileEntryModel {
    FileEntryModel {
        name,
        is_dir: false,
        node_index_for_dir: None,
        parent_node_index: Some(0),
        data: Some(data),
        data_size: spec_data_size(data.len()),
    }
}

/// A data length as the 32-bit size field keeps it.
pub open spec fn spec_data_size(n: nat) -> u32 {
    (n % 0x1_0000_0000) as u32
}

/// Adding a file: it goes in before the last two entries, and the root
/// counts one more file.
pub open spec fn spec_builder_add(b: RarcModel, name: Seq<char>, data: Seq<u8>) -> RarcModel {
    let pos = if b.file_entries.len() >= 2 { b.file_entries.len() - 2 } else { 0 };
    let root = b.nodes[0];
    RarcModel {
        nodes: b.nodes.update(
            0,
            NodeModel {
                type_str: root.type_str,
                name_offset: root.name_offset,
                name: root.name,
                num_files: (root.num_files + 1) as u16,
                first_file_index: root.first_file_index,
                dir_entry_index: root.dir_entry_index,
            },
        ),
        file_entries: b.file_entries.insert(pos, spec_root_file_entry(name, data)),
    }
}

/// Builds an archive whose files all sit in the root directory.
pub struct RarcBuilder {
    nodes: Vec<Node>,
    file_entries: Vec<FileEntry>,
}

impl View for RarcBuilder {
    type V = RarcModel;

    closed spec fn view(&self) -> RarcModel {
        RarcModel { nodes: nodes_view(self.nodes@), file_entries: entries_view(self.file_entries@) }
    }
}

impl RarcBuilder {
    /// A builder holding the root node and its "." and ".." entries.
    pub fn new() -> (res: Self)
        ensures
            res@ == spec_builder_new(),
    {
        let root = Node {
            type_str: to_string("ROOT"),
            name_offset: 0,
            name: to_string("archive"),
            num_files: 0,
            first_file_index: 0,
            dir_entry_index: None,
        };
        let dot = FileEntry {
            name: to_string("."),
            is_dir: true,
            node_index_for_dir: Some(0),
            parent_node_index: Some(0),
            data: None,
            data_size: 0x10,
        };
        let dotdot = FileEntry {
            name: to_string(".."),
            is_dir: true,
            node_index_for_dir: Some(0xFFFF_FFFF),
            parent_node_index: Some(0),
            data: None,
            data_size: 0x10,
        };
        let mut nodes: Vec<Node> = Vec::new();
        nodes.push(root);
        let mut file_entries: Vec<FileEntry> = Vec::new();
        file_entries.push(dot);
        file_entries.push(dotdot);
        let mut b = RarcBuilder { nodes, file_entries };
        b.nodes[0].num_files = 2;
        assert(b@.nodes =~= spec_builder_new().nodes);
        assert(b@.file_entries =~= spec_builder_new().file_entries);
        b
    }

    /// Adds a file to the root directory, before the "." and ".." entries.
    pub fn add_file(self, name: String, data: Vec<u8>) -> (res: Self)
        requires
            self@.nodes.len() >= 1,
            self@.nodes[0].num_files < 0xFFFF,
        ensures
            res@ == spec_builder_add(self@, name@, data@),
    {
        let ghost before = self@;
        let mut b = self;
        let data_size = low32(data.len());
        let insert_pos = if b.file_entries.len() >= 2 { b.file_entries.len() - 2 } else { 0 };
        let entry = FileEntry {
            name,
            is_dir: false,
            node_index_for_dir: None,
            parent_node_index: Some(0),
            data: Some(data),
            data_size,
        };
        let ghost ev = entry@;
        b.file_entries.insert(insert_pos, entry);
        assert(b.nodes@[0]@ == before.nodes[0]);
        let n = b.nodes[0].num_files;
        b.nodes[0].num_files = n + 1;
        assert(b@.nodes =~= spec_builder_add(before, ev.name, ev.data->0).nodes);
        assert(b@.file_entries =~= spec_builder_add(before, ev.name, ev.data->0).file_entries);
        b
    }

    /// The archive built so far.
    pub fn build(self) -> (res: Rarc)
        ensures
            res@ == self@,
    {
        Rarc { nodes: self.nodes, file_entries: self.file_entries }
    }
}

/// The archive a builder makes from `files`, added in order.
pub open spec fn spec_builder_with(files: Seq<(Seq<char>, Seq<u8>)>) -> RarcModel
    decreases files.len(),
{
    if files.len() == 0 {
        spec_builder_new()
    } else {
        spec_builder_add(spec_builder_with(files.drop_last()), files.last().0, files.last().1)
    }
}

/// The entries of the files, in order.
pub open spec fn spec_file_entries_of(files: Seq<(Seq<char>, Seq<u8>)>) -> Seq<FileEntryModel> {
    files.map_values(|f: (Seq<char>, Seq<u8>)| spec_root_file_entry(f.0, f.1))
}

/// The shape of a built archive: the root node counting every entry, the
/// files in order, then "." and "..".
pub proof fn lemma_builder_shape(files: Seq<(Seq<char>, Seq<u8>)>)
    requires
        files.len() < 0xFFFD,
    ensures
        spec_builder_with(files).nodes == seq![spec_root_node((2 + files.len()) as u16)],
        spec_builder_with(files).file_entries == spec_file_entries_of(files) + seq![
            spec_root_dir_entry("."@, 0),
            spec_root_dir_entry(".."@, 0xFFFF_FFFF),
        ],
    decreases files.len(),
{
    if files.len() == 0 {
        assert(spec_file_entries_of(files) =~= Seq::<FileEntryModel>::empty());
        assert(spec_builder_with(files).file_entries =~= spec_file_entries_of(files) + seq![
            spec_root_dir_entry("."@, 0),
            spec_root_dir_entry(".."@, 0xFFFF_FFFF),
        ]);
    } else {
        let dl = files.drop_last();
        lemma_builder_shape(dl);
        let b = spec_builder_with(dl);
        assert(spec_file_entries_of(files) =~= spec_file_entries_of(dl).push(
            spec_root_file_entry(files.last().0, files.last().1),
        ));
        assert(spec_builder_with(files).nodes =~= seq![spec_root_node((2 + files.len()) as u16)]);
        assert(spec_builder_with(files).file_entries =~= spec_file_entries_of(files) + seq![
            spec_root_dir_entry("."@, 0),
            spec_root_dir_entry(".."@, 0xFFFF_FFFF),
        ]);
    }
}

/// The listing of a built archive, up to entry `k` among its files.
proof fn lemma_builder_listing_upto(files: Seq<(Seq<char>, Seq<u8>)>, k: int)
    requires
        files.len() < 0xFFFD,
        0 <= k <= files.len(),
    ensures
        spec_list_upto(spec_builder_with(files), k) == files.take(k).map_values(
            |f: (Seq<char>, Seq<u8>)| (f.0, spec_data_size(f.1.len())),
        ),
    decreases k,
{
    lemma_builder_shape(files);
    let r = spec_builder_with(files);
    if k == 0 {
        assert(files.take(0).map_values(|f: (Seq<char>, Seq<u8>)| (f.0, spec_data_size(f.1.len())))
            =~= Seq::<(Seq<char>, u32)>::empty());
    } else {
        lemma_builder_listing_upto(files, k - 1);
        let fe = r.file_entries[k - 1];
        assert(fe == spec_root_file_entry(files[k - 1].0, files[k - 1].1));
        assert(spec_node_path(r, 0) == Seq::<char>::empty());
        assert(spec_file_path(r, 0, fe.name) == fe.name);
        assert(files.take(k).map_values(|f: (Seq<char>, Seq<u8>)| (f.0, spec_data_size(f.1.len())))
            =~= files.take(k - 1).map_values(
            |f: (Seq<char>, Seq<u8>)| (f.0, spec_data_size(f.1.len())),
        ).push((files[k - 1].0, spec_data_size(files[k - 1].1.len()))));
    }
}

/// Law: an archive built from a list of files lists exactly those files,
/// under their own names at the root, with their sizes, in the order they
/// were added; and its links are sound, so listing it cannot fail.
pub proof fn lemma_builder_lists_files(files: Seq<(Seq<char>, Seq<u8>)>)
    requires
        files.len() < 0xFFFD,
    ensures
        spec_links_ok(spec_builder_with(files)),
        spec_list_files(spec_builder_with(files)) == files.map_values(
            |f: (Seq<char>, Seq<u8>)| (f.0, spec_data_size(f.1.len())),
        ),
{
    lemma_builder_shape(files);
    let r = spec_builder_with(files);
    let n = files.len() as int;
    lemma_builder_listing_upto(files, n);
    assert(files.take(n) =~= files);
    assert(r.file_entries.len() == n + 2);
    assert(r.file_entries[n].is_dir);
    assert(r.file_entries[n + 1].is_dir);
    assert(spec_list_upto(r, n + 2) == spec_list_upto(r, n + 1));
    assert(spec_list_upto(r, n + 1) == spec_list_upto(r, n));
    assert forall|f: int| 0 <= f < r.file_entries.len() && (#[trigger] r.file_entries[f]).parent_node_index is Some
        implies r.file_entries[f].parent_node_index->0 < r.nodes.len() by {
        if f < n {
            assert(r.file_entries[f] == spec_root_file_entry(files[f].0, files[f].1));
        }
    }
}

} // verus!
