//! RARC archive parsing.
//!
//! An archive is a 32-byte header, a data header that locates the node
//! list, the file-entry list and the string table, then the file data.
//! Nodes are directories; each owns a run of file entries. A directory
//! entry names the node it stands for, which is how paths are rebuilt.

use vstd::prelude::*;
use crate::utils::{read_u16_be, read_u32_be, spec_read_u16_be, spec_read_u32_be, copy_range};
use crate::text::{spec_utf8_lossy, utf8_lossy, push_char, push_str, str_eq, to_string};
use crate::formats::compression::yaz0::{spec_magic_yaz0, spec_yaz0_decompress, yaz0_decompress};

verus! {

/// A directory node, as plain values.
pub struct NodeModel {
    pub type_str: Seq<char>,
    pub name_offset: u32,
    pub name: Seq<char>,
    pub num_files: u16,
    pub first_file_index: u32,
    pub dir_entry_index: Option<usize>,
}

/// A file or directory entry, as plain values.
pub struct FileEntryModel {
    pub name: Seq<char>,
    pub is_dir: bool,
    pub node_index_for_dir: Option<u32>,
    pub parent_node_index: Option<usize>,
    pub data: Option<Seq<u8>>,
    pub data_size: u32,
}

/// An archive, as plain values.
pub struct RarcModel {
    pub nodes: Seq<NodeModel>,
    pub file_entries: Seq<FileEntryModel>,
}

/// A directory node of an archive.
pub struct Node {
    pub type_str: String,
    pub name_offset: u32,
    pub name: String,
    pub num_files: u16,
    pub first_file_index: u32,
    pub dir_entry_index: Option<usize>,
}

/// A file or directory entry of an archive.
pub struct FileEntry {
    pub name: String,
    pub is_dir: bool,
    pub node_index_for_dir: Option<u32>,
    pub parent_node_index: Option<usize>,
    pub data: Option<Vec<u8>>,
    pub data_size: u32,
}

/// A parsed archive.
pub struct Rarc {
    pub nodes: Vec<Node>,
    pub file_entries: Vec<FileEntry>,
}

impl View for Node {
    type V = NodeModel;

    open spec fn view(&self) -> NodeModel {
        NodeModel {
            type_str: self.type_str@,
            name_offset: self.name_offset,
            name: self.name@,
            num_files: self.num_files,
            first_file_index: self.first_file_index,
            dir_entry_index: self.dir_entry_index,
        }
    }
}

/// The bytes of an optional byte vector.
pub open spec fn opt_bytes_view(d: Option<Vec<u8>>) -> Option<Seq<u8>> {
    match d {
        Some(v) => Some(v@),
        None => None,
    }
}

impl View for FileEntry {
    type V = FileEntryModel;

    open spec fn view(&self) -> FileEntryModel {
        FileEntryModel {
            name: self.name@,
            is_dir: self.is_dir,
            node_index_for_dir: self.node_index_for_dir,
            parent_node_index: self.parent_node_index,
            data: opt_bytes_view(self.data),
            data_size: self.data_size,
        }
    }
}

/// The views of a list of nodes.
pub open spec fn nodes_view(v: Seq<Node>) -> Seq<NodeModel> {
    v.map_values(|n: Node| n@)
}

/// The views of a list of entries.
pub open spec fn entries_view(v: Seq<FileEntry>) -> Seq<FileEntryModel> {
    v.map_values(|e: FileEntry| e@)
}

impl View for Rarc {
    type V = RarcModel;

    open spec fn view(&self) -> RarcModel {
        RarcModel { nodes: nodes_view(self.nodes@), file_entries: entries_view(self.file_entries@) }
    }
}

/// "RARC".
pub open spec fn spec_magic_rarc() -> Seq<u8> {
    seq![0x52u8, 0x41, 0x52, 0x43]
}

/// Where the parts of an archive are, as absolute offsets.
pub struct HeaderOffsets {
    pub file_data_list_offset: u64,
    pub num_nodes: u64,
    pub node_list_offset: u64,
    pub total_num_file_entries: u64,
    pub file_entries_list_offset: u64,
    pub string_list_offset: u64,
}

/// The offsets the header gives: the data header sits where the main
/// header says (at 0x20 when it says 0) and must hold 32 bytes; the other
/// offsets are relative to it.
pub open spec fn spec_header_offsets(data: Seq<u8>) -> Option<HeaderOffsets> {
    if data.len() < 16 {
        None
    } else {
        let raw = spec_read_u32_be(data, 8);
        let dh: u64 = if raw == 0 { 0x20 } else { raw as u64 };
        if dh + 32 > data.len() {
            None
        } else {
            Some(
                HeaderOffsets {
                    file_data_list_offset: (spec_read_u32_be(data, 12) + dh) as u64,
                    num_nodes: spec_read_u32_be(data, dh as int) as u64,
                    node_list_offset: (spec_read_u32_be(data, dh + 4) + dh) as u64,
                    total_num_file_entries: spec_read_u32_be(data, dh + 8) as u64,
                    file_entries_list_offset: (spec_read_u32_be(data, dh + 12) + dh) as u64,
                    string_list_offset: (spec_read_u32_be(data, dh + 0x14) + dh) as u64,
                },
            )
        }
    }
}

/// Reads the header offsets.
fn parse_header_offsets(data: &[u8]) -> (res: Option<HeaderOffsets>)
    ensures
        res == spec_header_offsets(data@),
{
    if data.len() < 16 {
        return None;
    }
    let raw = read_u32_be(data, 8);
    let dh: u64 = if raw == 0 { 0x20 } else { raw as u64 };
    if dh + 32 > data.len() as u64 {
        return None;
    }
    let d = dh as usize;
    Some(
        HeaderOffsets {
            file_data_list_offset: read_u32_be(data, 12) as u64 + dh,
            num_nodes: read_u32_be(data, d) as u64,
            node_list_offset: read_u32_be(data, d + 4) as u64 + dh,
            total_num_file_entries: read_u32_be(data, d + 8) as u64,
            file_entries_list_offset: read_u32_be(data, d + 12) as u64 + dh,
            string_list_offset: read_u32_be(data, d + 0x14) as u64 + dh,
        },
    )
}

/// Where the zero-terminated string starting at `start` ends.
pub open spec fn spec_cstring_end(data: Seq<u8>, start: int) -> int
    decreases data.len() - start,
{
    if start >= data.len() || start < 0 || data[start] == 0 {
        start
    } else {
        spec_cstring_end(data, start + 1)
    }
}

/// The zero-terminated string at `start`, decoded leniently; nothing where
/// `start` is past the end.
pub open spec fn spec_read_cstring(data: Seq<u8>, start: int) -> Seq<char> {
    if start >= data.len() {
        Seq::empty()
    } else {
        spec_utf8_lossy(data.subrange(start, spec_cstring_end(data, start)))
    }
}

/// Reads a zero-terminated string.
pub(crate) fn read_cstring(data: &[u8], start: u64) -> (res: String)
    ensures
        res@ == spec_read_cstring(data@, start as int),
{
    if start >= data.len() as u64 {
        return String::new();
    }
    let s = start as usize;
    let mut end = s;
    while end < data.len() && data[end] != 0
        invariant
            s <= end <= data@.len(),
            s < data@.len(),
            spec_cstring_end(data@, end as int) == spec_cstring_end(data@, s as int),
        decreases data@.len() - end,
    {
        end = end + 1;
    }
    let bytes = copy_range(data, s, end);
    utf8_lossy(bytes.as_slice())
}

/// The node stored at list position `i`.
pub open spec fn spec_node_at(data: Seq<u8>, h: HeaderOffsets, i: int) -> NodeModel {
    let off = h.node_list_offset + 16 * i;
    NodeModel {
        type_str: spec_utf8_lossy(data.subrange(off, off + 4)),
        name_offset: spec_read_u32_be(data, off + 4),
        name: spec_read_cstring(data, h.string_list_offset + spec_read_u32_be(data, off + 4)),
        num_files: spec_read_u16_be(data, off + 10),
        first_file_index: spec_read_u32_be(data, off + 12),
        dir_entry_index: None,
    }
}

/// The nodes from list position `i` on, up to the declared count or the
/// first one that does not fit in the data.
pub open spec fn spec_nodes_from(data: Seq<u8>, h: HeaderOffsets, i: nat) -> Seq<NodeModel>
    decreases h.num_nodes - i,
{
    if i >= h.num_nodes || h.node_list_offset + 16 * i + 16 > data.len() {
        Seq::empty()
    } else {
        seq![spec_node_at(data, h, i as int)] + spec_nodes_from(data, h, i + 1)
    }
}

/// Reads the node list.
fn parse_nodes(data: &[u8], h: &HeaderOffsets) -> (res: Vec<Node>)
    requires
        h.node_list_offset < 0x2_0000_0000,
        h.string_list_offset < 0x2_0000_0000,
        h.num_nodes < 0x1_0000_0000,
    ensures
        nodes_view(res@) == spec_nodes_from(data@, *h, 0),
{
    let mut nodes: Vec<Node> = Vec::new();
    let mut i: u64 = 0;
    assert(nodes_view(nodes@) =~= Seq::<NodeModel>::empty());
    while i < h.num_nodes && h.node_list_offset + 16 * i + 16 <= data.len() as u64
        invariant
            i <= h.num_nodes,
            h.node_list_offset < 0x2_0000_0000,
            h.string_list_offset < 0x2_0000_0000,
            h.num_nodes < 0x1_0000_0000,
            spec_nodes_from(data@, *h, 0) == nodes_view(nodes@) + spec_nodes_from(data@, *h, i as nat),
        decreases h.num_nodes - i,
    {
        let off = h.node_list_offset + 16 * i;
        let o = off as usize;
        let tb = copy_range(data, o, o + 4);
        let type_str = utf8_lossy(tb.as_slice());
        let name_offset = read_u32_be(data, o + 4);
        let name = read_cstring(data, h.string_list_offset + name_offset as u64);
        let num_files = read_u16_be(data, o + 10);
        let first_file_index = read_u32_be(data, o + 12);
        let node = Node { type_str, name_offset, name, num_files, first_file_index, dir_entry_index: None };
        let ghost before = nodes_view(nodes@);
        assert(node@ == spec_node_at(data@, *h, i as int));
        nodes.push(node);
        assert(nodes_view(nodes@) =~= before.push(spec_node_at(data@, *h, i as int)));
        assert(before + spec_nodes_from(data@, *h, i as nat) =~= nodes_view(nodes@) + spec_nodes_from(data@, *h, (i + 1) as nat));
        i = i + 1;
    }
    assert(nodes_view(nodes@) + Seq::<NodeModel>::empty() =~= nodes_view(nodes@));
    nodes
}

/// The entry stored at list position `i`, before parents are assigned. The
/// top byte of its second word is the type (bit 1 marks a directory) and
/// the low 24 bits the name offset; a directory's third word is its node
/// index, a file's is its data offset, and a file whose data runs past the
/// end has none.
pub open spec fn spec_entry_at(data: Seq<u8>, h: HeaderOffsets, i: int) -> FileEntryModel {
    let off = h.file_entries_list_offset + 20 * i;
    let tan = spec_read_u32_be(data, off + 4);
    let dovi = spec_read_u32_be(data, off + 8);
    let size = spec_read_u32_be(data, off + 12);
    let typ = (tan / 0x100_0000) as u8;
    let is_dir = (typ / 2) % 2 == 1;
    let abs = h.file_data_list_offset + dovi;
    FileEntryModel {
        name: spec_read_cstring(data, h.string_list_offset + tan % 0x100_0000),
        is_dir,
        node_index_for_dir: if is_dir { Some(dovi) } else { None },
        parent_node_index: None,
        data: if !is_dir && abs + size <= data.len() {
            Some(data.subrange(abs, abs + size))
        } else {
            None
        },
        data_size: size,
    }
}

/// The entries from list position `i` on, up to the declared count or the
/// first one that does not fit in the data.
pub open spec fn spec_entries_from(data: Seq<u8>, h: HeaderOffsets, i: nat) -> Seq<FileEntryModel>
    decreases h.total_num_file_entries - i,
{
    if i >= h.total_num_file_entries || h.file_entries_list_offset + 20 * i + 20 > data.len() {
        Seq::empty()
    } else {
        seq![spec_entry_at(data, h, i as int)] + spec_entries_from(data, h, i + 1)
    }
}

/// Reads the file-entry list.
fn parse_file_entries(data: &[u8], h: &HeaderOffsets) -> (res: Vec<FileEntry>)
    requires
        h.file_entries_list_offset < 0x2_0000_0000,
        h.string_list_offset < 0x2_0000_0000,
        h.file_data_list_offset < 0x2_0000_0000,
        h.total_num_file_entries < 0x1_0000_0000,
    ensures
        entries_view(res@) == spec_entries_from(data@, *h, 0),
{
    let mut entries: Vec<FileEntry> = Vec::new();
    let mut i: u64 = 0;
    assert(entries_view(entries@) =~= Seq::<FileEntryModel>::empty());
    while i < h.total_num_file_entries && h.file_entries_list_offset + 20 * i + 20 <= data.len() as u64
        invariant
            i <= h.total_num_file_entries,
            h.file_entries_list_offset < 0x2_0000_0000,
            h.string_list_offset < 0x2_0000_0000,
            h.file_data_list_offset < 0x2_0000_0000,
            h.total_num_file_entries < 0x1_0000_0000,
            spec_entries_from(data@, *h, 0) == entries_view(entries@) + spec_entries_from(
                data@,
                *h,
                i as nat,
            ),
        decreases h.total_num_file_entries - i,
    {
        let o = (h.file_entries_list_offset + 20 * i) as usize;
        let tan = read_u32_be(data, o + 4);
        let dovi = read_u32_be(data, o + 8);
        let size = read_u32_be(data, o + 12);
        let typ = (tan / 0x100_0000) as u8;
        let is_dir = (typ / 2) % 2 == 1;
        let name = read_cstring(data, h.string_list_offset + (tan % 0x100_0000) as u64);
        let abs = h.file_data_list_offset + dovi as u64;
        let (node_index_for_dir, file_data) = if is_dir {
            (Some(dovi), None)
        } else if abs + size as u64 <= data.len() as u64 {
            (None, Some(copy_range(data, abs as usize, (abs + size as u64) as usize)))
        } else {
            (None, None)
        };
        let entry = FileEntry {
            name,
            is_dir,
            node_index_for_dir,
            parent_node_index: None,
            data: file_data,
            data_size: size,
        };
        let ghost before = entries_view(entries@);
        assert(entry@ == spec_entry_at(data@, *h, i as int));
        entries.push(entry);
        assert(entries_view(entries@) =~= before.push(spec_entry_at(data@, *h, i as int)));
        assert(before + spec_entries_from(data@, *h, i as nat) =~= entries_view(entries@)
            + spec_entries_from(data@, *h, (i + 1) as nat));
        i = i + 1;
    }
    assert(entries_view(entries@) + Seq::<FileEntryModel>::empty() =~= entries_view(entries@));
    entries
}

/// The node whose run of entries holds entry `f`; where runs overlap, the
/// last such node.
pub open spec fn spec_parent_of(nodes: Seq<NodeModel>, f: int) -> Option<usize>
    decreases nodes.len(),
{
    if nodes.len() == 0 {
        None
    } else {
        let n = nodes.last();
        if n.first_file_index <= f < n.first_file_index + n.num_files {
            Some((nodes.len() - 1) as usize)
        } else {
            spec_parent_of(nodes.drop_last(), f)
        }
    }
}

/// `e` with its parent set to `p`.
pub open spec fn spec_with_parent(e: FileEntryModel, p: Option<usize>) -> FileEntryModel {
    FileEntryModel {
        name: e.name,
        is_dir: e.is_dir,
        node_index_for_dir: e.node_index_for_dir,
        parent_node_index: p,
        data: e.data,
        data_size: e.data_size,
    }
}

/// Gives each entry the node whose run holds it.
fn assign_parent_node_indices(nodes: &Vec<Node>, file_entries: &mut Vec<FileEntry>)
    requires
        forall|f: int|
            0 <= f < old(file_entries)@.len() ==> (#[trigger] old(
                file_entries,
            )@[f]).parent_node_index is None,
    ensures
        entries_view(final(file_entries)@) == Seq::new(
            old(file_entries)@.len(),
            |f: int|
                spec_with_parent(old(file_entries)@[f]@, spec_parent_of(nodes_view(nodes@), f)),
        ),
{
    let ghost ns = nodes_view(nodes@);
    let ghost orig = old(file_entries)@;
    let mut j: usize = 0;
    assert(ns.take(0) =~= Seq::<NodeModel>::empty());
    while j < nodes.len()
        invariant
            j <= nodes@.len(),
            ns == nodes_view(nodes@),
            file_entries@.len() == orig.len(),
            orig == old(file_entries)@,
            forall|f: int|
                0 <= f < orig.len() ==> (#[trigger] orig[f]).parent_node_index is None,
            forall|f: int|
                0 <= f < orig.len() ==> #[trigger] file_entries@[f]@ == spec_with_parent(
                    orig[f]@,
                    spec_parent_of(ns.take(j as int), f),
                ),
        decreases nodes@.len() - j,
    {
        assert(ns[j as int] == nodes@[j as int]@);
        let start = nodes[j].first_file_index as u64;
        let end = start + nodes[j].num_files as u64;
        let stop = if end < file_entries.len() as u64 {
            end
        } else {
            file_entries.len() as u64
        };
        let mut fi = start;
        assert(ns.take(j + 1).drop_last() =~= ns.take(j as int));
        assert(ns.take(j + 1).last() == ns[j as int]);
        while fi < stop
            invariant
                start <= fi,
                fi <= stop || fi == start,
                stop <= file_entries@.len(),
                stop == if end < orig.len() { end } else { orig.len() as u64 },
                start == ns[j as int].first_file_index,
                end == start + ns[j as int].num_files,
                file_entries@.len() == orig.len(),
                ns == nodes_view(nodes@),
                j < nodes@.len(),
                forall|f: int|
                    0 <= f < orig.len() ==> #[trigger] file_entries@[f]@ == spec_with_parent(
                        orig[f]@,
                        if start <= f < fi {
                            Some(j)
                        } else {
                            spec_parent_of(ns.take(j as int), f)
                        },
                    ),
            decreases stop - fi,
        {
            let len = file_entries.len();
            assert(fi < len);
            let k = fi as usize;
            let ghost prev = file_entries@;
            file_entries[k].parent_node_index = Some(j);
            assert forall|f: int| 0 <= f < orig.len() && f != k implies file_entries@[f]
                == prev[f] by {}
            assert(prev[k as int]@.name == orig[k as int]@.name);
            assert(file_entries@[k as int]@ == spec_with_parent(orig[k as int]@, Some(j)));
            fi = fi + 1;
            assert forall|f: int| 0 <= f < orig.len() implies #[trigger] file_entries@[f]@ == spec_with_parent(
                        orig[f]@,
                        if start <= f < fi {
                            Some(j)
                        } else {
                            spec_parent_of(ns.take(j as int), f)
                        },
                    ) by {
                if f != k {
                    assert(file_entries@[f] == prev[f]);
                }
            }
        }
        assert forall|f: int| 0 <= f < orig.len() implies #[trigger] file_entries@[f]@
            == spec_with_parent(orig[f]@, spec_parent_of(ns.take(j + 1), f)) by {
            assert(ns.take(j + 1).len() == j + 1);
            assert(ns.take(j + 1).last().first_file_index == start);
            assert(ns.take(j + 1).last().num_files + start == end);
        }
        j = j + 1;
    }
    assert(ns.take(j as int) =~= ns);
    assert(entries_view(file_entries@) =~= Seq::new(
        orig.len(),
        |f: int| spec_with_parent(orig[f]@, spec_parent_of(ns, f)),
    ));
}

/// The last directory entry that names node `n` (of `count` nodes); an
/// entry naming no node, or the all-ones index, names none.
pub open spec fn spec_dir_entry_of(entries: Seq<FileEntryModel>, n: int, count: nat) -> Option<
    usize,
>
    decreases entries.len(),
{
    if entries.len() == 0 {
        None
    } else {
        let e = entries.last();
        if e.is_dir && e.node_index_for_dir is Some && (e.node_index_for_dir->0 as int) < count
            && e.node_index_for_dir->0 != 0xFFFF_FFFF && e.node_index_for_dir->0 as int == n {
            Some((entries.len() - 1) as usize)
        } else {
            spec_dir_entry_of(entries.drop_last(), n, count)
        }
    }
}

/// `nd` with its directory entry set to `d`.
pub open spec fn spec_with_dir_entry(nd: NodeModel, d: Option<usize>) -> NodeModel {
    NodeModel {
        type_str: nd.type_str,
        name_offset: nd.name_offset,
        name: nd.name,
        num_files: nd.num_files,
        first_file_index: nd.first_file_index,
        dir_entry_index: d,
    }
}

/// Gives each node the directory entry that names it.
fn link_directory_entries(nodes: &mut Vec<Node>, file_entries: &Vec<FileEntry>)
    requires
        forall|j: int|
            0 <= j < old(nodes)@.len() ==> (#[trigger] old(nodes)@[j]).dir_entry_index is None,
    ensures
        nodes_view(final(nodes)@) == Seq::new(
            old(nodes)@.len(),
            |j: int|
                spec_with_dir_entry(
                    old(nodes)@[j]@,
                    spec_dir_entry_of(entries_view(file_entries@), j, old(nodes)@.len()),
                ),
        ),
{
    let ghost es = entries_view(file_entries@);
    let ghost orig = old(nodes)@;
    let count = nodes.len();
    let mut i: usize = 0;
    assert(es.take(0) =~= Seq::<FileEntryModel>::empty());
    while i < file_entries.len()
        invariant
            i <= file_entries@.len(),
            es == entries_view(file_entries@),
            nodes@.len() == orig.len(),
            count == orig.len(),
            orig == old(nodes)@,
            forall|j: int| 0 <= j < orig.len() ==> (#[trigger] orig[j]).dir_entry_index is None,
            forall|j: int|
                0 <= j < orig.len() ==> #[trigger] nodes@[j]@ == spec_with_dir_entry(
                    orig[j]@,
                    spec_dir_entry_of(es.take(i as int), j, count as nat),
                ),
        decreases file_entries@.len() - i,
    {
        let fe = &file_entries[i];
        assert(es[i as int] == fe@);
        assert(es.take(i + 1).drop_last() =~= es.take(i as int));
        assert(es.take(i + 1).last() == es[i as int]);
        let ghost prev = nodes@;
        if fe.is_dir {
            match fe.node_index_for_dir {
                Some(n) => {
                    if (n as u64) < (count as u64) && n != 0xFFFF_FFFF {
                        let k = n as usize;
                        nodes[k].dir_entry_index = Some(i);
                        assert forall|j: int| 0 <= j < orig.len() && j != k implies nodes@[j]
                            == prev[j] by {}
                        assert(prev[k as int]@.name == orig[k as int]@.name);
                    }
                },
                None => {},
            }
        }
        assert forall|j: int| 0 <= j < orig.len() implies #[trigger] nodes@[j]@ == spec_with_dir_entry(
            orig[j]@,
            spec_dir_entry_of(es.take(i + 1), j, count as nat),
        ) by {
            assert(prev[j]@ == spec_with_dir_entry(orig[j]@, spec_dir_entry_of(es.take(i as int), j, count as nat)));
        }
        i = i + 1;
    }
    assert(es.take(i as int) =~= es);
    assert(nodes_view(nodes@) =~= Seq::new(
        orig.len(),
        |j: int| spec_with_dir_entry(orig[j]@, spec_dir_entry_of(es, j, orig.len())),
    ));
}

/// An uncompressed archive: the nodes, then the entries with their parent
/// nodes, then the nodes with their directory entries.
pub open spec fn spec_parse_plain(data: Seq<u8>) -> Option<RarcModel> {
    if data.len() < 4 || data.subrange(0, 4) != spec_magic_rarc() {
        None
    } else {
        match spec_header_offsets(data) {
            None => None,
            Some(h) => {
                let n0 = spec_nodes_from(data, h, 0);
                let e0 = spec_entries_from(data, h, 0);
                let es = Seq::new(
                    e0.len(),
                    |f: int| spec_with_parent(e0[f], spec_parent_of(n0, f)),
                );
                let ns = Seq::new(
                    n0.len(),
                    |j: int| spec_with_dir_entry(n0[j], spec_dir_entry_of(es, j, n0.len())),
                );
                Some(RarcModel { nodes: ns, file_entries: es })
            },
        }
    }
}

/// An archive as stored: Yaz0-compressed data is decompressed first.
pub open spec fn spec_parse_rarc(data: Seq<u8>) -> Option<RarcModel> {
    if data.len() < 4 {
        None
    } else if data.subrange(0, 4) == spec_magic_yaz0() {
        match spec_yaz0_decompress(data) {
            None => None,
            Some(d) => spec_parse_plain(d),
        }
    } else {
        spec_parse_plain(data)
    }
}

/// Whether the first four bytes are `a b c d`.
fn starts_with4(data: &[u8], a: u8, b: u8, c: u8, d: u8) -> (res: bool)
    requires
        data@.len() >= 4,
    ensures
        res == (data@.subrange(0, 4) == seq![a, b, c, d]),
{
    let r = data[0] == a && data[1] == b && data[2] == c && data[3] == d;
    proof {
        if r {
            assert(data@.subrange(0, 4) =~= seq![a, b, c, d]);
        } else if data@.subrange(0, 4) == seq![a, b, c, d] {
            assert(data@.subrange(0, 4)[0] == a && data@.subrange(0, 4)[1] == b
                && data@.subrange(0, 4)[2] == c && data@.subrange(0, 4)[3] == d);
        }
    }
    r
}

/// Parses an uncompressed archive.
fn parse_plain(data: &[u8]) -> (res: Option<Rarc>)
    ensures
        match res {
            Some(r) => spec_parse_plain(data@) == Some(r@) && spec_links_ok(r@),
            None => spec_parse_plain(data@) is None,
        },
{
    if data.len() < 4 || !starts_with4(data, 0x52, 0x41, 0x52, 0x43) {
        return None;
    }
    let h = match parse_header_offsets(data) {
        Some(h) => h,
        None => {
            return None;
        },
    };
    let mut nodes = parse_nodes(data, &h);
    let mut file_entries = parse_file_entries(data, &h);
    let ghost n0 = nodes_view(nodes@);
    let ghost e0 = entries_view(file_entries@);
    assert forall|f: int| 0 <= f < file_entries@.len() implies (#[trigger] file_entries@[f]).parent_node_index is None by {
        assert(e0[f] == file_entries@[f]@);
        lemma_entries_from_no_parent(data@, h, 0, f);
    }
    assign_parent_node_indices(&nodes, &mut file_entries);
    assert forall|j: int| 0 <= j < nodes@.len() implies (#[trigger] nodes@[j]).dir_entry_index is None by {
        assert(n0[j] == nodes@[j]@);
        lemma_nodes_from_no_dir(data@, h, 0, j);
    }
    link_directory_entries(&mut nodes, &file_entries);
    let r = Rarc { nodes, file_entries };
    proof {
        let es = Seq::new(e0.len(), |f: int| spec_with_parent(e0[f], spec_parent_of(n0, f)));
        assert(entries_view(r.file_entries@) =~= es);
        assert(r@.nodes =~= Seq::new(
            n0.len(),
            |j: int| spec_with_dir_entry(n0[j], spec_dir_entry_of(es, j, n0.len())),
        ));
        assert forall|f: int| 0 <= f < es.len() && (#[trigger] es[f]).parent_node_index is Some
            implies es[f].parent_node_index->0 < n0.len() by {
            lemma_parent_of_bound(n0, f);
        }
        assert forall|j: int| 0 <= j < n0.len() && (#[trigger] r@.nodes[j]).dir_entry_index is Some
            implies r@.nodes[j].dir_entry_index->0 < es.len() by {
            lemma_dir_entry_of_bound(es, j, n0.len());
        }
    }
    Some(r)
}

/// Freshly read entries have no parent yet.
proof fn lemma_entries_from_no_parent(data: Seq<u8>, h: HeaderOffsets, i: nat, f: int)
    requires
        0 <= f < spec_entries_from(data, h, i).len(),
    ensures
        spec_entries_from(data, h, i)[f].parent_node_index is None,
    decreases h.total_num_file_entries - i,
{
    if f > 0 {
        lemma_entries_from_no_parent(data, h, i + 1, f - 1);
    }
}

/// Every directory entry that the reader reads names a node.
pub proof fn lemma_entries_from_dir_node(data: Seq<u8>, h: HeaderOffsets, i: nat, f: int)
    requires
        0 <= f < spec_entries_from(data, h, i).len(),
    ensures
        (spec_entries_from(data, h, i)[f]).node_index_for_dir is Some == (spec_entries_from(data, h, i)[f]).is_dir,
    decreases h.total_num_file_entries - i,
{
    if f > 0 {
        lemma_entries_from_dir_node(data, h, i + 1, f - 1);
    }
}

/// Freshly read nodes have no directory entry yet.
proof fn lemma_nodes_from_no_dir(data: Seq<u8>, h: HeaderOffsets, i: nat, j: int)
    requires
        0 <= j < spec_nodes_from(data, h, i).len(),
    ensures
        spec_nodes_from(data, h, i)[j].dir_entry_index is None,
    decreases h.num_nodes - i,
{
    if j > 0 {
        lemma_nodes_from_no_dir(data, h, i + 1, j - 1);
    }
}

impl Rarc {
    /// Parses an archive, decompressing it first when it is Yaz0 data.
    pub fn parse(data: Vec<u8>) -> (res: Option<Rarc>)
        ensures
            match res {
                Some(r) => spec_parse_rarc(data@) == Some(r@) && spec_links_ok(r@),
                None => spec_parse_rarc(data@) is None,
            },
    {
        if data.len() < 4 {
            return None;
        }
        if starts_with4(data.as_slice(), 0x59, 0x61, 0x7a, 0x30) {
            match yaz0_decompress(data.as_slice()) {
                Some(d) => parse_plain(d.as_slice()),
                None => None,
            }
        } else {
            parse_plain(data.as_slice())
        }
    }
}

/// The links between nodes and entries stay inside the archive: a node's
/// directory entry is an entry, an entry's parent is a node.
pub open spec fn spec_links_ok(r: RarcModel) -> bool {
    &&& forall|j: int|
        0 <= j < r.nodes.len() && (#[trigger] r.nodes[j]).dir_entry_index is Some
            ==> r.nodes[j].dir_entry_index->0 < r.file_entries.len()
    &&& forall|f: int|
        0 <= f < r.file_entries.len() && (#[trigger] r.file_entries[f]).parent_node_index is Some
            ==> r.file_entries[f].parent_node_index->0 < r.nodes.len()
}

/// A parent found among `nodes` is one of them.
pub proof fn lemma_parent_of_bound(nodes: Seq<NodeModel>, f: int)
    ensures
        spec_parent_of(nodes, f) matches Some(p) ==> p < nodes.len(),
    decreases nodes.len(),
{
    if nodes.len() > 0 {
        lemma_parent_of_bound(nodes.drop_last(), f);
    }
}

/// A directory entry found among `entries` is one of them.
pub proof fn lemma_dir_entry_of_bound(entries: Seq<FileEntryModel>, n: int, count: nat)
    ensures
        spec_dir_entry_of(entries, n, count) matches Some(d) ==> d < entries.len(),
    decreases entries.len(),
{
    if entries.len() > 0 {
        lemma_dir_entry_of_bound(entries.drop_last(), n, count);
    }
}

/// The names met walking up from node `curr`, nearest first: each node's
/// directory entry gives its name ("." and ".." are skipped) and its
/// parent; the walk stops at the root, at a node that is its own parent,
/// where a link is missing, or when `steps` moves are spent.
pub open spec fn spec_path_parts(r: RarcModel, curr: int, steps: nat) -> Seq<Seq<char>>
    decreases steps,
{
    match r.nodes[curr].dir_entry_index {
        None => Seq::empty(),
        Some(d) => {
            let e = r.file_entries[d as int];
            let mine = if e.name != "."@ && e.name != ".."@ {
                seq![e.name]
            } else {
                Seq::empty()
            };
            match e.parent_node_index {
                Some(p) => if p as int == curr || p == 0 || steps == 0 {
                    mine
                } else {
                    mine + spec_path_parts(r, p as int, (steps - 1) as nat)
                },
                None => mine,
            }
        },
    }
}

/// Parts joined by a separator.
pub open spec fn spec_join(parts: Seq<Seq<char>>, sep: char) -> Seq<char>
    decreases parts.len(),
{
    if parts.len() == 0 {
        Seq::empty()
    } else if parts.len() == 1 {
        parts[0]
    } else {
        spec_join(parts.drop_last(), sep) + seq![sep] + parts.last()
    }
}

/// The path of a node: empty for the root, else the names from the top
/// down joined by "/".
pub open spec fn spec_node_path(r: RarcModel, idx: int) -> Seq<char> {
    if idx == 0 {
        Seq::empty()
    } else {
        spec_join(spec_path_parts(r, idx, r.nodes.len()).reverse(), '/')
    }
}

/// The path of a file under its parent node.
pub open spec fn spec_file_path(r: RarcModel, parent: int, name: Seq<char>) -> Seq<char> {
    let np = spec_node_path(r, parent);
    if np.len() == 0 {
        name
    } else {
        np + seq!['/'] + name
    }
}

/// The (path, size) of each file among the first `k` entries that has a
/// parent node.
pub open spec fn spec_list_upto(r: RarcModel, k: int) -> Seq<(Seq<char>, u32)>
    decreases k,
{
    if k <= 0 {
        Seq::empty()
    } else {
        let prev = spec_list_upto(r, k - 1);
        let fe = r.file_entries[k - 1];
        if fe.is_dir {
            prev
        } else {
            match fe.parent_node_index {
                Some(p) => prev.push((spec_file_path(r, p as int, fe.name), fe.data_size)),
                None => prev,
            }
        }
    }
}

/// The (path, size) of every file of an archive, in entry order.
pub open spec fn spec_list_files(r: RarcModel) -> Seq<(Seq<char>, u32)> {
    spec_list_upto(r, r.file_entries.len() as int)
}

/// The views of a list of (path, size) pairs.
pub open spec fn listing_view(v: Seq<(String, u32)>) -> Seq<(Seq<char>, u32)> {
    v.map_values(|x: (String, u32)| (x.0@, x.1))
}

/// The views of a list of strings.
pub open spec fn strings_view(v: Seq<String>) -> Seq<Seq<char>> {
    v.map_values(|x: String| x@)
}

/// Joins strings with "/".
fn join_slash(parts: &Vec<String>) -> (res: String)
    ensures
        res@ == spec_join(strings_view(parts@), '/'),
{
    let ghost pv = strings_view(parts@);
    let mut out = String::new();
    let mut k: usize = 0;
    assert(pv.take(0) =~= Seq::<Seq<char>>::empty());
    while k < parts.len()
        invariant
            k <= parts@.len(),
            pv == strings_view(parts@),
            out@ == spec_join(pv.take(k as int), '/'),
        decreases parts@.len() - k,
    {
        assert(pv.take(k + 1).drop_last() =~= pv.take(k as int));
        assert(pv[k as int] == parts@[k as int]@);
        if k > 0 {
            push_char(&mut out, '/');
        }
        push_str(&mut out, parts[k].as_str());
        proof {
            if k == 0 {
                assert(out@ =~= pv.take(1)[0]);
            } else {
                assert(out@ =~= spec_join(pv.take(k as int), '/') + seq!['/'] + pv.take(k + 1).last());
            }
        }
        k = k + 1;
    }
    assert(pv.take(k as int) =~= pv);
    out
}

impl Rarc {
    /// The path of a node, built by following directory entries upwards;
    /// empty for the root.
    pub fn node_path(&self, node_idx: usize) -> (res: String)
        requires
            node_idx == 0 || node_idx < self@.nodes.len(),
            spec_links_ok(self@),
        ensures
            res@ == spec_node_path(self@, node_idx as int),
    {
        if node_idx == 0 {
            return String::new();
        }
        let ghost r = self@;
        let ghost total = spec_path_parts(r, node_idx as int, r.nodes.len());
        let mut parts: Vec<String> = Vec::new();
        let mut curr = node_idx;
        let mut steps = self.nodes.len();
        assert(strings_view(parts@) =~= Seq::<Seq<char>>::empty());
        loop
            invariant_except_break
                curr < self@.nodes.len(),
                r == self@,
                spec_links_ok(r),
                total == strings_view(parts@) + spec_path_parts(r, curr as int, steps as nat),
            ensures
                total == strings_view(parts@),
            decreases steps,
        {
            let node = &self.nodes[curr];
            assert(r.nodes[curr as int] == node@);
            let ghost here = spec_path_parts(r, curr as int, steps as nat);
            match node.dir_entry_index {
                None => {
                    assert(total =~= strings_view(parts@));
                    break;
                },
                Some(d) => {
                    assert(d < self@.file_entries.len());
                    let e = &self.file_entries[d];
                    assert(r.file_entries[d as int] == e@);
                    let ghost before = strings_view(parts@);
                    let keep = !str_eq(e.name.as_str(), ".") && !str_eq(e.name.as_str(), "..");
                    if keep {
                        parts.push(to_string(e.name.as_str()));
                        assert(strings_view(parts@) =~= before + seq![e@.name]);
                    } else {
                        assert(strings_view(parts@) =~= before + Seq::<Seq<char>>::empty());
                    }
                    match e.parent_node_index {
                        Some(p) => {
                            if p == curr || p == 0 || steps == 0 {
                                assert(total =~= strings_view(parts@));
                                break;
                            }
                            assert(p < self@.nodes.len());
                            assert(total =~= strings_view(parts@) + spec_path_parts(r, p as int, (steps - 1) as nat));
                            curr = p;
                            steps = steps - 1;
                        },
                        None => {
                            assert(total =~= strings_view(parts@));
                            break;
                        },
                    }
                },
            }
        }
        let mut rev: Vec<String> = Vec::new();
        let mut k = parts.len();
        let ghost pv = strings_view(parts@);
        assert(strings_view(rev@) =~= pv.reverse().take(0));
        while k > 0
            invariant
                k <= parts@.len(),
                pv == strings_view(parts@),
                strings_view(rev@) == pv.reverse().take((pv.len() - k) as int),
            decreases k,
        {
            k = k - 1;
            let ghost before = strings_view(rev@);
            assert(pv[k as int] == parts@[k as int]@);
            rev.push(to_string(parts[k].as_str()));
            assert(strings_view(rev@) =~= before.push(pv[k as int]));
            assert(pv.reverse()[(pv.len() - k - 1) as int] == pv[k as int]);
            assert(strings_view(rev@) =~= pv.reverse().take((pv.len() - k) as int));
        }
        assert(pv.reverse().take(pv.len() as int) =~= pv.reverse());
        join_slash(&rev)
    }

    /// The (path, size) of every regular file that has a parent node, in
    /// entry order.
    pub fn list_files(&self) -> (res: Vec<(String, u32)>)
        requires
            spec_links_ok(self@),
        ensures
            listing_view(res@) == spec_list_files(self@),
    {
        let ghost r = self@;
        let mut out: Vec<(String, u32)> = Vec::new();
        let mut k: usize = 0;
        assert(listing_view(out@) =~= spec_list_upto(r, 0));
        while k < self.file_entries.len()
            invariant
                k <= self@.file_entries.len(),
                r == self@,
                spec_links_ok(r),
                listing_view(out@) == spec_list_upto(r, k as int),
            decreases self@.file_entries.len() - k,
        {
            let fe = &self.file_entries[k];
            assert(r.file_entries[k as int] == fe@);
            let ghost before = listing_view(out@);
            if !fe.is_dir {
                match fe.parent_node_index {
                    Some(p) => {
                        assert(p < self@.nodes.len());
                        let np = self.node_path(p);
                        let full = if np.as_str().is_empty() {
                            to_string(fe.name.as_str())
                        } else {
                            let mut f = np;
                            push_char(&mut f, '/');
                            push_str(&mut f, fe.name.as_str());
                            assert(f@ =~= spec_node_path(r, p as int) + seq!['/'] + fe@.name);
                            f
                        };
                        assert(full@ == spec_file_path(r, p as int, fe@.name));
                        let ghost outv = out@;
                        out.push((full, fe.data_size));
                        assert(out@ == outv.push((full, fe.data_size)));
                        assert(listing_view(out@) =~= before.push((spec_file_path(r, p as int, fe@.name), fe.data_size)));
                    },
                    None => {},
                }
            }
            k = k + 1;
        }
        out
    }
}

} // verus!
