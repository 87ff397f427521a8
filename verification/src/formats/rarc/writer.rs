//! RARC archive writing.
//!
//! The writer lays an archive out afresh: header, data header, node
//! records, entry records, a string table that opens with "." and "..",
//! padding to a 32-byte boundary, then the data of every file in entry
//! order.

use vstd::prelude::*;
use vstd::string::*;
use crate::formats::rarc::parser::{
    Rarc, RarcModel, NodeModel, FileEntryModel, Node, FileEntry, nodes_view, entries_view,
};
use crate::utils::{
    spec_u16_be_bytes, spec_u32_be_bytes, spec_u32_of, spec_u16_of, spec_zeros, push_u32_be,
    push_u16_be, push_zeros, extend_bytes, low32, low16,
};
use crate::text::{str_eq, to_string};
use crate::formats::compression::yaz0::{spec_yaz0_compress, yaz0_compress};

verus! {

/// The RARC name hash: each character's code added to three times the
/// hash so far, kept to 16 bits.
pub open spec fn spec_name_hash(s: Seq<char>) -> u16
    decreases s.len(),
{
    if s.len() == 0 {
        0
    } else {
        ((spec_name_hash(s.drop_last()) as int * 3 + s.last() as int) % 0x1_0000) as u16
    }
}

/// The RARC name hash of a string.
pub fn rarc_name_hash(name: &str) -> (h: u16)
    ensures
        h == spec_name_hash(name@),
{
    let n = name.unicode_len();
    let mut hash: u32 = 0;
    let mut i: usize = 0;
    assert(name@.take(0) =~= Seq::<char>::empty());
    while i < n
        invariant
            i <= n,
            n == name@.len(),
            hash < 0x1_0000,
            hash == spec_name_hash(name@.take(i as int)),
        decreases n - i,
    {
        let c = name.get_char(i);
        assert(name@.take(i + 1).drop_last() =~= name@.take(i as int));
        assert(name@.take(i + 1).last() == c);
        let code = c as u32;
        assert(code <= 0x10ffff) by {
            vstd::utf8::char_is_scalar(c);
        }
        hash = (hash * 3 + code) % 0x1_0000;
        i = i + 1;
    }
    assert(name@.take(n as int) =~= name@);
    hash as u16
}

/// The four type bytes of a node: the first four bytes of the type name,
/// padded with spaces.
pub open spec fn spec_type_bytes(t: Seq<char>) -> Seq<u8> {
    let b = vstd::utf8::encode_utf8(t);
    Seq::new(4, |i: int| if i < b.len() { b[i] } else { 0x20u8 })
}

/// The four type bytes of a node name.
fn type_bytes(t: &str) -> (res: [u8; 4])
    ensures
        res@ == spec_type_bytes(t@),
{
    let b = t.as_bytes();
    let mut out: [u8; 4] = [0x20u8, 0x20u8, 0x20u8, 0x20u8];
    let mut i: usize = 0;
    while i < 4 && i < b.len()
        invariant
            i <= 4,
            i <= b@.len(),
            b@ == vstd::utf8::encode_utf8(t@),
            out@.len() == 4,
            forall|k: int| 0 <= k < i ==> out@[k] == b@[k],
            forall|k: int| i <= k < 4 ==> out@[k] == 0x20u8,
        decreases 4 - i,
    {
        out[i] = b[i];
        i = i + 1;
    }
    assert(out@ =~= spec_type_bytes(t@));
    out
}

/// A string table as plain values: each stored name with its offset, and
/// the table bytes.
pub type TableModel = (Seq<(Seq<char>, nat)>, Seq<u8>);

/// The offset of a stored name.
pub open spec fn spec_table_lookup(names: Seq<(Seq<char>, nat)>, s: Seq<char>) -> Option<nat>
    decreases names.len(),
{
    if names.len() == 0 {
        None
    } else if names.last().0 == s {
        Some(names.last().1)
    } else {
        spec_table_lookup(names.drop_last(), s)
    }
}

/// Adds a name to a table: a name already there is kept once; a new one
/// goes at the end, zero-terminated.
pub open spec fn spec_table_add(t: TableModel, s: Seq<char>) -> TableModel {
    match spec_table_lookup(t.0, s) {
        Some(_) => t,
        None => (t.0.push((s, t.1.len())), t.1 + vstd::utf8::encode_utf8(s) + seq![0u8]),
    }
}

/// The table of `names`, after "." and "..".
pub open spec fn spec_table_of(names: Seq<Seq<char>>) -> TableModel
    decreases names.len(),
{
    if names.len() == 0 {
        spec_table_add(
            spec_table_add((Seq::empty(), Seq::empty()), seq!['.']),
            seq!['.', '.'],
        )
    } else {
        spec_table_add(spec_table_of(names.drop_last()), names.last())
    }
}

/// A string table under construction.
struct StringTable {
    names: Vec<(String, usize)>,
    data: Vec<u8>,
}

impl StringTable {
    spec fn model(&self) -> TableModel {
        (self.names@.map_values(|x: (String, usize)| (x.0@, x.1 as nat)), self.data@)
    }

    /// The offset of a stored name.
    fn get(&self, s: &str) -> (res: Option<usize>)
        ensures
            match res {
                Some(o) => spec_table_lookup(self.model().0, s@) == Some(o as nat),
                None => spec_table_lookup(self.model().0, s@) is None,
            },
    {
        let ghost names = self.model().0;
        let mut k = self.names.len();
        assert(names.take(k as int) =~= names);
        while k > 0
            invariant
                k <= self.names@.len(),
                names == self.model().0,
                spec_table_lookup(names, s@) == spec_table_lookup(names.take(k as int), s@),
            decreases k,
        {
            assert(names.take(k as int).drop_last() =~= names.take(k - 1));
            assert(names[k - 1] == (self.names@[k - 1].0@, self.names@[k - 1].1 as nat));
            if str_eq(self.names[k - 1].0.as_str(), s) {
                return Some(self.names[k - 1].1);
            }
            k = k - 1;
        }
        None
    }

    /// Adds a name, returning its offset.
    fn add(&mut self, s: &str)
        ensures
            final(self).model() == spec_table_add(old(self).model(), s@),
    {
        match self.get(s) {
            Some(_) => {},
            None => {
                let off = self.data.len();
                let ghost before = self.model();
                self.names.push((to_string(s), off));
                let b = s.as_bytes();
                extend_bytes(&mut self.data, b);
                self.data.push(0u8);
                assert(self.model().0 =~= before.0.push((s@, before.1.len())));
                assert(self.model().1 =~= before.1 + vstd::utf8::encode_utf8(s@) + seq![0u8]);
            },
        }
    }
}

/// The names of an archive: node names, then entry names.
pub open spec fn spec_all_names(r: RarcModel) -> Seq<Seq<char>> {
    r.nodes.map_values(|n: NodeModel| n.name) + r.file_entries.map_values(|e: FileEntryModel| e.name)
}

/// The string table written for an archive.
pub open spec fn spec_rarc_table(r: RarcModel) -> TableModel {
    spec_table_of(spec_all_names(r))
}

/// Builds the string table of an archive.
fn build_string_table(nodes: &Vec<Node>, file_entries: &Vec<FileEntry>) -> (t: StringTable)
    ensures
        t.model() == spec_rarc_table(RarcModel { nodes: nodes_view(nodes@), file_entries: entries_view(file_entries@) }),
{
    let ghost r = RarcModel { nodes: nodes_view(nodes@), file_entries: entries_view(file_entries@) };
    let ghost names = spec_all_names(r);
    let mut t = StringTable { names: Vec::new(), data: Vec::new() };
    assert(t.model().0 =~= Seq::<(Seq<char>, nat)>::empty());
    assert(t.model().1 =~= Seq::<u8>::empty());
    t.add(".");
    t.add("..");
    proof {
        reveal_strlit(".");
        reveal_strlit("..");
        assert("."@ =~= seq!['.']);
        assert(".."@ =~= seq!['.', '.']);
        assert(names.take(0) =~= Seq::<Seq<char>>::empty());
    }
    let nn = nodes.len();
    let mut k: usize = 0;
    while k < nn
        invariant
            k <= nn,
            nn == nodes@.len(),
            r == (RarcModel { nodes: nodes_view(nodes@), file_entries: entries_view(file_entries@) }),
            names == spec_all_names(r),
            t.model() == spec_table_of(names.take(k as int)),
        decreases nn - k,
    {
        assert(names.take(k + 1).drop_last() =~= names.take(k as int));
        assert(names.take(k + 1).last() == nodes@[k as int]@.name);
        t.add(nodes[k].name.as_str());
        k = k + 1;
    }
    let ne = file_entries.len();
    let mut j: usize = 0;
    while j < ne
        invariant
            j <= ne,
            ne == file_entries@.len(),
            nn == nodes@.len(),
            r == (RarcModel { nodes: nodes_view(nodes@), file_entries: entries_view(file_entries@) }),
            names == spec_all_names(r),
            t.model() == spec_table_of(names.take(nn + j)),
        decreases ne - j,
    {
        assert(names.take(nn + j + 1).drop_last() =~= names.take(nn + j));
        assert(names.take(nn + j + 1).last() == file_entries@[j as int]@.name);
        t.add(file_entries[j].name.as_str());
        j = j + 1;
    }
    assert(names.take(nn + ne) =~= names);
    t
}

/// A name, once added, stays in the table.
pub proof fn lemma_table_keeps(t: TableModel, x: Seq<char>, s: Seq<char>)
    requires
        spec_table_lookup(t.0, s) is Some,
    ensures
        spec_table_lookup(spec_table_add(t, x).0, s) == spec_table_lookup(t.0, s),
{
    if spec_table_lookup(t.0, x) is None {
        assert(t.0.push((x, t.1.len())).drop_last() =~= t.0);
    }
}

/// A name just added is in the table.
pub proof fn lemma_table_has_added(t: TableModel, x: Seq<char>)
    ensures
        spec_table_lookup(spec_table_add(t, x).0, x) is Some,
{
}

/// Every name of the list is in its table.
pub proof fn lemma_table_has_names(names: Seq<Seq<char>>, i: int)
    requires
        0 <= i < names.len(),
    ensures
        spec_table_lookup(spec_table_of(names).0, names[i]) is Some,
    decreases names.len(),
{
    let t0 = spec_table_of(names.drop_last());
    if i == names.len() - 1 {
        lemma_table_has_added(t0, names.last());
    } else {
        lemma_table_has_names(names.drop_last(), i);
        lemma_table_keeps(t0, names.last(), names[i]);
    }
}

/// Where the table puts a name (every name of the archive is there).
pub open spec fn spec_name_offset(r: RarcModel, s: Seq<char>) -> nat {
    match spec_table_lookup(spec_rarc_table(r).0, s) {
        Some(o) => o,
        None => 0,
    }
}

/// The data of the files among the first `k` entries, one after another.
pub open spec fn spec_file_data_upto(es: Seq<FileEntryModel>, k: int) -> Seq<u8>
    decreases k,
{
    if k <= 0 {
        Seq::empty()
    } else {
        let e = es[k - 1];
        spec_file_data_upto(es, k - 1) + if !e.is_dir && e.data is Some {
            e.data->0
        } else {
            Seq::empty()
        }
    }
}

/// The data offset written for entry `i`: where its data starts in the
/// file data, or 0 for a directory or a file without data.
pub open spec fn spec_file_offset(es: Seq<FileEntryModel>, i: int) -> u32 {
    let e = es[i];
    if !e.is_dir && e.data is Some {
        spec_u32_of(spec_file_data_upto(es, i).len())
    } else {
        0
    }
}

/// The 16-byte record of node `j`.
pub open spec fn spec_node_record(r: RarcModel, j: int) -> Seq<u8> {
    let nd = r.nodes[j];
    spec_type_bytes(nd.type_str) + spec_u32_be_bytes(spec_u32_of(spec_name_offset(r, nd.name)))
        + spec_u16_be_bytes(spec_name_hash(nd.name)) + spec_u16_be_bytes(nd.num_files)
        + spec_u32_be_bytes(nd.first_file_index)
}

/// The 20-byte record of entry `i`: id, name hash, type and name offset,
/// node index and 0x10 for a directory or data offset and size for a
/// file, then a zero word.
pub open spec fn spec_entry_record(r: RarcModel, i: int) -> Seq<u8> {
    let e = r.file_entries[i];
    let typ: int = if e.is_dir { 2 } else { 0 };
    let tan = (typ * 0x100_0000 + spec_name_offset(r, e.name) % 0x100_0000) as u32;
    spec_u16_be_bytes(spec_u16_of(i as nat)) + spec_u16_be_bytes(spec_name_hash(e.name))
        + spec_u32_be_bytes(tan) + (if e.is_dir {
        spec_u32_be_bytes(
            match e.node_index_for_dir {
                Some(n) => n,
                None => 0,
            },
        ) + spec_u32_be_bytes(0x10)
    } else {
        spec_u32_be_bytes(spec_file_offset(r.file_entries, i)) + spec_u32_be_bytes(e.data_size)
    }) + spec_u32_be_bytes(0)
}

/// The records of the first `k` nodes.
pub open spec fn spec_node_records(r: RarcModel, k: int) -> Seq<u8>
    decreases k,
{
    if k <= 0 {
        Seq::empty()
    } else {
        spec_node_records(r, k - 1) + spec_node_record(r, k - 1)
    }
}

/// The records of the first `k` entries.
pub open spec fn spec_entry_records(r: RarcModel, k: int) -> Seq<u8>
    decreases k,
{
    if k <= 0 {
        Seq::empty()
    } else {
        spec_entry_records(r, k - 1) + spec_entry_record(r, k - 1)
    }
}

/// Where the string table starts.
pub open spec fn spec_string_list_offset(r: RarcModel) -> nat {
    0x40 + 16 * r.nodes.len() + 20 * r.file_entries.len()
}

/// Where the file data starts: after the string table, on a 32-byte
/// boundary.
pub open spec fn spec_file_data_offset(r: RarcModel) -> nat {
    ((spec_string_list_offset(r) + spec_rarc_table(r).1.len() + 31) / 32) * 32
}

/// The file data of an archive.
pub open spec fn spec_file_data(r: RarcModel) -> Seq<u8> {
    spec_file_data_upto(r.file_entries, r.file_entries.len() as int)
}

/// The 32-byte main header.
pub open spec fn spec_main_header(r: RarcModel) -> Seq<u8> {
    let fdo = spec_file_data_offset(r);
    let fdl = spec_file_data(r).len();
    seq![0x52u8, 0x41, 0x52, 0x43] + spec_u32_be_bytes(spec_u32_of(fdo + fdl))
        + spec_u32_be_bytes(0x20) + spec_u32_be_bytes(spec_u32_of((fdo - 0x20) as nat))
        + spec_u32_be_bytes(spec_u32_of(fdl)) + spec_u32_be_bytes(spec_u32_of(fdl))
        + spec_u32_be_bytes(0) + spec_zeros(4)
}

/// The 32-byte data header.
pub open spec fn spec_data_header(r: RarcModel) -> Seq<u8> {
    let n = r.nodes.len();
    let m = r.file_entries.len();
    let slo = spec_string_list_offset(r);
    let fdo = spec_file_data_offset(r);
    spec_u32_be_bytes(spec_u32_of(n)) + spec_u32_be_bytes(0x20) + spec_u32_be_bytes(spec_u32_of(m))
        + spec_u32_be_bytes(spec_u32_of(0x20 + 16 * n)) + spec_u32_be_bytes(
        spec_u32_of((fdo - slo) as nat),
    ) + spec_u32_be_bytes(spec_u32_of((slo - 0x20) as nat)) + spec_u16_be_bytes(spec_u16_of(m))
        + seq![1u8] + spec_zeros(5)
}

/// The bytes an archive is written as.
pub open spec fn spec_rarc_bytes(r: RarcModel) -> Seq<u8> {
    let table = spec_rarc_table(r).1;
    let slo = spec_string_list_offset(r);
    spec_main_header(r) + spec_data_header(r) + spec_node_records(r, r.nodes.len() as int)
        + spec_entry_records(r, r.file_entries.len() as int) + table + spec_zeros(
        (spec_file_data_offset(r) - slo - table.len()) as nat,
    ) + spec_file_data(r)
}

/// Whether the written archive's size fits in memory addresses.
pub open spec fn spec_rarc_fits(r: RarcModel) -> bool {
    spec_string_list_offset(r) + spec_rarc_table(r).1.len() + spec_file_data(r).len() + 64
        <= usize::MAX
}

/// The file data and each entry's data offset.
fn collect_file_data(es: &Vec<FileEntry>) -> (res: (Vec<u8>, Vec<u32>))
    ensures
        res.0@ == spec_file_data_upto(entries_view(es@), es@.len() as int),
        res.1@.len() == es@.len(),
        forall|i: int| 0 <= i < es@.len() ==> res.1@[i] == spec_file_offset(entries_view(es@), i),
{
    let ghost ev = entries_view(es@);
    let mut fd: Vec<u8> = Vec::new();
    let mut offs: Vec<u32> = Vec::new();
    let mut i: usize = 0;
    while i < es.len()
        invariant
            i <= es@.len(),
            ev == entries_view(es@),
            fd@ == spec_file_data_upto(ev, i as int),
            offs@.len() == i,
            forall|k: int| 0 <= k < i ==> offs@[k] == spec_file_offset(ev, k),
        decreases es@.len() - i,
    {
        let e = &es[i];
        assert(ev[i as int] == e@);
        if !e.is_dir {
            match &e.data {
                Some(d) => {
                    offs.push(low32(fd.len()));
                    extend_bytes(&mut fd, d.as_slice());
                },
                None => {
                    offs.push(0);
                    assert(fd@ =~= spec_file_data_upto(ev, i + 1));
                },
            }
        } else {
            offs.push(0);
            assert(fd@ =~= spec_file_data_upto(ev, i + 1));
        }
        i = i + 1;
    }
    (fd, offs)
}

/// Appends the record of node `j`.
fn write_node_record(out: &mut Vec<u8>, node: &Node, off: usize, Ghost(r): Ghost<RarcModel>, Ghost(j): Ghost<int>)
    requires
        0 <= j < r.nodes.len(),
        r.nodes[j] == node@,
        off == spec_name_offset(r, node@.name),
    ensures
        final(out)@ == old(out)@ + spec_node_record(r, j),
{
    let tb = type_bytes(node.type_str.as_str());
    out.push(tb[0]);
    out.push(tb[1]);
    out.push(tb[2]);
    out.push(tb[3]);
    push_u32_be(out, low32(off));
    push_u16_be(out, rarc_name_hash(node.name.as_str()));
    push_u16_be(out, node.num_files);
    push_u32_be(out, node.first_file_index);
    assert(out@ =~= old(out)@ + spec_node_record(r, j));
}

/// Appends the record of entry `i`.
fn write_entry_record(
    out: &mut Vec<u8>,
    e: &FileEntry,
    i: usize,
    off: usize,
    data_off: u32,
    Ghost(r): Ghost<RarcModel>,
)
    requires
        i < r.file_entries.len(),
        r.file_entries[i as int] == e@,
        off == spec_name_offset(r, e@.name),
        data_off == spec_file_offset(r.file_entries, i as int),
    ensures
        final(out)@ == old(out)@ + spec_entry_record(r, i as int),
{
    push_u16_be(out, low16(i));
    push_u16_be(out, rarc_name_hash(e.name.as_str()));
    let typ: u32 = if e.is_dir { 2 } else { 0 };
    let low: u32 = (off % 0x100_0000) as u32;
    push_u32_be(out, typ * 0x100_0000 + low);
    if e.is_dir {
        let n = match e.node_index_for_dir {
            Some(n) => n,
            None => 0,
        };
        push_u32_be(out, n);
        push_u32_be(out, 0x10);
    } else {
        push_u32_be(out, data_off);
        push_u32_be(out, e.data_size);
    }
    push_u32_be(out, 0);
    assert(out@ =~= old(out)@ + spec_entry_record(r, i as int));
}

/// The rounding up of a position to the next 32-byte boundary.
proof fn lemma_align32(x: nat)
    ensures
        x <= ((x + 31) / 32) * 32 <= x + 31,
{
    assert(x <= ((x + 31) / 32) * 32 <= x + 31) by (nonlinear_arith);
}

impl Rarc {
    /// Whether the written archive's size fits in memory addresses.
    pub fn fits(&self) -> (res: bool)
        ensures
            res == spec_rarc_fits(self@),
    {
        let table = build_string_table(&self.nodes, &self.file_entries);
        let (fd, _offs) = collect_file_data(&self.file_entries);
        let n = self.nodes.len() as u128;
        let m = self.file_entries.len() as u128;
        let total: u128 = 0x40 + 16 * n + 20 * m + table.data.len() as u128 + fd.len() as u128 + 64;
        total <= usize::MAX as u128
    }

    /// Writes the archive uncompressed. The string table opens with "."
    /// and ".."; every file's data follows the table on a 32-byte boundary.
    #[verifier::spinoff_prover]
    #[verifier::rlimit(40)]
    pub fn to_bytes(&self) -> (res: Result<Vec<u8>, String>)
        requires
            spec_rarc_fits(self@),
        ensures
            match res {
                Ok(v) => v@ == spec_rarc_bytes(self@),
                Err(_) => false,
            },
    {
        let ghost r = self@;
        let ghost names = spec_all_names(r);
        let table = build_string_table(&self.nodes, &self.file_entries);
        let (fd, offs) = collect_file_data(&self.file_entries);
        let n = self.nodes.len();
        let m = self.file_entries.len();
        let tl = table.data.len();
        let slo = 0x40 + 16 * n + 20 * m;
        let fdl = fd.len();
        proof {
            lemma_align32((slo + tl) as nat);
        }
        let fdo = ((slo + tl + 31) / 32) * 32;
        let mut out: Vec<u8> = Vec::new();
        out.push(0x52);
        out.push(0x41);
        out.push(0x52);
        out.push(0x43);
        push_u32_be(&mut out, low32(fdo + fdl));
        push_u32_be(&mut out, 0x20);
        push_u32_be(&mut out, low32(fdo - 0x20));
        push_u32_be(&mut out, low32(fdl));
        push_u32_be(&mut out, low32(fdl));
        push_u32_be(&mut out, 0);
        push_zeros(&mut out, 4);
        assert(out@ =~= spec_main_header(r));
        push_u32_be(&mut out, low32(n));
        push_u32_be(&mut out, 0x20);
        push_u32_be(&mut out, low32(m));
        push_u32_be(&mut out, low32(0x20 + 16 * n));
        push_u32_be(&mut out, low32(fdo - slo));
        push_u32_be(&mut out, low32(slo - 0x20));
        push_u16_be(&mut out, low16(m));
        out.push(1);
        push_zeros(&mut out, 5);
        assert(out@ =~= spec_main_header(r) + spec_data_header(r));
        let ghost head = out@;
        let mut j: usize = 0;
        while j < n
            invariant
                j <= n,
                n == r.nodes.len(),
                r == self@,
                names == spec_all_names(r),
                table.model() == spec_rarc_table(r),
                out@ == head + spec_node_records(r, j as int),
            decreases n - j,
        {
            proof {
                assert(names[j as int] == r.nodes[j as int].name);
                lemma_table_has_names(names, j as int);
                assert(r.nodes[j as int] == self.nodes@[j as int]@);
            }
            let off = match table.get(self.nodes[j].name.as_str()) {
                Some(o) => o,
                None => {
                    return Err(to_string("String not in table"));
                },
            };
            write_node_record(&mut out, &self.nodes[j], off, Ghost(r), Ghost(j as int));
            j = j + 1;
        }
        let ghost head2 = out@;
        let mut i: usize = 0;
        while i < m
            invariant
                i <= m,
                m == r.file_entries.len(),
                n == r.nodes.len(),
                r == self@,
                names == spec_all_names(r),
                table.model() == spec_rarc_table(r),
                offs@.len() == m,
                forall|k: int| 0 <= k < m ==> offs@[k] == spec_file_offset(r.file_entries, k),
                out@ == head2 + spec_entry_records(r, i as int),
            decreases m - i,
        {
            proof {
                assert(names[n + i] == r.file_entries[i as int].name);
                lemma_table_has_names(names, n + i);
                assert(r.file_entries[i as int] == self.file_entries@[i as int]@);
            }
            let off = match table.get(self.file_entries[i].name.as_str()) {
                Some(o) => o,
                None => {
                    return Err(to_string("String not in table"));
                },
            };
            write_entry_record(&mut out, &self.file_entries[i], i, off, offs[i], Ghost(r));
            i = i + 1;
        }
        extend_bytes(&mut out, table.data.as_slice());
        push_zeros(&mut out, fdo - slo - tl);
        extend_bytes(&mut out, fd.as_slice());
        assert(out@ =~= spec_rarc_bytes(r));
        Ok(out)
    }

    /// Writes the archive and compresses it with Yaz0, as archives are
    /// stored on disc.
    pub fn to_bytes_compressed(&self) -> (res: Result<Vec<u8>, String>)
        requires
            spec_rarc_fits(self@),
        ensures
            match res {
                Ok(v) => v@ == spec_yaz0_compress(spec_rarc_bytes(self@)),
                Err(_) => false,
            },
    {
        let plain = match self.to_bytes() {
            Ok(v) => v,
            Err(e) => {
                return Err(e);
            },
        };
        match yaz0_compress(plain.as_slice()) {
            Some(v) => Ok(v),
            None => Err(to_string("Yaz0 compression failed")),
        }
    }
}

} // verus!
