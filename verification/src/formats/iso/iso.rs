//! The disc's filesystem table (FST).
//!
//! The FST is a run of 12-byte entries followed by a table of
//! zero-terminated names. Entry 0 is the root directory; its last word is
//! the number of entries. A directory entry's last word is the index one
//! past its last descendant; a file entry holds the file's offset on the
//! disc and its size.

use vstd::prelude::*;
use crate::utils::{read_u32_be, spec_read_u32_be};
use crate::text::{push_char, push_str, to_string, chars_of, string_from};
use crate::formats::rarc::parser::{read_cstring, spec_read_cstring};

verus! {

/// The size of one FST entry.
pub const FST_ENTRY_SIZE: usize = 12;

/// A file listed in the FST, as plain values.
pub struct IsoFileModel {
    pub path: Seq<char>,
    pub offset: u64,
    pub size: u64,
    pub fst_index: nat,
}

/// A file listed in the FST: its path below `files`, where its data lies
/// on the disc, and the index of its FST entry.
pub struct IsoFileEntry {
    pub path: String,
    pub offset: u64,
    pub size: u64,
    pub fst_index: usize,
}

impl View for IsoFileEntry {
    type V = IsoFileModel;

    open spec fn view(&self) -> IsoFileModel {
        IsoFileModel {
            path: self.path@,
            offset: self.offset,
            size: self.size,
            fst_index: self.fst_index as nat,
        }
    }
}

/// The plain values of a list of entries.
pub open spec fn files_view(v: Seq<IsoFileEntry>) -> Seq<IsoFileModel> {
    v.map_values(|e: IsoFileEntry| e@)
}

/// The fields of one FST entry.
pub struct FstEntryModel {
    pub is_dir: bool,
    pub name_offset: nat,
    pub data_offset_or_parent: u32,
    pub size_or_next_index: u32,
}

/// The FST entry at `index`, when it lies wholly inside the table.
pub open spec fn spec_fst_entry(fst: Seq<u8>, index: int) -> Option<FstEntryModel> {
    if index < 0 || 12 * index + 12 > fst.len() {
        None
    } else {
        let w = spec_read_u32_be(fst, 12 * index);
        Some(
            FstEntryModel {
                is_dir: w >= 0x0100_0000,
                name_offset: (w % 0x0100_0000) as nat,
                data_offset_or_parent: spec_read_u32_be(fst, 12 * index + 4),
                size_or_next_index: spec_read_u32_be(fst, 12 * index + 8),
            },
        )
    }
}

/// The name that an entry points at, when it starts inside the table.
pub open spec fn spec_read_name(fst: Seq<u8>, names_offset: int, name_offset: int) -> Option<
    Seq<char>,
> {
    let start = names_offset + name_offset;
    if start >= fst.len() {
        None
    } else {
        Some(spec_read_cstring(fst, start))
    }
}

/// A directory path with one more component.
pub open spec fn spec_join_path(dir: Seq<char>, name: Seq<char>) -> Seq<char> {
    dir + seq!['/'] + name
}

/// The files of a walk placed after those already found.
pub open spec fn spec_prepend(done: Seq<IsoFileModel>, r: Result<Seq<IsoFileModel>, Seq<char>>) -> Result<
    Seq<IsoFileModel>,
    Seq<char>,
> {
    match r {
        Ok(s) => Ok(done + s),
        Err(e) => Err(e),
    }
}

/// How much of the table lies from entry `i` on.
pub open spec fn spec_fst_measure(len: nat, i: int) -> nat {
    if 12 * i < len {
        (len - 12 * i) as nat
    } else {
        0
    }
}

/// The files listed by entries `i` up to `end`, in table order, inside the
/// directory `dir_path`; a subdirectory's files come where its entry
/// stands. The error is the first malformed entry met.
pub open spec fn spec_walk(
    fst: Seq<u8>,
    names_offset: int,
    i: int,
    end: int,
    dir_path: Seq<char>,
) -> Result<Seq<IsoFileModel>, Seq<char>>
    decreases spec_fst_measure(fst.len(), i),
{
    if i >= end {
        Ok(Seq::empty())
    } else {
        match spec_fst_entry(fst, i) {
            None => Err("Invalid FST entry"@),
            Some(e) => match spec_read_name(fst, names_offset, e.name_offset as int) {
                None => Err("Invalid FST name offset"@),
                Some(name) => {
                    let path = spec_join_path(dir_path, name);
                    if e.is_dir {
                        let child_end = e.size_or_next_index as int;
                        if child_end <= i {
                            Err("Corrupt FST directory range"@)
                        } else {
                            match spec_walk(fst, names_offset, i + 1, child_end, path) {
                                Err(err) => Err(err),
                                Ok(sub) => spec_prepend(
                                    sub,
                                    spec_walk(fst, names_offset, child_end, end, dir_path),
                                ),
                            }
                        }
                    } else {
                        spec_prepend(
                            seq![
                                IsoFileModel {
                                    path,
                                    offset: e.data_offset_or_parent as u64,
                                    size: e.size_or_next_index as u64,
                                    fst_index: i as nat,
                                },
                            ],
                            spec_walk(fst, names_offset, i + 1, end, dir_path),
                        )
                    }
                },
            },
        }
    }
}

/// The files that an FST lists, with paths below `files`, or why the
/// table is malformed.
pub open spec fn spec_parse_fst(fst: Seq<u8>) -> Result<Seq<IsoFileModel>, Seq<char>> {
    if fst.len() < 12 {
        Err("Invalid FST size"@)
    } else {
        match spec_fst_entry(fst, 0) {
            None => Err("Invalid root FST entry"@),
            Some(root) => {
                let n = root.size_or_next_index as int;
                if !root.is_dir {
                    Err("FST root is not a directory"@)
                } else if 12 * n > usize::MAX {
                    Err("FST size overflow"@)
                } else if 12 * n > fst.len() {
                    Err("Invalid FST entry count"@)
                } else {
                    spec_walk(fst, 12 * n, 1, n, "files"@)
                }
            },
        }
    }
}

/// One decoded FST entry.
struct FstEntry {
    is_dir: bool,
    name_offset: usize,
    data_offset_or_parent: u32,
    size_or_next_index: u32,
}

fn parse_fst_entry(fst: &[u8], index: usize) -> (res: Option<FstEntry>)
    ensures
        match spec_fst_entry(fst@, index as int) {
            None => res is None,
            Some(m) => res matches Some(e) && e.is_dir == m.is_dir && e.name_offset
                == m.name_offset && e.data_offset_or_parent == m.data_offset_or_parent
                && e.size_or_next_index == m.size_or_next_index,
        },
{
    if index >= fst.len() / FST_ENTRY_SIZE {
        return None;
    }
    let base = index * FST_ENTRY_SIZE;
    let w = read_u32_be(fst, base);
    let flags = w & 0xFF00_0000u32;
    let name = w & 0x00FF_FFFFu32;
    assert(flags != 0 <==> w >= 0x0100_0000) by (bit_vector)
        requires
            flags == w & 0xFF00_0000u32,
    ;
    assert(name == w % 0x0100_0000) by (bit_vector)
        requires
            name == w & 0x00FF_FFFFu32,
    ;
    Some(
        FstEntry {
            is_dir: flags != 0,
            name_offset: name as usize,
            data_offset_or_parent: read_u32_be(fst, base + 4),
            size_or_next_index: read_u32_be(fst, base + 8),
        },
    )
}

fn read_name(fst: &[u8], names_offset: usize, name_offset: usize) -> (res: Option<String>)
    ensures
        match spec_read_name(fst@, names_offset as int, name_offset as int) {
            None => res is None,
            Some(n) => res matches Some(s) && s@ == n,
        },
{
    let len = fst.len();
    if names_offset >= len || name_offset >= len - names_offset {
        return None;
    }
    let start = names_offset + name_offset;
    Some(read_cstring(fst, start as u64))
}

/// Walks the entries after `dir_index` up to `end_index`, appending the
/// files found to `out`.
fn walk_directory(
    fst: &[u8],
    names_offset: usize,
    dir_index: usize,
    dir_path: &str,
    end_index: usize,
    out: &mut Vec<IsoFileEntry>,
) -> (res: Result<(), String>)
    requires
        12 * dir_index < fst@.len(),
    ensures
        match spec_walk(fst@, names_offset as int, dir_index + 1, end_index as int, dir_path@) {
            Ok(files) => res is Ok && files_view(final(out)@) == files_view(old(out)@) + files,
            Err(e) => res matches Err(m) && m@ == e,
        },
    decreases spec_fst_measure(fst@.len(), dir_index as int),
{
    let ghost start = files_view(out@);
    let ghost mut done: Seq<IsoFileModel> = Seq::empty();
    let ghost whole = spec_walk(fst@, names_offset as int, dir_index + 1, end_index as int, dir_path@);
    let flen = fst.len();
    assert(dir_index < flen);
    proof {
        if let Ok(w) = whole {
            assert(Seq::<IsoFileModel>::empty() + w =~= w);
        }
        assert(files_view(out@) =~= start + done);
    }
    let mut i = dir_index + 1;
    while i < end_index
        invariant
            dir_index < i,
            12 * dir_index < fst@.len(),
            whole == spec_walk(fst@, names_offset as int, dir_index + 1, end_index as int, dir_path@),
            whole == spec_prepend(done, spec_walk(fst@, names_offset as int, i as int, end_index as int, dir_path@)),
            files_view(out@) == start + done,
        decreases spec_fst_measure(fst@.len(), i as int),
    {
        let entry = match parse_fst_entry(fst, i) {
            Some(e) => e,
            None => {
                return Err(to_string("Invalid FST entry"));
            },
        };
        let name = match read_name(fst, names_offset, entry.name_offset) {
            Some(n) => n,
            None => {
                return Err(to_string("Invalid FST name offset"));
            },
        };
        let mut path = to_string(dir_path);
        push_char(&mut path, '/');
        push_str(&mut path, name.as_str());
        assert(path@ == spec_join_path(dir_path@, name@));
        if entry.is_dir {
            let child_end = entry.size_or_next_index as usize;
            if child_end <= i {
                return Err(to_string("Corrupt FST directory range"));
            }
            let ghost before = files_view(out@);
            match walk_directory(fst, names_offset, i, path.as_str(), child_end, out) {
                Ok(()) => {},
                Err(m) => {
                    return Err(m);
                },
            }
            proof {
                let sub = files_view(out@).skip(before.len() as int);
                match spec_walk(fst@, names_offset as int, i + 1, child_end as int, path@) {
                    Ok(f) => {
                        assert(files_view(out@) == before + f);
                        assert(sub =~= f);
                    },
                    Err(_) => {},
                }
                assert(spec_walk(fst@, names_offset as int, i + 1, child_end as int, path@) == Ok::<Seq<IsoFileModel>, Seq<char>>(sub));
                assert(spec_walk(fst@, names_offset as int, i as int, end_index as int, dir_path@) == spec_prepend(sub, spec_walk(fst@, names_offset as int, child_end as int, end_index as int, dir_path@)));
                assert(files_view(out@) =~= before + sub);
                let rest = spec_walk(fst@, names_offset as int, child_end as int, end_index as int, dir_path@);
                assert(spec_prepend(done, spec_prepend(sub, rest)) == spec_prepend(done + sub, rest)) by {
                    match rest {
                        Ok(r) => {
                            assert(done + (sub + r) =~= done + sub + r);
                        },
                        Err(_) => {},
                    }
                };
                done = done + sub;
                assert(files_view(out@) =~= start + done);
            }
            i = child_end;
        } else {
            let ghost before = files_view(out@);
            out.push(
                IsoFileEntry {
                    path,
                    offset: entry.data_offset_or_parent as u64,
                    size: entry.size_or_next_index as u64,
                    fst_index: i,
                },
            );
            proof {
                let item = out@[out@.len() - 1]@;
                let rest = spec_walk(fst@, names_offset as int, i + 1, end_index as int, dir_path@);
                assert(files_view(out@) =~= before.push(item));
                assert(spec_walk(fst@, names_offset as int, i as int, end_index as int, dir_path@) == spec_prepend(seq![item], rest));
                assert(spec_prepend(done, spec_prepend(seq![item], rest)) == spec_prepend(done.push(item), rest)) by {
                    match rest {
                        Ok(r) => {
                            assert(done + (seq![item] + r) =~= done.push(item) + r);
                        },
                        Err(_) => {},
                    }
                };
                done = done.push(item);
                assert(files_view(out@) =~= start + done);
            }
            i = i + 1;
        }
    }
    proof {
        assert(done + Seq::<IsoFileModel>::empty() =~= done);
    }
    Ok(())
}

/// Lists the files of an FST, in table order, with paths below `files`.
pub fn parse_fst(fst: &[u8]) -> (res: Result<Vec<IsoFileEntry>, String>)
    ensures
        match spec_parse_fst(fst@) {
            Ok(files) => res matches Ok(v) && files_view(v@) == files,
            Err(e) => res matches Err(m) && m@ == e,
        },
{
    if fst.len() < FST_ENTRY_SIZE {
        return Err(to_string("Invalid FST size"));
    }
    let root = match parse_fst_entry(fst, 0) {
        Some(r) => r,
        None => {
            return Err(to_string("Invalid root FST entry"));
        },
    };
    if !root.is_dir {
        return Err(to_string("FST root is not a directory"));
    }
    let num_entries = root.size_or_next_index as usize;
    if num_entries > usize::MAX / FST_ENTRY_SIZE {
        return Err(to_string("FST size overflow"));
    }
    let names_offset = num_entries * FST_ENTRY_SIZE;
    if names_offset > fst.len() {
        return Err(to_string("Invalid FST entry count"));
    }
    let mut files: Vec<IsoFileEntry> = Vec::new();
    let r = walk_directory(fst, names_offset, 0, "files", num_entries, &mut files);
    proof {
        reveal_strlit("files");
        assert(files_view(Seq::<IsoFileEntry>::empty()) =~= Seq::<IsoFileModel>::empty());
    }
    match r {
        Ok(()) => {
            proof {
                let w = spec_walk(fst@, names_offset as int, 1, num_entries as int, "files"@);
                if let Ok(found) = w {
                    assert(Seq::<IsoFileModel>::empty() + found =~= found);
                }
            }
            Ok(files)
        },
        Err(m) => Err(m),
    }
}

/// The path of a listed file with the leading `files/` taken off.
pub open spec fn spec_strip_files_root(path: Seq<char>) -> Option<Seq<char>> {
    if path.len() >= 6 && path.take(6) == "files/"@ {
        Some(path.skip(6))
    } else {
        None
    }
}

/// Takes the leading `files/` off a path, if it is there.
pub fn strip_files_root(path: &str) -> (res: Option<String>)
    ensures
        match spec_strip_files_root(path@) {
            Some(p) => res matches Some(s) && s@ == p,
            None => res is None,
        },
{
    let prefix = chars_of("files/");
    proof {
        reveal_strlit("files/");
    }
    let chars = chars_of(path);
    if chars.len() < 6 {
        return None;
    }
    let mut k: usize = 0;
    while k < 6
        invariant
            0 <= k <= 6,
            chars@ == path@,
            chars@.len() >= 6,
            prefix@ == "files/"@,
            prefix@.len() == 6,
            forall|j: int| 0 <= j < k ==> chars@[j] == prefix@[j],
        decreases 6 - k,
    {
        if chars[k] != prefix[k] {
            assert(path@.take(6)[k as int] != "files/"@[k as int]);
            return None;
        }
        k = k + 1;
    }
    assert(path@.take(6) =~= "files/"@);
    let rest = string_from(chars.as_slice(), 6);
    assert(chars@.subrange(6, chars@.len() as int) =~= path@.skip(6));
    Some(rest)
}

/// The path of a listed file relative to the `files` root, or an error
/// where it lies elsewhere.
pub fn iso_relative_path(path: &str) -> (res: Result<String, String>)
    ensures
        match spec_strip_files_root(path@) {
            Some(p) => res matches Ok(s) && s@ == p,
            None => res matches Err(m) && m@ == "Unexpected ISO file root"@,
        },
{
    match strip_files_root(path) {
        Some(s) => Ok(s),
        None => Err(to_string("Unexpected ISO file root")),
    }
}

/// The index of the first listed file whose path is `target`.
pub open spec fn spec_find_path(files: Seq<IsoFileModel>, target: Seq<char>) -> Option<nat>
    decreases files.len(),
{
    if files.len() == 0 {
        None
    } else {
        match spec_find_path(files.drop_last(), target) {
            Some(k) => Some(k),
            None => if files.last().path == target {
                Some((files.len() - 1) as nat)
            } else {
                None
            },
        }
    }
}

/// Finds the listed file at `files/<relative_path>`; the error names the
/// path when no file is there.
pub fn find_iso_file(files: &[IsoFileEntry], relative_path: &str) -> (res: Result<usize, String>)
    ensures
        match spec_find_path(files_view(files@), "files/"@ + relative_path@) {
            Some(k) => res == Ok::<usize, String>(k as usize),
            None => res matches Err(m) && m@ == "File not found in ISO: "@ + relative_path@,
        },
{
    let mut target = to_string("files/");
    push_str(&mut target, relative_path);
    let ghost fv = files_view(files@);
    let mut k: usize = 0;
    while k < files.len()
        invariant
            k <= files@.len(),
            fv == files_view(files@),
            target@ == "files/"@ + relative_path@,
            spec_find_path(fv.take(k as int), target@) is None,
        decreases files@.len() - k,
    {
        proof {
            assert(fv.take(k + 1).drop_last() =~= fv.take(k as int));
        }
        if crate::text::str_eq(files[k].path.as_str(), target.as_str()) {
            proof {
                lemma_find_path_prefix(fv, target@, (k + 1) as nat);
            }
            return Ok(k);
        }
        k = k + 1;
    }
    assert(fv.take(files@.len() as int) =~= fv);
    let mut msg = to_string("File not found in ISO: ");
    push_str(&mut msg, relative_path);
    Err(msg)
}

/// A match found in a prefix is the match in the whole list.
pub proof fn lemma_find_path_prefix(files: Seq<IsoFileModel>, target: Seq<char>, n: nat)
    requires
        n <= files.len(),
        spec_find_path(files.take(n as int), target) is Some,
    ensures
        spec_find_path(files, target) == spec_find_path(files.take(n as int), target),
    decreases files.len() - n,
{
    if n < files.len() {
        assert(files.take(n as int + 1).drop_last() =~= files.take(n as int));
        lemma_find_path_prefix(files, target, n + 1);
    } else {
        assert(files.take(n as int) =~= files);
    }
}

/// Whether FST entry `j` lies in the table and is a directory.
pub open spec fn spec_fst_dir_at(fst: Seq<u8>, j: int) -> bool {
    spec_fst_entry(fst, j) matches Some(e) && e.is_dir
}

/// Whether FST entry `j` lies in the table and is a file.
pub open spec fn spec_fst_file_at(fst: Seq<u8>, j: int) -> bool {
    spec_fst_entry(fst, j) matches Some(e) && !e.is_dir
}

/// The index one past the last descendant of directory entry `j`.
pub open spec fn spec_fst_next(fst: Seq<u8>, j: int) -> int {
    spec_fst_entry(fst, j)->Some_0.size_or_next_index as int
}

/// Entries `i` up to `end` nest: every directory among them ends inside
/// that range, and a directory inside another ends inside it.
pub open spec fn spec_fst_nested(fst: Seq<u8>, i: int, end: int) -> bool {
    &&& forall|j: int| i <= j < end && #[trigger] spec_fst_dir_at(fst, j) ==> spec_fst_next(fst, j) <= end
    &&& forall|j: int, k: int|
        #![trigger spec_fst_dir_at(fst, j), spec_fst_dir_at(fst, k)]
        i <= j < end && j < k < spec_fst_next(fst, j) && spec_fst_dir_at(fst, j) && spec_fst_dir_at(fst, k)
            ==> spec_fst_next(fst, k) <= spec_fst_next(fst, j)
}

/// Files listed from entries `i` up to `end`: each is a file entry of
/// that range with its offset and size, in table order, and every file
/// entry of the range is among them.
pub open spec fn spec_lists_files(fst: Seq<u8>, i: int, end: int, files: Seq<IsoFileModel>) -> bool {
    &&& forall|t: int|
        0 <= t < files.len() ==> {
            let k = (#[trigger] files[t]).fst_index as int;
            &&& i <= k < end
            &&& spec_fst_file_at(fst, k)
            &&& files[t].offset == spec_fst_entry(fst, k)->Some_0.data_offset_or_parent as u64
            &&& files[t].size == spec_fst_entry(fst, k)->Some_0.size_or_next_index as u64
        }
    &&& forall|t: int, u: int| 0 <= t < u < files.len() ==> #[trigger] files[t].fst_index < #[trigger] files[u].fst_index
    &&& forall|k: int|
        i <= k < end && #[trigger] spec_fst_file_at(fst, k) ==> exists|t: int|
            0 <= t < files.len() && (#[trigger] files[t]).fst_index == k
}

/// The name of FST entry `k`.
pub open spec fn spec_entry_name(fst: Seq<u8>, names_offset: int, k: int) -> Seq<char> {
    spec_read_name(fst, names_offset, spec_fst_entry(fst, k)->Some_0.name_offset as int)->Some_0
}

/// Each listed file's path lies below `dir_path` and ends with the name
/// of its entry.
pub open spec fn spec_paths_below(fst: Seq<u8>, names_offset: int, dir_path: Seq<char>, files: Seq<IsoFileModel>) -> bool {
    forall|t: int|
        0 <= t < files.len() ==> {
            let p = (#[trigger] files[t]).path;
            let nm = spec_entry_name(fst, names_offset, files[t].fst_index as int);
            &&& p.len() >= dir_path.len() + 1 + nm.len()
            &&& p.take(dir_path.len() as int + 1) == dir_path.push('/')
            &&& p.skip(p.len() - nm.len() - 1) == seq!['/'] + nm
        }
}

/// A walk over nested entries lists exactly their file entries, each once,
/// in table order, each under the directory walked and with its name.
pub proof fn lemma_walk_lists_files(fst: Seq<u8>, names_offset: int, i: int, end: int, dir_path: Seq<char>)
    requires
        0 <= i,
        spec_fst_nested(fst, i, end),
        spec_walk(fst, names_offset, i, end, dir_path) is Ok,
    ensures
        spec_lists_files(fst, i, end, spec_walk(fst, names_offset, i, end, dir_path)->Ok_0),
        spec_paths_below(fst, names_offset, dir_path, spec_walk(fst, names_offset, i, end, dir_path)->Ok_0),
    decreases spec_fst_measure(fst.len(), i),
{
    let files = spec_walk(fst, names_offset, i, end, dir_path)->Ok_0;
    if i >= end {
        assert(files.len() == 0);
        assert forall|k: int| i <= k < end && #[trigger] spec_fst_file_at(fst, k) implies exists|t: int|
            0 <= t < files.len() && (#[trigger] files[t]).fst_index == k by {}
    } else {
        let e = spec_fst_entry(fst, i)->Some_0;
        let name = spec_read_name(fst, names_offset, e.name_offset as int)->Some_0;
        let path = spec_join_path(dir_path, name);
        if e.is_dir {
            assert(spec_fst_dir_at(fst, i));
            let child_end = e.size_or_next_index as int;
            assert(child_end <= end);
            let sub = spec_walk(fst, names_offset, i + 1, child_end, path)->Ok_0;
            let rest = spec_walk(fst, names_offset, child_end, end, dir_path)->Ok_0;
            assert(spec_fst_nested(fst, i + 1, child_end)) by {
                assert forall|j: int| i + 1 <= j < child_end && #[trigger] spec_fst_dir_at(fst, j) implies spec_fst_next(fst, j)
                    <= child_end by {
                    assert(spec_fst_dir_at(fst, i));
                }
            }
            lemma_walk_lists_files(fst, names_offset, i + 1, child_end, path);
            lemma_walk_lists_files(fst, names_offset, child_end, end, dir_path);
            assert(files == sub + rest);
            assert forall|t: int| 0 <= t < files.len() implies {
                let p = (#[trigger] files[t]).path;
                let nm = spec_entry_name(fst, names_offset, files[t].fst_index as int);
                &&& p.len() >= dir_path.len() + 1 + nm.len()
                &&& p.take(dir_path.len() as int + 1) == dir_path.push('/')
                &&& p.skip(p.len() - nm.len() - 1) == seq!['/'] + nm
            } by {
                if t < sub.len() {
                    assert(files[t] == sub[t]);
                    let p = sub[t].path;
                    assert(p.take(path.len() as int + 1) == path.push('/'));
                    assert(p.take(dir_path.len() as int + 1) =~= path.push('/').take(dir_path.len() as int + 1));
                    assert(path.push('/').take(dir_path.len() as int + 1) =~= dir_path.push('/'));
                } else {
                    assert(files[t] == rest[t - sub.len()]);
                }
            }
            assert forall|t: int| 0 <= t < files.len() implies {
                let k = (#[trigger] files[t]).fst_index as int;
                &&& i <= k < end
                &&& spec_fst_file_at(fst, k)
                &&& files[t].offset == spec_fst_entry(fst, k)->Some_0.data_offset_or_parent as u64
                &&& files[t].size == spec_fst_entry(fst, k)->Some_0.size_or_next_index as u64
            } by {
                if t < sub.len() {
                    assert(files[t] == sub[t]);
                } else {
                    assert(files[t] == rest[t - sub.len()]);
                }
            }
            assert forall|t: int, u: int| 0 <= t < u < files.len() implies #[trigger] files[t].fst_index
                < #[trigger] files[u].fst_index by {
                if u < sub.len() {
                    assert(files[t] == sub[t] && files[u] == sub[u]);
                } else if t >= sub.len() {
                    assert(files[t] == rest[t - sub.len()] && files[u] == rest[u - sub.len()]);
                } else {
                    assert(files[t] == sub[t] && files[u] == rest[u - sub.len()]);
                }
            }
            assert forall|k: int| i <= k < end && #[trigger] spec_fst_file_at(fst, k) implies exists|t: int|
                0 <= t < files.len() && (#[trigger] files[t]).fst_index == k by {
                if k < child_end {
                    assert(k != i);
                    let t = choose|t: int| 0 <= t < sub.len() && (#[trigger] sub[t]).fst_index == k;
                    assert(files[t] == sub[t]);
                } else {
                    let t = choose|t: int| 0 <= t < rest.len() && (#[trigger] rest[t]).fst_index == k;
                    assert(files[t + sub.len()] == rest[t]);
                }
            }
        } else {
            assert(spec_fst_file_at(fst, i));
            let f = IsoFileModel {
                path,
                offset: e.data_offset_or_parent as u64,
                size: e.size_or_next_index as u64,
                fst_index: i as nat,
            };
            let rest = spec_walk(fst, names_offset, i + 1, end, dir_path)->Ok_0;
            lemma_walk_lists_files(fst, names_offset, i + 1, end, dir_path);
            assert(files == seq![f] + rest);
            assert forall|t: int| 0 <= t < files.len() implies {
                let p = (#[trigger] files[t]).path;
                let nm = spec_entry_name(fst, names_offset, files[t].fst_index as int);
                &&& p.len() >= dir_path.len() + 1 + nm.len()
                &&& p.take(dir_path.len() as int + 1) == dir_path.push('/')
                &&& p.skip(p.len() - nm.len() - 1) == seq!['/'] + nm
            } by {
                if t > 0 {
                    assert(files[t] == rest[t - 1]);
                } else {
                    assert(files[0] == f);
                    assert(path.take(dir_path.len() as int + 1) =~= dir_path.push('/'));
                    assert(path.skip(path.len() - name.len() - 1) =~= seq!['/'] + name);
                }
            }
            assert forall|t: int| 0 <= t < files.len() implies {
                let k = (#[trigger] files[t]).fst_index as int;
                &&& i <= k < end
                &&& spec_fst_file_at(fst, k)
                &&& files[t].offset == spec_fst_entry(fst, k)->Some_0.data_offset_or_parent as u64
                &&& files[t].size == spec_fst_entry(fst, k)->Some_0.size_or_next_index as u64
            } by {
                if t > 0 {
                    assert(files[t] == rest[t - 1]);
                }
            }
            assert forall|t: int, u: int| 0 <= t < u < files.len() implies #[trigger] files[t].fst_index
                < #[trigger] files[u].fst_index by {
                assert(files[u] == rest[u - 1]);
                if t > 0 {
                    assert(files[t] == rest[t - 1]);
                }
            }
            assert forall|k: int| i <= k < end && #[trigger] spec_fst_file_at(fst, k) implies exists|t: int|
                0 <= t < files.len() && (#[trigger] files[t]).fst_index == k by {
                if k == i {
                    assert(files[0].fst_index == k);
                } else {
                    let t = choose|t: int| 0 <= t < rest.len() && (#[trigger] rest[t]).fst_index == k;
                    assert(files[t + 1] == rest[t]);
                }
            }
        }
    }
}

/// Law: a filesystem table that parses, with nested directory ranges,
/// lists every file entry below the root exactly once, in table order,
/// with its offset and size, under `files/` and ending with its name.
pub proof fn lemma_parse_fst_lists_every_file(fst: Seq<u8>)
    requires
        spec_parse_fst(fst) is Ok,
        spec_fst_nested(fst, 1, spec_fst_next(fst, 0)),
    ensures
        spec_lists_files(fst, 1, spec_fst_next(fst, 0), spec_parse_fst(fst)->Ok_0),
        spec_paths_below(fst, 12 * spec_fst_next(fst, 0), "files"@, spec_parse_fst(fst)->Ok_0),
{
    let n = spec_fst_next(fst, 0);
    lemma_walk_lists_files(fst, 12 * n, 1, n, "files"@);
}

} // verus!
