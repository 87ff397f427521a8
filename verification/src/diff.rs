//! Comparing a disc's files with a folder by their hashes.
//!
//! A folder file is changed where the disc holds a file at the same path
//! with another hash, and added where the disc holds none. The report lists
//! the changed paths, then the added ones, each list sorted.

use vstd::prelude::*;
use crate::text::{chars_of, push_char, push_str, str_eq, to_string, path_file_name, spec_path_file_name};

verus! {

/// A file's path and its hash.
pub struct HashEntry {
    pub path: String,
    pub hash: String,
}

/// The plain values of a list of hash entries.
pub open spec fn hashes_view(v: Seq<HashEntry>) -> Seq<(Seq<char>, Seq<char>)> {
    v.map_values(|e: HashEntry| (e.path@, e.hash@))
}

/// Whether `a` sorts before `b`: character by character, a prefix first.
pub open spec fn spec_str_lt(a: Seq<char>, b: Seq<char>) -> bool
    decreases a.len(),
{
    if a.len() == 0 {
        b.len() > 0
    } else if b.len() == 0 {
        false
    } else if a[0] != b[0] {
        (a[0] as u32) < (b[0] as u32)
    } else {
        spec_str_lt(a.drop_first(), b.drop_first())
    }
}

/// Whether `a` sorts before `b`.
pub fn str_lt(a: &str, b: &str) -> (res: bool)
    ensures
        res == spec_str_lt(a@, b@),
{
    let x = chars_of(a);
    let y = chars_of(b);
    let mut i: usize = 0;
    assert(a@.skip(0) =~= a@);
    assert(b@.skip(0) =~= b@);
    while i < x.len() && i < y.len() && x[i] == y[i]
        invariant
            i <= x@.len(),
            i <= y@.len(),
            x@ == a@,
            y@ == b@,
            spec_str_lt(a@, b@) == spec_str_lt(a@.skip(i as int), b@.skip(i as int)),
        decreases x@.len() - i,
    {
        assert(a@.skip(i as int).drop_first() =~= a@.skip(i + 1));
        assert(b@.skip(i as int).drop_first() =~= b@.skip(i + 1));
        i = i + 1;
    }
    if i == x.len() {
        i < y.len()
    } else if i == y.len() {
        false
    } else {
        assert(a@.skip(i as int)[0] == x@[i as int]);
        assert(b@.skip(i as int)[0] == y@[i as int]);
        (x[i] as u32) < (y[i] as u32)
    }
}

/// The place of `x` in a sorted list: before the first entry it sorts
/// before.
pub open spec fn spec_sorted_pos(sorted: Seq<Seq<char>>, x: Seq<char>) -> nat
    decreases sorted.len(),
{
    if sorted.len() == 0 || spec_str_lt(x, sorted[0]) {
        0
    } else {
        1 + spec_sorted_pos(sorted.drop_first(), x)
    }
}

/// A sorted list with `x` put in its place, unless it is there already.
pub open spec fn spec_insert_sorted(sorted: Seq<Seq<char>>, x: Seq<char>) -> Seq<Seq<char>> {
    if sorted.contains(x) {
        sorted
    } else {
        sorted.insert(spec_sorted_pos(sorted, x) as int, x)
    }
}

/// A list of paths sorted, each path once.
pub open spec fn spec_sort_paths(v: Seq<Seq<char>>) -> Seq<Seq<char>>
    decreases v.len(),
{
    if v.len() == 0 {
        Seq::empty()
    } else {
        spec_insert_sorted(spec_sort_paths(v.drop_last()), v.last())
    }
}

proof fn lemma_sorted_pos_bound(sorted: Seq<Seq<char>>, x: Seq<char>)
    ensures
        spec_sorted_pos(sorted, x) <= sorted.len(),
    decreases sorted.len(),
{
    if sorted.len() > 0 && !spec_str_lt(x, sorted[0]) {
        lemma_sorted_pos_bound(sorted.drop_first(), x);
    }
}

fn insert_sorted(sorted: &mut Vec<String>, x: String)
    ensures
        final(sorted)@.map_values(|s: String| s@) == spec_insert_sorted(old(sorted)@.map_values(|s: String| s@), x@),
{
    let ghost sv = sorted@.map_values(|s: String| s@);
    let mut i: usize = 0;
    while i < sorted.len()
        invariant
            i <= sorted@.len(),
            sorted@ == old(sorted)@,
            sv == sorted@.map_values(|s: String| s@),
            forall|j: int| 0 <= j < i ==> sv[j] != x@,
        decreases sorted@.len() - i,
    {
        if str_eq(sorted[i].as_str(), x.as_str()) {
            assert(sv[i as int] == x@);
            assert(sv.contains(x@));
            return;
        }
        i = i + 1;
    }
    assert(!sv.contains(x@));
    let mut p: usize = 0;
    assert(sv.skip(0) =~= sv);
    while p < sorted.len() && !str_lt(x.as_str(), sorted[p].as_str())
        invariant
            p <= sorted@.len(),
            sorted@ == old(sorted)@,
            sv == sorted@.map_values(|s: String| s@),
            spec_sorted_pos(sv, x@) == p + spec_sorted_pos(sv.skip(p as int), x@),
        decreases sorted@.len() - p,
    {
        assert(sv.skip(p as int).drop_first() =~= sv.skip(p + 1));
        assert(sv.skip(p as int)[0] == sv[p as int]);
        p = p + 1;
    }
    if p < sorted.len() {
        assert(sv.skip(p as int)[0] == sv[p as int]);
    }
    proof {
        lemma_sorted_pos_bound(sv, x@);
    }
    let ghost xv = x@;
    sorted.insert(p, x);
    assert(sorted@.map_values(|s: String| s@) =~= sv.insert(p as int, xv));
}

/// Where a folder file stands against the disc: 0 unchanged, 1 changed,
/// 2 added.
pub open spec fn spec_classify(iso: Seq<(Seq<char>, Seq<char>)>, path: Seq<char>, hash: Seq<char>) -> nat
    decreases iso.len(),
{
    if iso.len() == 0 {
        2
    } else if iso[0].0 == path {
        if iso[0].1 != hash {
            1
        } else {
            0
        }
    } else {
        spec_classify(iso.drop_first(), path, hash)
    }
}

/// The folder paths in the given class, in folder order.
pub open spec fn spec_paths_in_class(iso: Seq<(Seq<char>, Seq<char>)>, folder: Seq<(Seq<char>, Seq<char>)>, class: nat) -> Seq<Seq<char>>
    decreases folder.len(),
{
    if folder.len() == 0 {
        Seq::empty()
    } else {
        let prev = spec_paths_in_class(iso, folder.drop_last(), class);
        if spec_classify(iso, folder.last().0, folder.last().1) == class {
            prev.push(folder.last().0)
        } else {
            prev
        }
    }
}

/// A titled list of paths, two spaces before each and a newline after;
/// nothing for no paths.
pub open spec fn spec_section(title: Seq<char>, paths: Seq<Seq<char>>) -> Seq<char> {
    if paths.len() == 0 {
        Seq::empty()
    } else {
        title + spec_lines(paths)
    }
}

/// Each path on a line of its own, indented by two spaces.
pub open spec fn spec_lines(paths: Seq<Seq<char>>) -> Seq<char>
    decreases paths.len(),
{
    if paths.len() == 0 {
        Seq::empty()
    } else {
        spec_lines(paths.drop_last()) + "  "@ + paths.last() + seq!['\n']
    }
}

/// The report of a comparison: the changed paths, then the added ones.
pub open spec fn spec_diff_report(iso: Seq<(Seq<char>, Seq<char>)>, folder: Seq<(Seq<char>, Seq<char>)>) -> Seq<char> {
    spec_section("Changed:\n"@, spec_sort_paths(spec_paths_in_class(iso, folder, 1)))
        + spec_section("Added:\n"@, spec_sort_paths(spec_paths_in_class(iso, folder, 2)))
}

fn classify(iso: &[HashEntry], path: &str, hash: &str) -> (res: u8)
    ensures
        res as nat == spec_classify(hashes_view(iso@), path@, hash@),
{
    let ghost iv = hashes_view(iso@);
    assert(iv.skip(0) =~= iv);
    let mut i: usize = 0;
    while i < iso.len()
        invariant
            i <= iso@.len(),
            iv == hashes_view(iso@),
            spec_classify(iv, path@, hash@) == spec_classify(iv.skip(i as int), path@, hash@),
        decreases iso@.len() - i,
    {
        assert(iv.skip(i as int).drop_first() =~= iv.skip(i + 1));
        assert(iv.skip(i as int)[0] == iv[i as int]);
        if str_eq(iso[i].path.as_str(), path) {
            if str_eq(iso[i].hash.as_str(), hash) {
                return 0;
            } else {
                return 1;
            }
        }
        i = i + 1;
    }
    2
}

fn sorted_paths_in_class(iso: &[HashEntry], folder: &[HashEntry], class: u8) -> (res: Vec<String>)
    ensures
        res@.map_values(|s: String| s@) == spec_sort_paths(
            spec_paths_in_class(hashes_view(iso@), hashes_view(folder@), class as nat),
        ),
{
    let ghost iv = hashes_view(iso@);
    let ghost fv = hashes_view(folder@);
    let mut sorted: Vec<String> = Vec::new();
    let mut k: usize = 0;
    assert(sorted@.map_values(|s: String| s@) =~= spec_sort_paths(spec_paths_in_class(iv, fv.take(0), class as nat)));
    while k < folder.len()
        invariant
            k <= folder@.len(),
            iv == hashes_view(iso@),
            fv == hashes_view(folder@),
            sorted@.map_values(|s: String| s@) == spec_sort_paths(spec_paths_in_class(iv, fv.take(k as int), class as nat)),
        decreases folder@.len() - k,
    {
        assert(fv.take(k + 1).drop_last() =~= fv.take(k as int));
        assert(fv.take(k + 1).last() == fv[k as int]);
        assert(fv[k as int] == (folder@[k as int].path@, folder@[k as int].hash@));
        let ghost prev = spec_paths_in_class(iv, fv.take(k as int), class as nat);
        if classify(iso, folder[k].path.as_str(), folder[k].hash.as_str()) == class {
            insert_sorted(&mut sorted, to_string(folder[k].path.as_str()));
            assert(spec_paths_in_class(iv, fv.take(k + 1), class as nat) == prev.push(fv[k as int].0));
            assert(prev.push(fv[k as int].0).drop_last() =~= prev);
        } else {
            assert(spec_paths_in_class(iv, fv.take(k + 1), class as nat) == prev);
        }
        k = k + 1;
    }
    assert(fv.take(folder@.len() as int) =~= fv);
    sorted
}

fn push_section(out: &mut String, title: &str, paths: &Vec<String>)
    ensures
        final(out)@ == old(out)@ + spec_section(title@, paths@.map_values(|s: String| s@)),
{
    let ghost pv = paths@.map_values(|s: String| s@);
    if paths.len() == 0 {
        assert(old(out)@ + spec_section(title@, pv) =~= old(out)@);
        return;
    }
    push_str(out, title);
    let ghost start = out@;
    let mut i: usize = 0;
    assert(start + spec_lines(pv.take(0)) =~= start);
    while i < paths.len()
        invariant
            i <= paths@.len(),
            pv == paths@.map_values(|s: String| s@),
            out@ == start + spec_lines(pv.take(i as int)),
        decreases paths@.len() - i,
    {
        assert(pv.take(i + 1).drop_last() =~= pv.take(i as int));
        assert(pv.take(i + 1).last() == paths@[i as int]@);
        push_str(out, "  ");
        push_str(out, paths[i].as_str());
        push_char(out, '\n');
        assert(out@ =~= start + spec_lines(pv.take(i + 1)));
        i = i + 1;
    }
    assert(pv.take(paths@.len() as int) =~= pv);
    assert(out@ =~= old(out)@ + spec_section(title@, pv));
}

/// The report of a comparison between a disc's file hashes and a
/// folder's.
pub fn diff_report(iso: &[HashEntry], folder: &[HashEntry]) -> (res: String)
    ensures
        res@ == spec_diff_report(hashes_view(iso@), hashes_view(folder@)),
{
    let changed = sorted_paths_in_class(iso, folder, 1);
    let added = sorted_paths_in_class(iso, folder, 2);
    let mut out = String::new();
    push_section(&mut out, "Changed:\n", &changed);
    push_section(&mut out, "Added:\n", &added);
    out
}

/// Where the `files` directory of a compared folder is.
pub enum FilesDir {
    /// The folder itself, which is named `files`.
    Itself,
    /// The folder's `files` child.
    Child,
    /// Neither: the comparison cannot go on.
    NotFound,
}

/// Where the `files` directory of a folder is: the folder itself where it
/// is named `files`, else its `files` child where that is a directory
/// (which the caller finds out).
pub open spec fn spec_files_dir(folder: Seq<char>, child_is_dir: bool) -> FilesDir {
    if spec_path_file_name(folder) == Some("files"@) {
        FilesDir::Itself
    } else if child_is_dir {
        FilesDir::Child
    } else {
        FilesDir::NotFound
    }
}

/// Decides where the `files` directory of a folder is.
pub fn find_files_dir(folder: &str, child_is_dir: bool) -> (res: FilesDir)
    ensures
        res == spec_files_dir(folder@, child_is_dir),
{
    let named_files = match path_file_name(folder) {
        Some(n) => str_eq(n.as_str(), "files"),
        None => false,
    };
    if named_files {
        FilesDir::Itself
    } else if child_is_dir {
        FilesDir::Child
    } else {
        FilesDir::NotFound
    }
}

} // verus!
