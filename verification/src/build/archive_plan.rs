//! Which archives to rebuild, with which modifications, from what.
//!
//! Compiled files that live in an archive are grouped by archive; within
//! an archive a later file with the same inner path replaces an earlier
//! one. Only archives that the manifest maps are rebuilt, the most deeply
//! nested first. An archive whose every file the manifest lists is among
//! the modifications is rebuilt from them alone; any other starts from its
//! copy on the disc.

use vstd::prelude::*;
use crate::json::{
    JsonValue, JsonModel, json_entries_view, lemma_view_containers, spec_entries_get, spec_get,
    spec_get_str, spec_as_str, spec_as_array,
};
use crate::text::{chars_of, push_str, str_eq, to_string};
use crate::utils::copy_range;
use crate::formats::iso::iso::{IsoFileEntry, files_view, spec_find_path, lemma_find_path_prefix};
use crate::build::assemble::{Modification, mods_view};

verus! {

/// A file of the mod folder whose hash differs from the manifest's.
pub struct ModifiedFile {
    pub friendly_path: String,
    pub mod_path: String,
    /// The archive, by its path on the disc, that the file belongs to.
    pub archive: Option<String>,
    /// The file's path inside that archive.
    pub internal_path: Option<String>,
}

/// A modified file with the bytes it compiles to.
pub struct CompiledFile {
    pub mod_file: ModifiedFile,
    pub compiled_bytes: Vec<u8>,
}

/// A compiled file as plain values: archive, inner path, bytes.
pub open spec fn compiled_view(c: CompiledFile) -> (Option<Seq<char>>, Option<Seq<char>>, Seq<u8>) {
    (
        match c.mod_file.archive {
            Some(a) => Some(a@),
            None => None,
        },
        match c.mod_file.internal_path {
            Some(p) => Some(p@),
            None => None,
        },
        c.compiled_bytes@,
    )
}

/// The archives of a manifest and their entries, or why the mapping is
/// unusable: it must be a non-empty object whose every value is an object.
pub open spec fn spec_manifest_archives(m: JsonModel) -> Result<Seq<(Seq<char>, JsonModel)>, Seq<char>> {
    match spec_get(m, "archives"@) {
        Some(JsonModel::Object(e)) => if e.len() == 0 {
            Err("Manifest missing required 'archives' mapping"@)
        } else if exists|i: int| 0 <= i < e.len() && !(#[trigger] e[i].1 is Object) {
            Err("Manifest archive mapping is not an object"@)
        } else {
            Ok(e)
        },
        _ => Err("Manifest missing required 'archives' mapping"@),
    }
}

/// Checks the manifest's archive mapping and gives its members.
pub fn load_manifest_archives(manifest: &JsonValue) -> (res: Result<&Vec<(String, JsonValue)>, String>)
    ensures
        match spec_manifest_archives(manifest@) {
            Ok(e) => res matches Ok(v) && json_entries_view(v@) == e,
            Err(msg) => res matches Err(m) && m@ == msg,
        },
{
    let archives = match manifest.get("archives") {
        Some(v) => v,
        None => {
            return Err(to_string("Manifest missing required 'archives' mapping"));
        },
    };
    proof {
        lemma_view_containers(*archives);
    }
    match archives {
        JsonValue::Object(entries) => {
            if entries.len() == 0 {
                return Err(to_string("Manifest missing required 'archives' mapping"));
            }
            let ghost ev = json_entries_view(entries@);
            assert(spec_get(manifest@, "archives"@) == Some(JsonModel::Object(ev)));
            let mut i: usize = 0;
            while i < entries.len()
                invariant
                    i <= entries@.len(),
                    ev == json_entries_view(entries@),
                    spec_get(manifest@, "archives"@) == Some(JsonModel::Object(ev)),
                    ev.len() > 0,
                    forall|j: int| 0 <= j < i ==> ev[j].1 is Object,
                decreases entries@.len() - i,
            {
                proof {
                    lemma_view_containers(entries@[i as int].1);
                }
                if !entries[i].1.is_object() {
                    assert(!(ev[i as int].1 is Object));
                    return Err(to_string("Manifest archive mapping is not an object"));
                }
                i = i + 1;
            }
            Ok(entries)
        },
        _ => Err(to_string("Manifest missing required 'archives' mapping")),
    }
}

/// The first modification with path `path`.
pub open spec fn spec_mod_index(mods: Seq<(Seq<char>, Seq<u8>)>, path: Seq<char>) -> Option<nat>
    decreases mods.len(),
{
    if mods.len() == 0 {
        None
    } else {
        match spec_mod_index(mods.drop_last(), path) {
            Some(i) => Some(i),
            None => if mods.last().0 == path {
                Some((mods.len() - 1) as nat)
            } else {
                None
            },
        }
    }
}

/// Modifications with one more file: it replaces the (first) modification
/// with the same path, or comes last.
pub open spec fn spec_mod_insert(mods: Seq<(Seq<char>, Seq<u8>)>, path: Seq<char>, data: Seq<u8>) -> Seq<(Seq<char>, Seq<u8>)> {
    match spec_mod_index(mods, path) {
        Some(i) => mods.update(i as int, (path, data)),
        None => mods.push((path, data)),
    }
}

/// The first group of archive `arc`.
pub open spec fn spec_group_index(groups: Seq<(Seq<char>, Seq<(Seq<char>, Seq<u8>)>)>, arc: Seq<char>) -> Option<nat>
    decreases groups.len(),
{
    if groups.len() == 0 {
        None
    } else {
        match spec_group_index(groups.drop_last(), arc) {
            Some(i) => Some(i),
            None => if groups.last().0 == arc {
                Some((groups.len() - 1) as nat)
            } else {
                None
            },
        }
    }
}

/// Archive groups with one more file: it joins its archive's group, or a
/// new group comes last.
pub open spec fn spec_group_insert(
    groups: Seq<(Seq<char>, Seq<(Seq<char>, Seq<u8>)>)>,
    arc: Seq<char>,
    path: Seq<char>,
    data: Seq<u8>,
) -> Seq<(Seq<char>, Seq<(Seq<char>, Seq<u8>)>)> {
    match spec_group_index(groups, arc) {
        Some(i) => groups.update(i as int, (arc, spec_mod_insert(groups[i as int].1, path, data))),
        None => groups.push((arc, seq![(path, data)])),
    }
}

proof fn lemma_mod_index_prefix(mods: Seq<(Seq<char>, Seq<u8>)>, path: Seq<char>, n: nat)
    requires
        n <= mods.len(),
        spec_mod_index(mods.take(n as int), path) is Some,
    ensures
        spec_mod_index(mods, path) == spec_mod_index(mods.take(n as int), path),
    decreases mods.len() - n,
{
    if n < mods.len() {
        assert(mods.take(n as int + 1).drop_last() =~= mods.take(n as int));
        lemma_mod_index_prefix(mods, path, n + 1);
    } else {
        assert(mods.take(n as int) =~= mods);
    }
}

proof fn lemma_group_index_prefix(groups: Seq<(Seq<char>, Seq<(Seq<char>, Seq<u8>)>)>, arc: Seq<char>, n: nat)
    requires
        n <= groups.len(),
        spec_group_index(groups.take(n as int), arc) is Some,
    ensures
        spec_group_index(groups, arc) == spec_group_index(groups.take(n as int), arc),
    decreases groups.len() - n,
{
    if n < groups.len() {
        assert(groups.take(n as int + 1).drop_last() =~= groups.take(n as int));
        lemma_group_index_prefix(groups, arc, n + 1);
    } else {
        assert(groups.take(n as int) =~= groups);
    }
}

proof fn lemma_group_index_bound(groups: Seq<(Seq<char>, Seq<(Seq<char>, Seq<u8>)>)>, arc: Seq<char>)
    ensures
        spec_group_index(groups, arc) matches Some(i) ==> i < groups.len() && groups[i as int].0 == arc,
    decreases groups.len(),
{
    if groups.len() > 0 {
        lemma_group_index_bound(groups.drop_last(), arc);
    }
}

/// The compiled files that live in archives, grouped by archive in order
/// of first appearance; the error is for the first such file without an
/// inner path.
pub open spec fn spec_groups(cs: Seq<(Option<Seq<char>>, Option<Seq<char>>, Seq<u8>)>) -> Result<
    Seq<(Seq<char>, Seq<(Seq<char>, Seq<u8>)>)>,
    Seq<char>,
>
    decreases cs.len(),
{
    if cs.len() == 0 {
        Ok(Seq::empty())
    } else {
        match spec_groups(cs.drop_last()) {
            Err(e) => Err(e),
            Ok(g) => {
                let c = cs.last();
                match c.0 {
                    None => Ok(g),
                    Some(arc) => match c.1 {
                        None => Err("Compiled file missing internal_path"@),
                        Some(path) => Ok(spec_group_insert(g, arc, path, c.2)),
                    },
                }
            },
        }
    }
}

/// The plain values of archive groups.
pub open spec fn groups_view(g: Seq<(String, Vec<Modification>)>) -> Seq<(Seq<char>, Seq<(Seq<char>, Seq<u8>)>)> {
    g.map_values(|x: (String, Vec<Modification>)| (x.0@, mods_view(x.1@)))
}

fn copy_bytes(v: &Vec<u8>) -> (res: Vec<u8>)
    ensures
        res@ == v@,
{
    let r = copy_range(v.as_slice(), 0, v.len());
    assert(r@ =~= v@);
    r
}

fn mod_insert(mods: &mut Vec<Modification>, path: &str, data: Vec<u8>)
    ensures
        mods_view(final(mods)@) == spec_mod_insert(mods_view(old(mods)@), path@, data@),
{
    let ghost mv = mods_view(mods@);
    let mut i: usize = 0;
    while i < mods.len()
        invariant
            i <= mods@.len(),
            mods@ == old(mods)@,
            mv == mods_view(mods@),
            spec_mod_index(mv.take(i as int), path@) is None,
        decreases mods@.len() - i,
    {
        proof {
            assert(mv.take(i + 1).drop_last() =~= mv.take(i as int));
        }
        if str_eq(mods[i].path.as_str(), path) {
            proof {
                assert(mv.take(i + 1).last() == mv[i as int]);
                lemma_mod_index_prefix(mv, path@, (i + 1) as nat);
            }
            let ghost d = data@;
            mods.set(i, Modification { path: to_string(path), data });
            assert(mods_view(mods@) =~= mv.update(i as int, (path@, d)));
            return;
        }
        i = i + 1;
    }
    assert(mv.take(mv.len() as int) =~= mv);
    let ghost d = data@;
    mods.push(Modification { path: to_string(path), data });
    assert(mods_view(mods@) =~= mv.push((path@, d)));
}


/// The plain values of a list of compiled files.
pub open spec fn compiled_seq_view(cs: Seq<CompiledFile>) -> Seq<(Option<Seq<char>>, Option<Seq<char>>, Seq<u8>)> {
    cs.map_values(|c: CompiledFile| compiled_view(c))
}

fn group_index(groups: &Vec<(String, Vec<Modification>)>, arc: &str) -> (res: Option<usize>)
    ensures
        match spec_group_index(groups_view(groups@), arc@) {
            Some(i) => res matches Some(k) && k as nat == i,
            None => res is None,
        },
{
    let ghost gv = groups_view(groups@);
    let mut i: usize = 0;
    while i < groups.len()
        invariant
            i <= groups@.len(),
            gv == groups_view(groups@),
            spec_group_index(gv.take(i as int), arc@) is None,
        decreases groups@.len() - i,
    {
        proof {
            assert(gv.take(i + 1).drop_last() =~= gv.take(i as int));
            assert(gv.take(i + 1).last() == gv[i as int]);
        }
        if str_eq(groups[i].0.as_str(), arc) {
            proof {
                lemma_group_index_prefix(gv, arc@, (i + 1) as nat);
            }
            return Some(i);
        }
        i = i + 1;
    }
    assert(gv.take(gv.len() as int) =~= gv);
    None
}

/// Groups the compiled files that live in archives by archive.
pub fn group_modifications(compiled: &[CompiledFile]) -> (res: Result<Vec<(String, Vec<Modification>)>, String>)
    ensures
        match spec_groups(compiled_seq_view(compiled@)) {
            Ok(g) => res matches Ok(v) && groups_view(v@) == g,
            Err(e) => res matches Err(m) && m@ == e,
        },
{
    let ghost cv = compiled_seq_view(compiled@);
    let mut groups: Vec<(String, Vec<Modification>)> = Vec::new();
    let mut k: usize = 0;
    assert(groups_view(groups@) =~= Seq::<(Seq<char>, Seq<(Seq<char>, Seq<u8>)>)>::empty());
    while k < compiled.len()
        invariant
            k <= compiled@.len(),
            cv == compiled_seq_view(compiled@),
            spec_groups(cv.take(k as int)) == Ok::<Seq<(Seq<char>, Seq<(Seq<char>, Seq<u8>)>)>, Seq<char>>(
                groups_view(groups@),
            ),
        decreases compiled@.len() - k,
    {
        let c = &compiled[k];
        proof {
            assert(cv.take(k + 1).drop_last() =~= cv.take(k as int));
            assert(cv.take(k + 1).last() == compiled_view(*c));
        }
        match &c.mod_file.archive {
            None => {},
            Some(arc) => {
                let path = match &c.mod_file.internal_path {
                    Some(p) => p,
                    None => {
                        proof {
                            lemma_groups_err_prefix(cv, (k + 1) as nat);
                        }
                        return Err(to_string("Compiled file missing internal_path"));
                    },
                };
                let data = copy_bytes(&c.compiled_bytes);
                let ghost gv = groups_view(groups@);
                match group_index(&groups, arc.as_str()) {
                    Some(gi) => {
                        proof {
                            lemma_group_index_bound(gv, arc@);
                            assert(spec_group_index(gv, arc@) == Some(gi as nat));
                            assert(gv[gi as int].0 == arc@);
                        }
                        let ghost g0 = groups@;
                        assert(gv[gi as int] == (g0[gi as int].0@, mods_view(g0[gi as int].1@)));
                        let removed = groups.remove(gi);
                        assert(removed == g0[gi as int]);
                        let (name, mut mods) = removed;
                        assert(groups@ == g0.remove(gi as int));
                        assert(mods_view(mods@) == gv[gi as int].1);
                        assert(name@ == arc@);
                        mod_insert(&mut mods, path.as_str(), data);
                        let ghost new_mods = mods_view(mods@);
                        let ghost nm = name@;
                        groups.insert(gi, (name, mods));
                        assert(groups@ == g0.remove(gi as int).insert(gi as int, groups@[gi as int]));
                        assert(groups_view(groups@) =~= gv.update(gi as int, (arc@, new_mods)));
                    },
                    None => {
                        let mut mods: Vec<Modification> = Vec::new();
                        let ghost d = data@;
                        mods.push(Modification { path: to_string(path.as_str()), data });
                        assert(mods_view(mods@) =~= seq![(path@, d)]);
                        groups.push((to_string(arc.as_str()), mods));
                        assert(groups_view(groups@) =~= gv.push((arc@, seq![(path@, d)])));
                    },
                }
            },
        }
        k = k + 1;
    }
    assert(cv.take(compiled@.len() as int) =~= cv);
    Ok(groups)
}

proof fn lemma_groups_err_prefix(cs: Seq<(Option<Seq<char>>, Option<Seq<char>>, Seq<u8>)>, n: nat)
    requires
        n <= cs.len(),
        spec_groups(cs.take(n as int)) is Err,
    ensures
        spec_groups(cs) == spec_groups(cs.take(n as int)),
    decreases cs.len() - n,
{
    if n < cs.len() {
        assert(cs.take(n as int + 1).drop_last() =~= cs.take(n as int));
        lemma_groups_err_prefix(cs, n + 1);
    } else {
        assert(cs.take(n as int) =~= cs);
    }
}

/// The groups whose archive the manifest maps, in order.
pub open spec fn spec_filter_mapped(
    g: Seq<(Seq<char>, Seq<(Seq<char>, Seq<u8>)>)>,
    arcs: Seq<(Seq<char>, JsonModel)>,
) -> Seq<(Seq<char>, Seq<(Seq<char>, Seq<u8>)>)>
    decreases g.len(),
{
    if g.len() == 0 {
        Seq::empty()
    } else {
        let prev = spec_filter_mapped(g.drop_last(), arcs);
        if spec_entries_get(arcs, g.last().0) is Some {
            prev.push(g.last())
        } else {
            prev
        }
    }
}

/// The number of `/` in a path: how deeply an archive is nested.
pub open spec fn spec_depth(s: Seq<char>) -> nat
    decreases s.len(),
{
    if s.len() == 0 {
        0
    } else {
        spec_depth(s.drop_last()) + if s.last() == '/' {
            1nat
        } else {
            0nat
        }
    }
}

/// Where a group of depth `d` goes in a list sorted deepest first: after
/// every group at least as deep.
pub open spec fn spec_depth_pos(sorted: Seq<(Seq<char>, Seq<(Seq<char>, Seq<u8>)>)>, d: nat) -> nat
    decreases sorted.len(),
{
    if sorted.len() == 0 {
        0
    } else if spec_depth(sorted[0].0) < d {
        0
    } else {
        1 + spec_depth_pos(sorted.drop_first(), d)
    }
}

/// The groups sorted deepest first, groups of equal depth keeping their
/// order.
pub open spec fn spec_sort_by_depth(g: Seq<(Seq<char>, Seq<(Seq<char>, Seq<u8>)>)>) -> Seq<(Seq<char>, Seq<(Seq<char>, Seq<u8>)>)>
    decreases g.len(),
{
    if g.len() == 0 {
        Seq::empty()
    } else {
        let sorted = spec_sort_by_depth(g.drop_last());
        sorted.insert(spec_depth_pos(sorted, spec_depth(g.last().0)) as int, g.last())
    }
}

fn depth(s: &str) -> (res: usize)
    ensures
        res == spec_depth(s@),
{
    let chars = chars_of(s);
    let mut n: usize = 0;
    let mut i: usize = 0;
    while i < chars.len()
        invariant
            i <= chars@.len(),
            chars@ == s@,
            n == spec_depth(s@.take(i as int)),
            n <= i,
        decreases chars@.len() - i,
    {
        assert(s@.take(i + 1).drop_last() =~= s@.take(i as int));
        if chars[i] == '/' {
            n = n + 1;
        }
        i = i + 1;
    }
    assert(s@.take(chars@.len() as int) =~= s@);
    n
}

proof fn lemma_depth_pos_bound(sorted: Seq<(Seq<char>, Seq<(Seq<char>, Seq<u8>)>)>, d: nat)
    ensures
        spec_depth_pos(sorted, d) <= sorted.len(),
    decreases sorted.len(),
{
    if sorted.len() > 0 && spec_depth(sorted[0].0) >= d {
        lemma_depth_pos_bound(sorted.drop_first(), d);
    }
}

fn depth_pos(sorted: &Vec<(String, Vec<Modification>)>, d: usize) -> (res: usize)
    ensures
        res == spec_depth_pos(groups_view(sorted@), d as nat),
{
    let ghost gv = groups_view(sorted@);
    let mut p: usize = 0;
    assert(gv.skip(0) =~= gv);
    while p < sorted.len()
        invariant
            p <= sorted@.len(),
            gv == groups_view(sorted@),
            spec_depth_pos(gv, d as nat) == p + spec_depth_pos(gv.skip(p as int), d as nat),
        decreases sorted@.len() - p,
    {
        assert(gv.skip(p as int).drop_first() =~= gv.skip(p + 1));
        assert(gv.skip(p as int)[0] == gv[p as int]);
        if depth(sorted[p].0.as_str()) < d {
            return p;
        }
        p = p + 1;
    }
    p
}

/// Sorts archive groups deepest first, groups of equal depth keeping their
/// order.
pub fn sort_by_depth(groups: Vec<(String, Vec<Modification>)>) -> (res: Vec<(String, Vec<Modification>)>)
    ensures
        groups_view(res@) == spec_sort_by_depth(groups_view(groups@)),
{
    let ghost gv = groups_view(groups@);
    let mut rest = groups;
    let mut sorted: Vec<(String, Vec<Modification>)> = Vec::new();
    let ghost mut taken: nat = 0;
    assert(groups_view(sorted@) =~= spec_sort_by_depth(gv.take(0)));
    assert(groups_view(rest@) =~= gv.skip(0));
    while rest.len() > 0
        invariant
            taken <= gv.len(),
            groups_view(sorted@) == spec_sort_by_depth(gv.take(taken as int)),
            groups_view(rest@) == gv.skip(taken as int),
        decreases rest@.len(),
    {
        let ghost r0 = rest@;
        let item = rest.remove(0);
        let ghost iv = (item.0@, mods_view(item.1@));
        proof {
            assert(groups_view(r0).len() == r0.len());
            assert(gv.skip(taken as int).len() == gv.len() - taken);
            assert(groups_view(r0)[0] == iv);
            assert(r0.len() == gv.len() - taken);
            assert(iv == gv.skip(taken as int)[0]);
            assert(rest@ =~= r0.skip(1));
            assert(gv.take(taken as int + 1).drop_last() =~= gv.take(taken as int));
            assert(gv.take(taken as int + 1).last() == iv);
            assert forall|j: int| 0 <= j < rest@.len() implies groups_view(rest@)[j] == gv.skip(
                taken as int + 1,
            )[j] by {
                assert(groups_view(rest@)[j] == groups_view(r0)[j + 1]);
                assert(gv.skip(taken as int)[j + 1] == gv.skip(taken as int + 1)[j]);
            }
            assert(groups_view(rest@) =~= gv.skip(taken as int + 1));
        }
        let d = depth(item.0.as_str());
        let p = depth_pos(&sorted, d);
        proof {
            lemma_depth_pos_bound(groups_view(sorted@), d as nat);
        }
        let ghost before = groups_view(sorted@);
        sorted.insert(p, item);
        proof {
            assert(groups_view(sorted@) =~= before.insert(p as int, iv));
            taken = taken + 1;
        }
    }
    assert(gv.take(gv.len() as int) =~= gv);
    sorted
}

fn entries_has(entries: &Vec<(String, JsonValue)>, key: &str) -> (res: bool)
    ensures
        res == (spec_entries_get(json_entries_view(entries@), key@) is Some),
{
    let ghost ev = json_entries_view(entries@);
    assert(ev.skip(0) =~= ev);
    let mut i: usize = 0;
    while i < entries.len()
        invariant
            i <= entries@.len(),
            ev == json_entries_view(entries@),
            spec_entries_get(ev, key@) == spec_entries_get(ev.skip(i as int), key@),
        decreases entries@.len() - i,
    {
        assert(ev.skip(i as int).drop_first() =~= ev.skip(i + 1));
        assert(ev.skip(i as int)[0] == ev[i as int]);
        if str_eq(entries[i].0.as_str(), key) {
            return true;
        }
        i = i + 1;
    }
    false
}

/// Keeps the groups whose archive the manifest maps.
pub fn filter_mapped(groups: Vec<(String, Vec<Modification>)>, archives: &Vec<(String, JsonValue)>) -> (res: Vec<(String, Vec<Modification>)>)
    ensures
        groups_view(res@) == spec_filter_mapped(groups_view(groups@), json_entries_view(archives@)),
{
    let ghost gv = groups_view(groups@);
    let ghost av = json_entries_view(archives@);
    let mut rest = groups;
    let mut kept: Vec<(String, Vec<Modification>)> = Vec::new();
    let ghost mut taken: nat = 0;
    assert(groups_view(kept@) =~= spec_filter_mapped(gv.take(0), av));
    assert(groups_view(rest@) =~= gv.skip(0));
    while rest.len() > 0
        invariant
            taken <= gv.len(),
            av == json_entries_view(archives@),
            groups_view(kept@) == spec_filter_mapped(gv.take(taken as int), av),
            groups_view(rest@) == gv.skip(taken as int),
        decreases rest@.len(),
    {
        let ghost r0 = rest@;
        let item = rest.remove(0);
        let ghost iv = (item.0@, mods_view(item.1@));
        proof {
            assert(groups_view(r0).len() == r0.len());
            assert(gv.skip(taken as int).len() == gv.len() - taken);
            assert(groups_view(r0)[0] == iv);
            assert(iv == gv.skip(taken as int)[0]);
            assert(rest@ =~= r0.skip(1));
            assert(gv.take(taken as int + 1).drop_last() =~= gv.take(taken as int));
            assert(gv.take(taken as int + 1).last() == iv);
            assert forall|j: int| 0 <= j < rest@.len() implies groups_view(rest@)[j] == gv.skip(
                taken as int + 1,
            )[j] by {
                assert(groups_view(rest@)[j] == groups_view(r0)[j + 1]);
                assert(gv.skip(taken as int)[j + 1] == gv.skip(taken as int + 1)[j]);
            }
            assert(groups_view(rest@) =~= gv.skip(taken as int + 1));
        }
        let ghost before = groups_view(kept@);
        if entries_has(archives, item.0.as_str()) {
            kept.push(item);
            assert(groups_view(kept@) =~= before.push(iv));
        }
        proof {
            taken = taken + 1;
        }
    }
    assert(gv.take(gv.len() as int) =~= gv);
    kept
}

/// The archive groups to rebuild: nothing at all where no compiled file
/// lives in an archive; else the groups whose archive the manifest maps,
/// deepest first.
pub open spec fn spec_plan_groups(
    cs: Seq<(Option<Seq<char>>, Option<Seq<char>>, Seq<u8>)>,
    manifest: JsonModel,
) -> Result<Option<Seq<(Seq<char>, Seq<(Seq<char>, Seq<u8>)>)>>, Seq<char>> {
    match spec_manifest_archives(manifest) {
        Err(e) => Err(e),
        Ok(arcs) => match spec_groups(cs) {
            Err(e) => Err(e),
            Ok(g) => if g.len() == 0 {
                Ok(None)
            } else {
                Ok(Some(spec_sort_by_depth(spec_filter_mapped(g, arcs))))
            },
        },
    }
}

/// Plans which archives to rebuild with which modifications, after
/// checking the manifest's archive mapping.
pub fn plan_archive_groups(compiled: &[CompiledFile], manifest: &JsonValue) -> (res: Result<Option<Vec<(String, Vec<Modification>)>>, String>)
    ensures
        match spec_plan_groups(compiled_seq_view(compiled@), manifest@) {
            Ok(None) => res matches Ok(None),
            Ok(Some(g)) => res matches Ok(Some(v)) && groups_view(v@) == g,
            Err(e) => res matches Err(m) && m@ == e,
        },
{
    let archives = match load_manifest_archives(manifest) {
        Ok(a) => a,
        Err(e) => {
            return Err(e);
        },
    };
    let groups = match group_modifications(compiled) {
        Ok(g) => g,
        Err(e) => {
            return Err(e);
        },
    };
    if groups.len() == 0 {
        return Ok(None);
    }
    let kept = filter_mapped(groups, archives);
    Ok(Some(sort_by_depth(kept)))
}

/// The inner paths that the manifest lists for an archive: each entry's
/// `path`, and the `path` of each of its `sources` that names the archive.
pub open spec fn spec_entry_internal_paths(entry: JsonModel, arc: Seq<char>) -> Seq<Seq<char>> {
    let own = match spec_get_str(entry, "path"@) {
        Some(p) => seq![p],
        None => Seq::empty(),
    };
    let from_sources = match spec_get(entry, "sources"@) {
        Some(JsonModel::Array(srcs)) => spec_source_paths(srcs, arc),
        _ => Seq::empty(),
    };
    own + from_sources
}

/// The paths of the sources that name archive `arc`.
pub open spec fn spec_source_paths(srcs: Seq<JsonModel>, arc: Seq<char>) -> Seq<Seq<char>>
    decreases srcs.len(),
{
    if srcs.len() == 0 {
        Seq::empty()
    } else {
        let prev = spec_source_paths(srcs.drop_last(), arc);
        let s = srcs.last();
        if spec_get_str(s, "archive"@) == Some(arc) && spec_get_str(s, "path"@) is Some {
            prev.push(spec_get_str(s, "path"@)->Some_0)
        } else {
            prev
        }
    }
}

/// The inner paths listed by the entries of an archive's mapping.
pub open spec fn spec_internal_paths(entries: Seq<(Seq<char>, JsonModel)>, arc: Seq<char>) -> Seq<Seq<char>>
    decreases entries.len(),
{
    if entries.len() == 0 {
        Seq::empty()
    } else {
        spec_internal_paths(entries.drop_last(), arc) + if entries.last().1 is Object {
            spec_entry_internal_paths(entries.last().1, arc)
        } else {
            Seq::empty()
        }
    }
}

/// Whether an archive can be rebuilt from its modifications alone: the
/// manifest maps it, lists at least one inner path for it, and every such
/// path is modified.
pub open spec fn spec_can_rebuild(arc: Seq<char>, mods: Seq<(Seq<char>, Seq<u8>)>, arcs: Seq<(Seq<char>, JsonModel)>) -> bool {
    match spec_entries_get(arcs, arc) {
        Some(JsonModel::Object(entries)) => {
            let ps = spec_internal_paths(entries, arc);
            ps.len() > 0 && forall|i: int| 0 <= i < ps.len() ==> spec_mod_index(mods, #[trigger] ps[i]) is Some
        },
        _ => false,
    }
}

fn entries_lookup<'a>(entries: &'a Vec<(String, JsonValue)>, key: &str) -> (res: Option<&'a JsonValue>)
    ensures
        match spec_entries_get(json_entries_view(entries@), key@) {
            Some(m) => res matches Some(r) && r@ == m,
            None => res is None,
        },
{
    let ghost ev = json_entries_view(entries@);
    assert(ev.skip(0) =~= ev);
    let mut i: usize = 0;
    while i < entries.len()
        invariant
            i <= entries@.len(),
            ev == json_entries_view(entries@),
            spec_entries_get(ev, key@) == spec_entries_get(ev.skip(i as int), key@),
        decreases entries@.len() - i,
    {
        assert(ev.skip(i as int).drop_first() =~= ev.skip(i + 1));
        assert(ev.skip(i as int)[0] == ev[i as int]);
        if str_eq(entries[i].0.as_str(), key) {
            return Some(&entries[i].1);
        }
        i = i + 1;
    }
    None
}

fn has_mod(mods: &Vec<Modification>, path: &str) -> (res: bool)
    ensures
        res == (spec_mod_index(mods_view(mods@), path@) is Some),
{
    let ghost mv = mods_view(mods@);
    let mut i: usize = 0;
    while i < mods.len()
        invariant
            i <= mods@.len(),
            mv == mods_view(mods@),
            spec_mod_index(mv.take(i as int), path@) is None,
        decreases mods@.len() - i,
    {
        assert(mv.take(i + 1).drop_last() =~= mv.take(i as int));
        assert(mv.take(i + 1).last() == mv[i as int]);
        if str_eq(mods[i].path.as_str(), path) {
            proof {
                lemma_mod_index_prefix(mv, path@, (i + 1) as nat);
            }
            return true;
        }
        i = i + 1;
    }
    assert(mv.take(mv.len() as int) =~= mv);
    false
}

fn source_paths(srcs: &Vec<JsonValue>, arc: &str, out: &mut Vec<String>)
    ensures
        strings_seq(final(out)@) == strings_seq(old(out)@) + spec_source_paths(
            crate::json::json_seq_view(srcs@),
            arc@,
        ),
{
    let ghost sv = crate::json::json_seq_view(srcs@);
    let ghost start = strings_seq(out@);
    let mut i: usize = 0;
    assert(start + spec_source_paths(sv.take(0), arc@) =~= start);
    while i < srcs.len()
        invariant
            i <= srcs@.len(),
            sv == crate::json::json_seq_view(srcs@),
            strings_seq(out@) == start + spec_source_paths(sv.take(i as int), arc@),
        decreases srcs@.len() - i,
    {
        assert(sv.take(i + 1).drop_last() =~= sv.take(i as int));
        assert(sv.take(i + 1).last() == srcs@[i as int]@);
        let s = &srcs[i];
        let names_arc = match s.get("archive") {
            Some(a) => match a.as_str() {
                Some(t) => str_eq(t, arc),
                None => false,
            },
            None => false,
        };
        if names_arc {
            match s.get("path") {
                Some(pv) => match pv.as_str() {
                    Some(p) => {
                        let ghost before = strings_seq(out@);
                        out.push(to_string(p));
                        assert(strings_seq(out@) =~= before.push(p@));
                    },
                    None => {},
                },
                None => {},
            }
        }
        i = i + 1;
    }
    assert(sv.take(srcs@.len() as int) =~= sv);
}

/// The plain values of a list of strings.
pub open spec fn strings_seq(v: Seq<String>) -> Seq<Seq<char>> {
    v.map_values(|s: String| s@)
}

fn internal_paths(entries: &Vec<(String, JsonValue)>, arc: &str) -> (res: Vec<String>)
    ensures
        strings_seq(res@) == spec_internal_paths(json_entries_view(entries@), arc@),
{
    let ghost ev = json_entries_view(entries@);
    let mut out: Vec<String> = Vec::new();
    let mut i: usize = 0;
    assert(strings_seq(out@) =~= spec_internal_paths(ev.take(0), arc@));
    while i < entries.len()
        invariant
            i <= entries@.len(),
            ev == json_entries_view(entries@),
            strings_seq(out@) == spec_internal_paths(ev.take(i as int), arc@),
        decreases entries@.len() - i,
    {
        assert(ev.take(i + 1).drop_last() =~= ev.take(i as int));
        assert(ev.take(i + 1).last() == ev[i as int]);
        let entry = &entries[i].1;
        let ghost before = strings_seq(out@);
        if entry.is_object() {
            match entry.get("path") {
                Some(pv) => match pv.as_str() {
                    Some(p) => {
                        out.push(to_string(p));
                        assert(strings_seq(out@) =~= before.push(p@));
                    },
                    None => {},
                },
                None => {},
            }
            let ghost mid = strings_seq(out@);
            match entry.get("sources") {
                Some(sv) => match sv.as_array() {
                    Some(srcs) => {
                        source_paths(srcs, arc, &mut out);
                    },
                    None => {},
                },
                None => {},
            }
            proof {
                let m = entry@;
                let own = match spec_get_str(m, "path"@) {
                    Some(p) => seq![p],
                    None => Seq::<Seq<char>>::empty(),
                };
                assert(mid =~= before + own);
                assert(strings_seq(out@) =~= before + spec_entry_internal_paths(m, arc@));
            }
        }
        i = i + 1;
    }
    assert(ev.take(entries@.len() as int) =~= ev);
    out
}

/// Whether an archive can be rebuilt from its modifications alone.
pub fn can_rebuild_archive_without_iso(arc_iso_path: &str, modifications: &Vec<Modification>, archives: &Vec<(String, JsonValue)>) -> (res: bool)
    ensures
        res == spec_can_rebuild(arc_iso_path@, mods_view(modifications@), json_entries_view(archives@)),
{
    let entry = match entries_lookup(archives, arc_iso_path) {
        Some(e) => e,
        None => {
            return false;
        },
    };
    proof {
        lemma_view_containers(*entry);
    }
    let entries = match entry {
        JsonValue::Object(es) => es,
        _ => {
            return false;
        },
    };
    let paths = internal_paths(entries, arc_iso_path);
    if paths.len() == 0 {
        return false;
    }
    let ghost ps = strings_seq(paths@);
    let mut i: usize = 0;
    while i < paths.len()
        invariant
            i <= paths@.len(),
            ps == strings_seq(paths@),
            ps == spec_internal_paths(json_entries_view(entries@), arc_iso_path@),
            ps.len() > 0,
            spec_entries_get(json_entries_view(archives@), arc_iso_path@) == Some(
                JsonModel::Object(json_entries_view(entries@)),
            ),
            forall|j: int| 0 <= j < i ==> spec_mod_index(mods_view(modifications@), #[trigger] ps[j]) is Some,
        decreases paths@.len() - i,
    {
        if !has_mod(modifications, paths[i].as_str()) {
            assert(!(spec_mod_index(mods_view(modifications@), ps[i as int]) is Some));
            return false;
        }
        i = i + 1;
    }
    true
}

/// Where an archive to rebuild comes from: `None` where the modifications
/// alone will do, else the index of its file among those of the disc; the
/// error is for an archive the disc does not hold.
pub open spec fn spec_archive_source(
    arc: Seq<char>,
    mods: Seq<(Seq<char>, Seq<u8>)>,
    arcs: Seq<(Seq<char>, JsonModel)>,
    files: Seq<crate::formats::iso::iso::IsoFileModel>,
) -> Result<Option<nat>, Seq<char>> {
    if spec_can_rebuild(arc, mods, arcs) {
        Ok(None)
    } else {
        match spec_find_path(files, arc) {
            Some(k) => Ok(Some(k)),
            None => Err("Arc not found in ISO: "@ + arc),
        }
    }
}

/// Decides where an archive to rebuild comes from.
pub fn archive_source(
    arc_iso_path: &str,
    modifications: &Vec<Modification>,
    archives: &Vec<(String, JsonValue)>,
    iso_files: &[IsoFileEntry],
) -> (res: Result<Option<usize>, String>)
    ensures
        match spec_archive_source(arc_iso_path@, mods_view(modifications@), json_entries_view(archives@), files_view(iso_files@)) {
            Ok(None) => res matches Ok(None),
            Ok(Some(k)) => res matches Ok(Some(i)) && i as nat == k,
            Err(e) => res matches Err(m) && m@ == e,
        },
{
    if can_rebuild_archive_without_iso(arc_iso_path, modifications, archives) {
        return Ok(None);
    }
    let ghost fv = files_view(iso_files@);
    let mut k: usize = 0;
    while k < iso_files.len()
        invariant
            k <= iso_files@.len(),
            fv == files_view(iso_files@),
            !spec_can_rebuild(arc_iso_path@, mods_view(modifications@), json_entries_view(archives@)),
            spec_find_path(fv.take(k as int), arc_iso_path@) is None,
        decreases iso_files@.len() - k,
    {
        assert(fv.take(k + 1).drop_last() =~= fv.take(k as int));
        assert(fv.take(k + 1).last() == iso_files@[k as int]@);
        if str_eq(iso_files[k].path.as_str(), arc_iso_path) {
            proof {
                lemma_find_path_prefix(fv, arc_iso_path@, (k + 1) as nat);
            }
            return Ok(Some(k));
        }
        k = k + 1;
    }
    assert(fv.take(iso_files@.len() as int) =~= fv);
    let mut m = to_string("Arc not found in ISO: ");
    push_str(&mut m, arc_iso_path);
    Err(m)
}

} // verus!
