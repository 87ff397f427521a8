//! The manifest of an export.
//!
//! The manifest records every exported file under `entries`, with the
//! `archive` member taken off each entry and off each of its sources. It
//! also holds an `archives` lookup: for each archive, the entries of the
//! files that live in it, by friendly path, and the sources of the
//! consolidated message file, by their path inside the archive.

use vstd::prelude::*;
use crate::json::{
    JsonValue, JsonModel, json_clone, json_entries_view, json_seq_view, lemma_entries_view_push,
    lemma_seq_view_push, lemma_view_containers, member, spec_get, spec_get_str,
};
use crate::text::{str_eq, to_string};

verus! {

/// The members other than `key`.
pub open spec fn spec_remove_member(es: Seq<(Seq<char>, JsonModel)>, key: Seq<char>) -> Seq<(Seq<char>, JsonModel)>
    decreases es.len(),
{
    if es.len() == 0 {
        Seq::empty()
    } else {
        let prev = spec_remove_member(es.drop_last(), key);
        if es.last().0 == key {
            prev
        } else {
            prev.push(es.last())
        }
    }
}

/// A source without its `archive` member.
pub open spec fn spec_sanitize_source(x: JsonModel) -> JsonModel {
    match x {
        JsonModel::Object(es) => JsonModel::Object(spec_remove_member(es, "archive"@)),
        _ => x,
    }
}

/// Members with each source of a `sources` array sanitized.
pub open spec fn spec_sanitize_sources(es: Seq<(Seq<char>, JsonModel)>) -> Seq<(Seq<char>, JsonModel)> {
    Seq::new(
        es.len(),
        |i: int|
            if es[i].0 == "sources"@ && es[i].1 is Array {
                (
                    es[i].0,
                    JsonModel::Array(
                        Seq::new(es[i].1->Array_0.len(), |j: int| spec_sanitize_source(es[i].1->Array_0[j])),
                    ),
                )
            } else {
                es[i]
            },
    )
}

/// An entry without its `archive` member and without that of any of its
/// sources.
pub open spec fn spec_sanitize(v: JsonModel) -> JsonModel {
    match v {
        JsonModel::Object(es) => JsonModel::Object(spec_sanitize_sources(spec_remove_member(es, "archive"@))),
        _ => v,
    }
}

fn remove_member(es: &Vec<(String, JsonValue)>, key: &str) -> (res: Vec<(String, JsonValue)>)
    ensures
        json_entries_view(res@) == spec_remove_member(json_entries_view(es@), key@),
{
    let ghost ev = json_entries_view(es@);
    let mut out: Vec<(String, JsonValue)> = Vec::new();
    let mut i: usize = 0;
    assert(json_entries_view(out@) =~= spec_remove_member(ev.take(0), key@));
    while i < es.len()
        invariant
            i <= es@.len(),
            ev == json_entries_view(es@),
            json_entries_view(out@) == spec_remove_member(ev.take(i as int), key@),
        decreases es@.len() - i,
    {
        assert(ev.take(i + 1).drop_last() =~= ev.take(i as int));
        assert(ev.take(i + 1).last() == ev[i as int]);
        if !str_eq(es[i].0.as_str(), key) {
            let k = to_string(es[i].0.as_str());
            let v = json_clone(&es[i].1);
            let ghost before = out@;
            out.push((k, v));
            proof {
                lemma_entries_view_push(before, k, v);
            }
        }
        i = i + 1;
    }
    assert(ev.take(es@.len() as int) =~= ev);
    out
}

fn sanitize_source(x: &JsonValue) -> (res: JsonValue)
    ensures
        res@ == spec_sanitize_source(x@),
{
    proof {
        lemma_view_containers(*x);
    }
    match x {
        JsonValue::Object(es) => {
            let r = JsonValue::Object(remove_member(es, "archive"));
            proof {
                lemma_view_containers(r);
            }
            r
        },
        _ => json_clone(x),
    }
}

/// An exported entry as the manifest records it.
pub fn sanitize_entry(v: &JsonValue) -> (res: JsonValue)
    ensures
        res@ == spec_sanitize(v@),
{
    proof {
        lemma_view_containers(*v);
    }
    match v {
        JsonValue::Object(es) => {
            let removed = remove_member(es, "archive");
            let ghost rv = json_entries_view(removed@);
            let mut out: Vec<(String, JsonValue)> = Vec::new();
            let mut i: usize = 0;
            assert(json_entries_view(out@) =~= spec_sanitize_sources(rv).take(0));
            while i < removed.len()
                invariant
                    i <= removed@.len(),
                    rv == json_entries_view(removed@),
                    json_entries_view(out@) == spec_sanitize_sources(rv).take(i as int),
                decreases removed@.len() - i,
            {
                let k = to_string(removed[i].0.as_str());
                let item = &removed[i].1;
                proof {
                    lemma_view_containers(*item);
                    assert(rv[i as int] == (removed@[i as int].0@, item@));
                }
                let is_sources = str_eq(k.as_str(), "sources");
                let nv = match item {
                    JsonValue::Array(items) => {
                        if is_sources {
                            let mut outs: Vec<JsonValue> = Vec::new();
                            let mut j: usize = 0;
                            while j < items.len()
                                invariant
                                    j <= items@.len(),
                                    json_seq_view(outs@) == Seq::new(j as nat, |q: int| spec_sanitize_source(json_seq_view(items@)[q])),
                                decreases items@.len() - j,
                            {
                                let c = sanitize_source(&items[j]);
                                let ghost before = outs@;
                                outs.push(c);
                                proof {
                                    lemma_seq_view_push(before, c);
                                    assert(json_seq_view(outs@) =~= Seq::new((j + 1) as nat, |q: int| spec_sanitize_source(json_seq_view(items@)[q])));
                                }
                                j = j + 1;
                            }
                            let r = JsonValue::Array(outs);
                            proof {
                                lemma_view_containers(r);
                            }
                            r
                        } else {
                            json_clone(item)
                        }
                    },
                    _ => json_clone(item),
                };
                let ghost before = out@;
                let ghost nvv = nv@;
                out.push((k, nv));
                proof {
                    lemma_entries_view_push(before, k, nv);
                    assert(json_entries_view(out@) =~= spec_sanitize_sources(rv).take(i + 1));
                }
                i = i + 1;
            }
            assert(spec_sanitize_sources(rv).take(removed@.len() as int) =~= spec_sanitize_sources(rv));
            let r = JsonValue::Object(out);
            proof {
                lemma_view_containers(r);
            }
            r
        },
        _ => json_clone(v),
    }
}

/// The first member named `key`.
pub open spec fn spec_key_index(es: Seq<(Seq<char>, JsonModel)>, key: Seq<char>) -> Option<nat>
    decreases es.len(),
{
    if es.len() == 0 {
        None
    } else {
        match spec_key_index(es.drop_last(), key) {
            Some(i) => Some(i),
            None => if es.last().0 == key {
                Some((es.len() - 1) as nat)
            } else {
                None
            },
        }
    }
}

/// Members with `key` set to `v`: the member replaced, or added last.
pub open spec fn spec_put(es: Seq<(Seq<char>, JsonModel)>, key: Seq<char>, v: JsonModel) -> Seq<(Seq<char>, JsonModel)> {
    match spec_key_index(es, key) {
        Some(i) => es.update(i as int, (key, v)),
        None => es.push((key, v)),
    }
}

/// The first group of archive `arc`.
pub open spec fn spec_arc_index(g: Seq<(Seq<char>, Seq<(Seq<char>, JsonModel)>)>, arc: Seq<char>) -> Option<nat>
    decreases g.len(),
{
    if g.len() == 0 {
        None
    } else {
        match spec_arc_index(g.drop_last(), arc) {
            Some(i) => Some(i),
            None => if g.last().0 == arc {
                Some((g.len() - 1) as nat)
            } else {
                None
            },
        }
    }
}

/// The archive lookup with `key` set to `v` under archive `arc`.
pub open spec fn spec_hoist_put(g: Seq<(Seq<char>, Seq<(Seq<char>, JsonModel)>)>, arc: Seq<char>, key: Seq<char>, v: JsonModel) -> Seq<(Seq<char>, Seq<(Seq<char>, JsonModel)>)> {
    match spec_arc_index(g, arc) {
        Some(i) => g.update(i as int, (arc, spec_put(g[i as int].1, key, v))),
        None => g.push((arc, seq![(key, v)])),
    }
}

/// The archive lookup with the sources of an entry added: each source
/// naming an archive goes under that archive, by its path (sanitized), or
/// by the entry's friendly path (the sanitized entry) where it has none.
pub open spec fn spec_hoist_sources(
    g: Seq<(Seq<char>, Seq<(Seq<char>, JsonModel)>)>,
    srcs: Seq<JsonModel>,
    friendly: Seq<char>,
    san: JsonModel,
) -> Seq<(Seq<char>, Seq<(Seq<char>, JsonModel)>)>
    decreases srcs.len(),
{
    if srcs.len() == 0 {
        g
    } else {
        let prev = spec_hoist_sources(g, srcs.drop_last(), friendly, san);
        let s = srcs.last();
        match spec_get_str(s, "archive"@) {
            Some(arc) => match spec_get_str(s, "path"@) {
                Some(p) => spec_hoist_put(prev, arc, p, spec_sanitize_source(s)),
                None => spec_hoist_put(prev, arc, friendly, san),
            },
            None => prev,
        }
    }
}

/// The archive lookup with one exported entry added.
pub open spec fn spec_hoist_entry(g: Seq<(Seq<char>, Seq<(Seq<char>, JsonModel)>)>, friendly: Seq<char>, orig: JsonModel) -> Seq<(Seq<char>, Seq<(Seq<char>, JsonModel)>)> {
    if !(orig is Object) {
        g
    } else {
        let san = spec_sanitize(orig);
        let g1 = match spec_get_str(orig, "archive"@) {
            Some(a) => spec_hoist_put(g, a, friendly, san),
            None => g,
        };
        match spec_get(orig, "sources"@) {
            Some(JsonModel::Array(srcs)) => spec_hoist_sources(g1, srcs, friendly, san),
            _ => g1,
        }
    }
}

/// The archive lookup of a list of exported entries.
pub open spec fn spec_hoist(entries: Seq<(Seq<char>, JsonModel)>) -> Seq<(Seq<char>, Seq<(Seq<char>, JsonModel)>)>
    decreases entries.len(),
{
    if entries.len() == 0 {
        Seq::empty()
    } else {
        spec_hoist_entry(spec_hoist(entries.drop_last()), entries.last().0, entries.last().1)
    }
}

/// The plain values of an archive lookup under construction.
pub open spec fn hoist_view(g: Seq<(String, Vec<(String, JsonValue)>)>) -> Seq<(Seq<char>, Seq<(Seq<char>, JsonModel)>)> {
    g.map_values(|x: (String, Vec<(String, JsonValue)>)| (x.0@, json_entries_view(x.1@)))
}

fn key_index(es: &Vec<(String, JsonValue)>, key: &str) -> (res: Option<usize>)
    ensures
        match spec_key_index(json_entries_view(es@), key@) {
            Some(i) => res matches Some(k) && k as nat == i && k < es@.len(),
            None => res is None,
        },
{
    let ghost ev = json_entries_view(es@);
    let mut i: usize = 0;
    while i < es.len()
        invariant
            i <= es@.len(),
            ev == json_entries_view(es@),
            spec_key_index(ev.take(i as int), key@) is None,
        decreases es@.len() - i,
    {
        assert(ev.take(i + 1).drop_last() =~= ev.take(i as int));
        assert(ev.take(i + 1).last() == ev[i as int]);
        if str_eq(es[i].0.as_str(), key) {
            proof {
                lemma_key_index_prefix(ev, key@, (i + 1) as nat);
            }
            return Some(i);
        }
        i = i + 1;
    }
    assert(ev.take(es@.len() as int) =~= ev);
    None
}

proof fn lemma_key_index_prefix(es: Seq<(Seq<char>, JsonModel)>, key: Seq<char>, n: nat)
    requires
        n <= es.len(),
        spec_key_index(es.take(n as int), key) is Some,
    ensures
        spec_key_index(es, key) == spec_key_index(es.take(n as int), key),
    decreases es.len() - n,
{
    if n < es.len() {
        assert(es.take(n as int + 1).drop_last() =~= es.take(n as int));
        lemma_key_index_prefix(es, key, n + 1);
    } else {
        assert(es.take(n as int) =~= es);
    }
}

fn put(es: &mut Vec<(String, JsonValue)>, key: &str, v: JsonValue)
    ensures
        json_entries_view(final(es)@) == spec_put(json_entries_view(old(es)@), key@, v@),
{
    let ghost ev = json_entries_view(es@);
    let k = to_string(key);
    let ghost vv = v@;
    match key_index(es, key) {
        Some(i) => {
            es.set(i, (k, v));
            assert(json_entries_view(es@) =~= ev.update(i as int, (key@, vv)));
        },
        None => {
            es.push((k, v));
            assert(json_entries_view(es@) =~= ev.push((key@, vv)));
        },
    }
}

fn arc_index(g: &Vec<(String, Vec<(String, JsonValue)>)>, arc: &str) -> (res: Option<usize>)
    ensures
        match spec_arc_index(hoist_view(g@), arc@) {
            Some(i) => res matches Some(k) && k as nat == i && k < g@.len(),
            None => res is None,
        },
{
    let ghost gv = hoist_view(g@);
    let mut i: usize = 0;
    while i < g.len()
        invariant
            i <= g@.len(),
            gv == hoist_view(g@),
            spec_arc_index(gv.take(i as int), arc@) is None,
        decreases g@.len() - i,
    {
        assert(gv.take(i + 1).drop_last() =~= gv.take(i as int));
        assert(gv.take(i + 1).last() == gv[i as int]);
        if str_eq(g[i].0.as_str(), arc) {
            proof {
                lemma_arc_index_prefix(gv, arc@, (i + 1) as nat);
            }
            return Some(i);
        }
        i = i + 1;
    }
    assert(gv.take(g@.len() as int) =~= gv);
    None
}

proof fn lemma_arc_index_prefix(g: Seq<(Seq<char>, Seq<(Seq<char>, JsonModel)>)>, arc: Seq<char>, n: nat)
    requires
        n <= g.len(),
        spec_arc_index(g.take(n as int), arc) is Some,
    ensures
        spec_arc_index(g, arc) == spec_arc_index(g.take(n as int), arc),
    decreases g.len() - n,
{
    if n < g.len() {
        assert(g.take(n as int + 1).drop_last() =~= g.take(n as int));
        lemma_arc_index_prefix(g, arc, n + 1);
    } else {
        assert(g.take(n as int) =~= g);
    }
}

fn hoist_put(g: &mut Vec<(String, Vec<(String, JsonValue)>)>, arc: &str, key: &str, v: JsonValue)
    ensures
        hoist_view(final(g)@) == spec_hoist_put(hoist_view(old(g)@), arc@, key@, v@),
{
    let ghost gv = hoist_view(g@);
    match arc_index(g, arc) {
        Some(i) => {
            let ghost g0 = g@;
            let removed = g.remove(i);
            assert(removed == g0[i as int]);
            let (name, mut es) = removed;
            assert(gv[i as int] == (name@, json_entries_view(es@)));
            put(&mut es, key, v);
            let ghost nes = json_entries_view(es@);
            g.insert(i, (to_string(arc), es));
            assert(hoist_view(g@) =~= gv.update(i as int, (arc@, nes)));
        },
        None => {
            let mut es: Vec<(String, JsonValue)> = Vec::new();
            let ghost vv = v@;
            es.push((to_string(key), v));
            assert(json_entries_view(es@) =~= seq![(key@, vv)]);
            g.push((to_string(arc), es));
            assert(hoist_view(g@) =~= gv.push((arc@, seq![(key@, vv)])));
        },
    }
}

fn opt_str_member<'a>(v: &'a JsonValue, key: &str) -> (res: Option<&'a str>)
    ensures
        match spec_get_str(v@, key@) {
            Some(s) => res matches Some(r) && r@ == s,
            None => res is None,
        },
{
    match v.get(key) {
        Some(m) => m.as_str(),
        None => None,
    }
}

fn hoist_entry(g: &mut Vec<(String, Vec<(String, JsonValue)>)>, friendly: &str, orig: &JsonValue)
    ensures
        hoist_view(final(g)@) == spec_hoist_entry(hoist_view(old(g)@), friendly@, orig@),
{
    if !orig.is_object() {
        return;
    }
    let san = sanitize_entry(orig);
    match opt_str_member(orig, "archive") {
        Some(a) => hoist_put(g, a, friendly, json_clone(&san)),
        None => {},
    }
    let ghost g1 = hoist_view(g@);
    match orig.get("sources") {
        Some(sv) => {
            proof {
                lemma_view_containers(*sv);
            }
            match sv {
                JsonValue::Array(srcs) => {
                    let ghost svv = json_seq_view(srcs@);
                    let mut i: usize = 0;
                    assert(svv.take(0) =~= Seq::<JsonModel>::empty());
                    while i < srcs.len()
                        invariant
                            i <= srcs@.len(),
                            svv == json_seq_view(srcs@),
                            hoist_view(g@) == spec_hoist_sources(g1, svv.take(i as int), friendly@, san@),
                        decreases srcs@.len() - i,
                    {
                        assert(svv.take(i + 1).drop_last() =~= svv.take(i as int));
                        assert(svv.take(i + 1).last() == srcs@[i as int]@);
                        let s = &srcs[i];
                        match opt_str_member(s, "archive") {
                            Some(arc) => match opt_str_member(s, "path") {
                                Some(p) => hoist_put(g, arc, p, sanitize_source(s)),
                                None => hoist_put(g, arc, friendly, json_clone(&san)),
                            },
                            None => {},
                        }
                        i = i + 1;
                    }
                    assert(svv.take(srcs@.len() as int) =~= svv);
                },
                _ => {},
            }
        },
        None => {},
    }
}

/// The manifest of an export.
pub open spec fn spec_manifest(entries: Seq<(Seq<char>, JsonModel)>) -> JsonModel {
    let g = spec_hoist(entries);
    JsonModel::Object(
        seq![
            ("version"@, JsonModel::UInt(1)),
            (
                "game"@,
                JsonModel::Object(
                    seq![
                        ("id"@, JsonModel::Str("GZ2E"@)),
                        ("region"@, JsonModel::Str("NTSC-U"@)),
                        ("platform"@, JsonModel::Str("gamecube"@)),
                    ],
                ),
            ),
            ("archives"@, JsonModel::Object(Seq::new(g.len(), |i: int| (g[i].0, JsonModel::Object(g[i].1))))),
            ("entries"@, JsonModel::Object(Seq::new(entries.len(), |i: int| (entries[i].0, spec_sanitize(entries[i].1))))),
        ],
    )
}

/// Builds the manifest of an export from its entries, by friendly path.
pub fn build_manifest(entries: &Vec<(String, JsonValue)>) -> (res: JsonValue)
    ensures
        res@ == spec_manifest(json_entries_view(entries@)),
{
    let ghost ev = json_entries_view(entries@);
    let mut g: Vec<(String, Vec<(String, JsonValue)>)> = Vec::new();
    let mut sanitized: Vec<(String, JsonValue)> = Vec::new();
    let mut i: usize = 0;
    assert(hoist_view(g@) =~= spec_hoist(ev.take(0)));
    assert(json_entries_view(sanitized@) =~= Seq::new(0, |j: int| (ev[j].0, spec_sanitize(ev[j].1))));
    while i < entries.len()
        invariant
            i <= entries@.len(),
            ev == json_entries_view(entries@),
            hoist_view(g@) == spec_hoist(ev.take(i as int)),
            json_entries_view(sanitized@) == Seq::new(i as nat, |j: int| (ev[j].0, spec_sanitize(ev[j].1))),
        decreases entries@.len() - i,
    {
        assert(ev.take(i + 1).drop_last() =~= ev.take(i as int));
        assert(ev.take(i + 1).last() == ev[i as int]);
        assert(ev[i as int] == (entries@[i as int].0@, entries@[i as int].1@));
        hoist_entry(&mut g, entries[i].0.as_str(), &entries[i].1);
        let k = to_string(entries[i].0.as_str());
        let sv = sanitize_entry(&entries[i].1);
        let ghost before = sanitized@;
        sanitized.push((k, sv));
        proof {
            lemma_entries_view_push(before, k, sv);
            assert(json_entries_view(sanitized@) =~= Seq::new((i + 1) as nat, |j: int| (ev[j].0, spec_sanitize(ev[j].1))));
        }
        i = i + 1;
    }
    assert(ev.take(entries@.len() as int) =~= ev);
    let ghost gv = hoist_view(g@);
    let mut archives: Vec<(String, JsonValue)> = Vec::new();
    let mut rest = g;
    let ghost mut taken: nat = 0;
    assert(json_entries_view(archives@) =~= Seq::new(0, |j: int| (gv[j].0, JsonModel::Object(gv[j].1))));
    assert(hoist_view(rest@) =~= gv.skip(0));
    while rest.len() > 0
        invariant
            taken <= gv.len(),
            hoist_view(rest@) == gv.skip(taken as int),
            json_entries_view(archives@) == Seq::new(taken, |j: int| (gv[j].0, JsonModel::Object(gv[j].1))),
        decreases rest@.len(),
    {
        let ghost r0 = rest@;
        let (name, es) = rest.remove(0);
        proof {
            assert(hoist_view(r0).len() == r0.len());
            assert(gv.skip(taken as int).len() == gv.len() - taken);
            assert(hoist_view(r0)[0] == (name@, json_entries_view(es@)));
            assert(gv.skip(taken as int)[0] == gv[taken as int]);
            assert forall|j: int| 0 <= j < rest@.len() implies hoist_view(rest@)[j] == gv.skip(taken as int + 1)[j] by {
                assert(hoist_view(rest@)[j] == hoist_view(r0)[j + 1]);
                assert(gv.skip(taken as int)[j + 1] == gv.skip(taken as int + 1)[j]);
            }
            assert(hoist_view(rest@) =~= gv.skip(taken as int + 1));
        }
        let obj = JsonValue::Object(es);
        proof {
            lemma_view_containers(obj);
        }
        let ghost before = archives@;
        archives.push((name, obj));
        proof {
            lemma_entries_view_push(before, archives@.last().0, obj);
            assert(json_entries_view(archives@) =~= Seq::new(taken + 1, |j: int| (gv[j].0, JsonModel::Object(gv[j].1))));
            taken = taken + 1;
        }
    }
    let mut game: Vec<(String, JsonValue)> = Vec::new();
    game.push(member("id", JsonValue::Str(to_string("GZ2E"))));
    game.push(member("region", JsonValue::Str(to_string("NTSC-U"))));
    game.push(member("platform", JsonValue::Str(to_string("gamecube"))));
    let game_json = JsonValue::Object(game);
    let archives_json = JsonValue::Object(archives);
    let entries_json = JsonValue::Object(sanitized);
    proof {
        lemma_view_containers(game_json);
        lemma_view_containers(archives_json);
        lemma_view_containers(entries_json);
    }
    let mut top: Vec<(String, JsonValue)> = Vec::new();
    top.push(member("version", JsonValue::UInt(1)));
    top.push(member("game", game_json));
    top.push(member("archives", archives_json));
    top.push(member("entries", entries_json));
    let res = JsonValue::Object(top);
    proof {
        lemma_view_containers(res);
        assert(json_entries_view(game@) =~= spec_manifest(ev)->Object_0[1].1->Object_0);
        assert(json_entries_view(top@) =~= spec_manifest(ev)->Object_0);
    }
    res
}

/// Looking a key up finds the first member with that key.
proof fn lemma_get_first(es: Seq<(Seq<char>, JsonModel)>, key: Seq<char>, i: int)
    requires
        0 <= i < es.len(),
        es[i].0 == key,
        forall|j: int| 0 <= j < i ==> es[j].0 != key,
    ensures
        crate::json::spec_entries_get(es, key) == Some(es[i].1),
    decreases i,
{
    if i > 0 {
        assert(es[0].0 != key);
        lemma_get_first(es.drop_first(), key, i - 1);
    }
}

/// Looking a key up that no member has finds nothing.
proof fn lemma_get_absent(es: Seq<(Seq<char>, JsonModel)>, key: Seq<char>)
    requires
        forall|j: int| 0 <= j < es.len() ==> es[j].0 != key,
    ensures
        crate::json::spec_entries_get(es, key) is None,
    decreases es.len(),
{
    if es.len() > 0 {
        assert(es[0].0 != key);
        lemma_get_absent(es.drop_first(), key);
    }
}

/// Which member is first with a key.
proof fn lemma_key_index_first(es: Seq<(Seq<char>, JsonModel)>, key: Seq<char>)
    ensures
        match spec_key_index(es, key) {
            Some(i) => i < es.len() && es[i as int].0 == key && forall|j: int| 0 <= j < i ==> es[j].0 != key,
            None => forall|j: int| 0 <= j < es.len() ==> es[j].0 != key,
        },
    decreases es.len(),
{
    if es.len() > 0 {
        lemma_key_index_first(es.drop_last(), key);
        assert forall|j: int| 0 <= j < es.len() - 1 implies es.drop_last()[j] == es[j] by {}
    }
}

/// Lists with the same keys, and the same values wherever the key is
/// `k2`, look `k2` up alike.
proof fn lemma_get_same_keys(a: Seq<(Seq<char>, JsonModel)>, b: Seq<(Seq<char>, JsonModel)>, k2: Seq<char>)
    requires
        a.len() == b.len(),
        forall|j: int| 0 <= j < a.len() ==> (#[trigger] a[j]).0 == b[j].0,
        forall|j: int| 0 <= j < a.len() && (#[trigger] a[j]).0 == k2 ==> a[j].1 == b[j].1,
    ensures
        crate::json::spec_entries_get(a, k2) == crate::json::spec_entries_get(b, k2),
    decreases a.len(),
{
    if a.len() > 0 {
        assert(a[0].0 == b[0].0);
        assert forall|j: int| 0 <= j < a.len() - 1 implies (#[trigger] a.drop_first()[j]).0 == b.drop_first()[j].0 by {
            assert(a[j + 1].0 == b[j + 1].0);
        }
        assert forall|j: int| 0 <= j < a.len() - 1 && (#[trigger] a.drop_first()[j]).0 == k2 implies a.drop_first()[j].1
            == b.drop_first()[j].1 by {
            assert(a[j + 1].0 == k2);
        }
        lemma_get_same_keys(a.drop_first(), b.drop_first(), k2);
    }
}

/// A member added last does not change the lookup of another key.
proof fn lemma_get_push_other(es: Seq<(Seq<char>, JsonModel)>, x: (Seq<char>, JsonModel), k2: Seq<char>)
    requires
        x.0 != k2,
    ensures
        crate::json::spec_entries_get(es.push(x), k2) == crate::json::spec_entries_get(es, k2),
    decreases es.len(),
{
    if es.len() == 0 {
        assert(es.push(x).drop_first() =~= Seq::<(Seq<char>, JsonModel)>::empty());
    } else {
        assert(es.push(x)[0] == es[0]);
        assert(es.push(x).drop_first() =~= es.drop_first().push(x));
        lemma_get_push_other(es.drop_first(), x, k2);
    }
}

/// Law: setting a key and looking it up gives the value set; looking up
/// any other key gives what it gave before.
pub proof fn lemma_get_after_put(es: Seq<(Seq<char>, JsonModel)>, key: Seq<char>, v: JsonModel, k2: Seq<char>)
    ensures
        crate::json::spec_entries_get(spec_put(es, key, v), k2) == if k2 == key {
            Some(v)
        } else {
            crate::json::spec_entries_get(es, k2)
        },
{
    let p = spec_put(es, key, v);
    lemma_key_index_first(es, key);
    match spec_key_index(es, key) {
        Some(i) => {
            let i = i as int;
            if k2 == key {
                lemma_get_first(p, key, i);
            } else {
                assert forall|j: int| 0 <= j < p.len() implies (#[trigger] p[j]).0 == es[j].0 by {}
                assert forall|j: int| 0 <= j < p.len() && (#[trigger] p[j]).0 == k2 implies p[j].1 == es[j].1 by {}
                lemma_get_same_keys(p, es, k2);
            }
        },
        None => {
            if k2 == key {
                lemma_get_first(p, key, es.len() as int);
            } else {
                lemma_get_push_other(es, (key, v), k2);
            }
        },
    }
}

/// Law: putting an entry under an archive leaves exactly one group for
/// that archive lookup to find, where the key gives the value put and
/// every other key what it gave before; the groups of other archives are
/// unchanged.
pub proof fn lemma_hoist_put_reads(
    g: Seq<(Seq<char>, Seq<(Seq<char>, JsonModel)>)>,
    arc: Seq<char>,
    key: Seq<char>,
    v: JsonModel,
    k2: Seq<char>,
)
    ensures
        ({
            let g2 = spec_hoist_put(g, arc, key, v);
            &&& spec_arc_index(g2, arc) is Some
            &&& g2[spec_arc_index(g2, arc)->Some_0 as int].0 == arc
            &&& crate::json::spec_entries_get(g2[spec_arc_index(g2, arc)->Some_0 as int].1, k2) == if k2 == key {
                Some(v)
            } else {
                match spec_arc_index(g, arc) {
                    Some(i) => crate::json::spec_entries_get(g[i as int].1, k2),
                    None => None,
                }
            }
            &&& forall|j: int| 0 <= j < g.len() && g[j].0 != arc ==> #[trigger] g2[j] == g[j]
        }),
{
    lemma_arc_index_first(g, arc);
    let g2 = spec_hoist_put(g, arc, key, v);
    match spec_arc_index(g, arc) {
        Some(i) => {
            lemma_get_after_put(g[i as int].1, key, v, k2);
            lemma_arc_index_first(g2, arc);
            assert forall|j: int| 0 <= j < i implies g2[j].0 != arc by {
                assert(g2[j] == g[j]);
            }
            assert(g2[i as int].0 == arc);
            lemma_arc_index_same(g, g2, arc);
            if let Some(i2) = spec_arc_index(g2, arc) {
                if i2 < i {
                    assert(g2[i2 as int].0 != arc);
                }
                if i2 > i {
                    assert(g2[i as int].0 != arc);
                }
            }
            assert(spec_arc_index(g2, arc) == Some(i));
        },
        None => {
            lemma_arc_index_first(g2, arc);
            assert forall|j: int| 0 <= j < g.len() implies g2[j].0 != arc by {
                assert(g2[j] == g[j]);
            }
            assert(g2[g.len() as int].0 == arc);
            lemma_arc_index_same(g, g2, arc);
            if let Some(i2) = spec_arc_index(g2, arc) {
                if i2 < g.len() {
                    assert(g2[i2 as int].0 != arc);
                }
            }
            assert(spec_arc_index(g2, arc) == Some(g.len() as nat));
            if k2 == key {
                lemma_get_first(seq![(key, v)], key, 0);
            } else {
                lemma_get_absent(seq![(key, v)], k2);
            }
            assert(g2[g.len() as int].1 == seq![(key, v)]);
        },
    }
}

/// Which group is first for an archive.
proof fn lemma_arc_index_first(g: Seq<(Seq<char>, Seq<(Seq<char>, JsonModel)>)>, arc: Seq<char>)
    ensures
        match spec_arc_index(g, arc) {
            Some(i) => i < g.len() && g[i as int].0 == arc && forall|j: int| 0 <= j < i ==> g[j].0 != arc,
            None => forall|j: int| 0 <= j < g.len() ==> g[j].0 != arc,
        },
    decreases g.len(),
{
    if g.len() > 0 {
        lemma_arc_index_first(g.drop_last(), arc);
        assert forall|j: int| 0 <= j < g.len() - 1 implies g.drop_last()[j] == g[j] by {}
    }
}

/// The first group for an archive, found in one list, is where a list
/// agreeing on that prefix finds it.
proof fn lemma_arc_index_same(
    g: Seq<(Seq<char>, Seq<(Seq<char>, JsonModel)>)>,
    g2: Seq<(Seq<char>, Seq<(Seq<char>, JsonModel)>)>,
    arc: Seq<char>,
)
    ensures
        spec_arc_index(g2, arc) matches Some(i) ==> i < g2.len() && g2[i as int].0 == arc && forall|j: int|
            0 <= j < i ==> g2[j].0 != arc,
{
    lemma_arc_index_first(g2, arc);
}

} // verus!
