//! The manifest entries and message sources of an export, gathered from
//! the files found on the disc and in its archives.
//!
//! Entries are keyed by friendly path; registering a path again replaces
//! its entry where it stands.

use vstd::prelude::*;
use crate::json::{JsonValue, JsonModel, json_entries_view, json_seq_view, spec_as_array, member};
use crate::text::{str_eq, to_string};
use crate::utils::{sha1_hex, spec_hex_lower, spec_sha1};
use crate::build::compile::{ends_with, spec_ends_with};
use crate::formats::bmg::parser::{Bmg, BmgModel, spec_parse_bmg};
use crate::formats::bmg::to_json::{bmg_to_json, spec_bmg_to_json, spec_attributes_error};
use crate::export::pipeline::{
    archive_entry, archive_stem, direct_iso_entry, get_friendly_path, is_decoded_format, spec_archive_entry,
    spec_direct_entry, spec_friendly_path, spec_is_decoded_format, spec_path_file_stem,
};
use crate::export::consolidated_bmg::{BmgSource, BmgSourceModel, ConsolidatedBmg, sources_view};
use crate::export::unpack::{ArcEntry, arc_entries_view};

verus! {

/// The index of the first entry keyed `key`.
pub open spec fn spec_key_index(entries: Seq<(Seq<char>, JsonModel)>, key: Seq<char>) -> Option<nat>
    decreases entries.len(),
{
    if entries.len() == 0 {
        None
    } else {
        match spec_key_index(entries.drop_last(), key) {
            Some(i) => Some(i),
            None => if entries.last().0 == key {
                Some((entries.len() - 1) as nat)
            } else {
                None
            },
        }
    }
}

/// The entries with `key` set to `value`: in place where the key is
/// there, else added at the end.
pub open spec fn spec_insert_entry(entries: Seq<(Seq<char>, JsonModel)>, key: Seq<char>, value: JsonModel) -> Seq<
    (Seq<char>, JsonModel),
> {
    match spec_key_index(entries, key) {
        Some(i) => entries.update(i as int, (key, value)),
        None => entries.push((key, value)),
    }
}

proof fn lemma_key_index_prefix(entries: Seq<(Seq<char>, JsonModel)>, key: Seq<char>, n: nat)
    requires
        n <= entries.len(),
        spec_key_index(entries.take(n as int), key) is Some,
    ensures
        spec_key_index(entries, key) == spec_key_index(entries.take(n as int), key),
    decreases entries.len() - n,
{
    if n < entries.len() {
        assert(entries.take(n as int + 1).drop_last() =~= entries.take(n as int));
        lemma_key_index_prefix(entries, key, n + 1);
    } else {
        assert(entries.take(n as int) =~= entries);
    }
}

proof fn lemma_key_index_bound(entries: Seq<(Seq<char>, JsonModel)>, key: Seq<char>)
    ensures
        spec_key_index(entries, key) matches Some(i) ==> i < entries.len(),
    decreases entries.len(),
{
    if entries.len() > 0 {
        lemma_key_index_bound(entries.drop_last(), key);
    }
}

/// Sets the entry keyed `key` to `value`, in place where the key is
/// there, else at the end.
pub fn insert_entry(entries: &mut Vec<(String, JsonValue)>, key: String, value: JsonValue)
    ensures
        json_entries_view(final(entries)@) == spec_insert_entry(json_entries_view(old(entries)@), key@, value@),
{
    let ghost ev = json_entries_view(entries@);
    let ghost kv = key@;
    let ghost vv = value@;
    let mut i: usize = 0;
    while i < entries.len()
        invariant
            i <= entries@.len(),
            ev == json_entries_view(entries@),
            entries@ == old(entries)@,
            kv == key@,
            vv == value@,
            spec_key_index(ev.take(i as int), kv) is None,
        decreases entries@.len() - i,
    {
        assert(ev.take(i + 1).drop_last() =~= ev.take(i as int));
        assert(ev.take(i + 1).last() == ev[i as int]);
        assert(ev[i as int] == (entries@[i as int].0@, entries@[i as int].1@));
        if str_eq(entries[i].0.as_str(), key.as_str()) {
            proof {
                assert(spec_key_index(ev.take(i + 1), kv) == Some(i as nat));
                lemma_key_index_prefix(ev, kv, (i + 1) as nat);
            }
            let ghost before = entries@;
            let pair = (key, value);
            let ghost pv = (pair.0@, pair.1@);
            entries.set(i, pair);
            proof {
                assert(entries@ == before.update(i as int, pair));
                assert(pv == (kv, vv));
                assert(json_entries_view(entries@) =~= ev.update(i as int, (kv, vv)));
            }
            return;
        }
        i = i + 1;
    }
    assert(ev.take(entries@.len() as int) =~= ev);
    entries.push((key, value));
    assert(json_entries_view(entries@) =~= ev.push((kv, vv)));
}

/// Registers a file outside archives under its disc path.
pub fn insert_direct_iso_entry(entries: &mut Vec<(String, JsonValue)>, rel_iso_path: &str, bytes: &[u8])
    ensures
        json_entries_view(final(entries)@) == spec_insert_entry(
            json_entries_view(old(entries)@),
            rel_iso_path@,
            spec_direct_entry(rel_iso_path@, bytes@),
        ),
{
    let e = direct_iso_entry(rel_iso_path, bytes);
    insert_entry(entries, to_string(rel_iso_path), e);
}

/// The stem of an archive's disc path, empty where it has none.
pub open spec fn spec_stem_or_empty(archive: Seq<char>) -> Seq<char> {
    match spec_path_file_stem(archive) {
        Some(s) => s,
        None => Seq::empty(),
    }
}

/// The entries after registering the first `k` found files that have no
/// decoder of their own, each under its friendly path.
pub open spec fn spec_plain_entries(
    entries: Seq<(Seq<char>, JsonModel)>,
    found: Seq<(Seq<char>, Seq<char>, Seq<u8>)>,
    k: nat,
) -> Seq<(Seq<char>, JsonModel)>
    decreases k,
{
    if k == 0 {
        entries
    } else {
        let prev = spec_plain_entries(entries, found, (k - 1) as nat);
        let (top, internal, data) = found[k - 1];
        if spec_is_decoded_format(internal) {
            prev
        } else {
            spec_insert_entry(
                prev,
                spec_friendly_path(top, spec_stem_or_empty(top), internal),
                spec_archive_entry(top, internal, data),
            )
        }
    }
}

/// Registers every found file that has no decoder of its own as an
/// archive entry under its friendly path.
pub fn process_plain_entries(arc_entries: &[ArcEntry], entries: &mut Vec<(String, JsonValue)>)
    ensures
        json_entries_view(final(entries)@) == spec_plain_entries(
            json_entries_view(old(entries)@),
            arc_entries_view(arc_entries@),
            arc_entries@.len() as nat,
        ),
{
    let ghost found = arc_entries_view(arc_entries@);
    let ghost start = json_entries_view(entries@);
    let mut k: usize = 0;
    while k < arc_entries.len()
        invariant
            k <= arc_entries@.len(),
            found == arc_entries_view(arc_entries@),
            start == json_entries_view(old(entries)@),
            json_entries_view(entries@) == spec_plain_entries(start, found, k as nat),
        decreases arc_entries@.len() - k,
    {
        let e = &arc_entries[k];
        assert(found[k as int] == (e.top_level_arc@, e.internal_path@, e.data@));
        if !is_decoded_format(e.internal_path.as_str()) {
            let stem = match archive_stem(e.top_level_arc.as_str()) {
                Ok(s) => s,
                Err(_) => String::new(),
            };
            let friendly = match get_friendly_path(e.top_level_arc.as_str(), stem.as_str(), e.internal_path.as_str()) {
                Some(p) => p,
                None => String::new(),
            };
            let v = archive_entry(e.top_level_arc.as_str(), e.internal_path.as_str(), e.data.as_slice());
            insert_entry(entries, friendly, v);
        }
        k = k + 1;
    }
}

/// The message source of a parsed message file, from its exported JSON.
pub open spec fn spec_bmg_source(top: Seq<char>, internal: Seq<char>, b: BmgModel) -> BmgSourceModel {
    BmgSourceModel {
        archive: top,
        path: internal,
        encoding: b.encoding,
        messages: match spec_as_array(spec_bmg_to_json(b)) {
            Some(items) => items,
            None => Seq::empty(),
        },
    }
}

/// The sources after going through the first `k` found files: each
/// message file that parses adds its source; one that parses but cannot
/// be exported stops the pass with its error, and later files are not
/// looked at.
pub open spec fn spec_bmg_pass(
    sources: Seq<BmgSourceModel>,
    found: Seq<(Seq<char>, Seq<char>, Seq<u8>)>,
    k: nat,
) -> (Seq<BmgSourceModel>, Option<Seq<char>>)
    decreases k,
{
    if k == 0 {
        (sources, None)
    } else {
        let prev = spec_bmg_pass(sources, found, (k - 1) as nat);
        let (top, internal, data) = found[k - 1];
        if prev.1 is Some || !spec_ends_with(internal, ".bmg"@) {
            prev
        } else {
            match spec_parse_bmg(data) {
                Ok(b) => match spec_attributes_error(b.messages) {
                    Some(e) => (prev.0, Some(e)),
                    None => (prev.0.push(spec_bmg_source(top, internal, b)), None),
                },
                Err(_) => prev,
            }
        }
    }
}

proof fn lemma_bmg_pass_stops(
    sources: Seq<BmgSourceModel>,
    found: Seq<(Seq<char>, Seq<char>, Seq<u8>)>,
    k: nat,
    n: nat,
)
    requires
        k <= n,
        spec_bmg_pass(sources, found, k).1 is Some,
    ensures
        spec_bmg_pass(sources, found, n) == spec_bmg_pass(sources, found, k),
    decreases n - k,
{
    if k < n {
        lemma_bmg_pass_stops(sources, found, k, (n - 1) as nat);
    }
}

/// Adds every found message file that parses to the consolidated message
/// file, in order; one that does not parse is passed over, and the first
/// that parses but cannot be exported ends the pass with its error.
pub fn process_bmg_entries(arc_entries: &[ArcEntry], consolidated: &mut ConsolidatedBmg) -> (res: Result<(), String>)
    ensures
        ({
            let pass = spec_bmg_pass(
                sources_view(old(consolidated).sources@),
                arc_entries_view(arc_entries@),
                arc_entries@.len() as nat,
            );
            &&& sources_view(final(consolidated).sources@) == pass.0
            &&& match pass.1 {
                Some(e) => res matches Err(m) && m@ == e,
                None => res is Ok,
            }
        }),
{
    let ghost found = arc_entries_view(arc_entries@);
    let ghost start = sources_view(consolidated.sources@);
    let mut k: usize = 0;
    while k < arc_entries.len()
        invariant
            k <= arc_entries@.len(),
            found == arc_entries_view(arc_entries@),
            start == sources_view(old(consolidated).sources@),
            spec_bmg_pass(start, found, k as nat).1 is None,
            sources_view(consolidated.sources@) == spec_bmg_pass(start, found, k as nat).0,
        decreases arc_entries@.len() - k,
    {
        let e = &arc_entries[k];
        assert(found[k as int] == (e.top_level_arc@, e.internal_path@, e.data@));
        if ends_with(e.internal_path.as_str(), ".bmg") {
            match Bmg::parse(e.data.as_slice()) {
                Ok(bmg) => {
                    let json = match bmg_to_json(&bmg) {
                        Ok(j) => j,
                        Err(m) => {
                            proof {
                                lemma_bmg_pass_stops(start, found, (k + 1) as nat, arc_entries@.len() as nat);
                            }
                            return Err(m);
                        },
                    };
                    let source = BmgSource::from_bmg(
                        to_string(e.top_level_arc.as_str()),
                        to_string(e.internal_path.as_str()),
                        to_string(bmg.encoding.as_str()),
                        json,
                    );
                    let ghost sv = source@;
                    let ghost before = consolidated.sources@;
                    consolidated.add_source(source);
                    proof {
                        assert(sources_view(consolidated.sources@) =~= sources_view(before).push(sv));
                    }
                },
                Err(_) => {},
            }
        }
        k = k + 1;
    }
    Ok(())
}

/// The manifest entry of the consolidated message file: each source's
/// archive, path and the hash of its serialized messages.
pub open spec fn spec_consolidated_entry(sources: Seq<BmgSourceModel>, serialized: Seq<Seq<u8>>) -> JsonModel {
    JsonModel::Object(
        seq![
            (
                "sources"@,
                JsonModel::Array(
                    Seq::new(
                        sources.len(),
                        |i: int|
                            JsonModel::Object(
                                seq![
                                    ("archive"@, JsonModel::Str(sources[i].archive)),
                                    ("path"@, JsonModel::Str(sources[i].path)),
                                    ("sha1"@, JsonModel::Str(spec_hex_lower(spec_sha1(serialized[i])))),
                                ],
                            ),
                    ),
                ),
            ),
        ],
    )
}

/// The byte sequences of a list of byte vectors.
pub open spec fn bytes_seq_view(v: Seq<Vec<u8>>) -> Seq<Seq<u8>> {
    v.map_values(|b: Vec<u8>| b@)
}

/// Registers the consolidated message file in the manifest entries, where
/// there are sources. `serialized` holds each source's messages as the
/// bytes its hash is taken of (their pretty JSON).
pub fn finalize_bmg_entry(
    entries: &mut Vec<(String, JsonValue)>,
    consolidated: &ConsolidatedBmg,
    serialized: &Vec<Vec<u8>>,
)
    requires
        serialized@.len() == consolidated.sources@.len(),
    ensures
        consolidated.sources@.len() == 0 ==> final(entries)@ == old(entries)@,
        consolidated.sources@.len() > 0 ==> json_entries_view(final(entries)@) == spec_insert_entry(
            json_entries_view(old(entries)@),
            "text/messages.json"@,
            spec_consolidated_entry(sources_view(consolidated.sources@), bytes_seq_view(serialized@)),
        ),
{
    if consolidated.sources.len() == 0 {
        return;
    }
    let ghost sv = sources_view(consolidated.sources@);
    let ghost bv = bytes_seq_view(serialized@);
    let mut items: Vec<JsonValue> = Vec::new();
    let mut i: usize = 0;
    while i < consolidated.sources.len()
        invariant
            i <= consolidated.sources@.len(),
            serialized@.len() == consolidated.sources@.len(),
            sv == sources_view(consolidated.sources@),
            bv == bytes_seq_view(serialized@),
            json_seq_view(items@) == spec_consolidated_entry(sv, bv)->Object_0[0].1->Array_0.take(i as int),
        decreases consolidated.sources@.len() - i,
    {
        let src = &consolidated.sources[i];
        let mut e: Vec<(String, JsonValue)> = Vec::new();
        e.push(member("archive", JsonValue::Str(to_string(src.archive.as_str()))));
        e.push(member("path", JsonValue::Str(to_string(src.path.as_str()))));
        e.push(member("sha1", JsonValue::Str(sha1_hex(serialized[i].as_slice()))));
        let item = JsonValue::Object(e);
        let ghost before = items@;
        items.push(item);
        proof {
            crate::json::lemma_view_containers(item);
            assert(sv[i as int] == src@);
            assert(bv[i as int] == serialized@[i as int]@);
            assert(json_entries_view(e@) =~= spec_consolidated_entry(sv, bv)->Object_0[0].1->Array_0[i as int]->Object_0);
            crate::json::lemma_seq_view_push(before, item);
            assert(json_seq_view(items@) =~= spec_consolidated_entry(sv, bv)->Object_0[0].1->Array_0.take(i + 1));
        }
        i = i + 1;
    }
    let arr = JsonValue::Array(items);
    let mut top: Vec<(String, JsonValue)> = Vec::new();
    top.push(member("sources", arr));
    let value = JsonValue::Object(top);
    proof {
        crate::json::lemma_view_containers(arr);
        crate::json::lemma_view_containers(value);
        assert(spec_consolidated_entry(sv, bv)->Object_0[0].1->Array_0.take(sv.len() as int)
            =~= spec_consolidated_entry(sv, bv)->Object_0[0].1->Array_0);
        assert(json_entries_view(top@) =~= spec_consolidated_entry(sv, bv)->Object_0);
        reveal_strlit("text/messages.json");
    }
    insert_entry(entries, to_string("text/messages.json"), value);
}

} // verus!
