//! Exporting the message files of an archive one by one.
//!
//! Each file of an archive whose path ends in `.bmg` is parsed and
//! exported as JSON under `text/<archive stem>/<path without .bmg>.json`,
//! with a record of where it came from and the SHA-1 of its bytes.

use vstd::prelude::*;
use crate::json::JsonValue;
use crate::text::{chars_of, push_str, str_eq, string_range, to_string};
use crate::utils::{sha1_hex, spec_hex_lower, spec_sha1};
use crate::build::compile::{ends_with, spec_ends_with};
use crate::build::assemble::rarc_entry_path;
use crate::export::pipeline::{archive_stem, spec_path_file_stem};
use crate::formats::bmg::parser::{Bmg, spec_parse_bmg};
use crate::formats::bmg::to_json::{bmg_to_json, spec_bmg_to_json, spec_attributes_error};
use crate::formats::rarc::parser::{Rarc, RarcModel, spec_links_ok, spec_list_files, spec_file_path};

verus! {

/// Where an exported message file came from: its archive and path inside
/// it, and the SHA-1 of its bytes as lowercase hex.
pub struct BmgExportMeta {
    pub iso_path: String,
    pub arc_path: String,
    pub bmg_filename: String,
    pub sha1: String,
}

/// The paths among a listing that end in `.bmg`, in order.
pub open spec fn spec_bmg_paths(listing: Seq<(Seq<char>, u32)>) -> Seq<Seq<char>>
    decreases listing.len(),
{
    if listing.len() == 0 {
        Seq::empty()
    } else {
        let prev = spec_bmg_paths(listing.drop_last());
        if spec_ends_with(listing.last().0, ".bmg"@) {
            prev.push(listing.last().0)
        } else {
            prev
        }
    }
}

/// The plain values of a list of strings.
pub open spec fn strings_view(v: Seq<String>) -> Seq<Seq<char>> {
    v.map_values(|s: String| s@)
}

/// The message files an archive lists, in order.
pub fn bmg_paths(rarc: &Rarc) -> (res: Vec<String>)
    requires
        spec_links_ok(rarc@),
    ensures
        strings_view(res@) == spec_bmg_paths(spec_list_files(rarc@)),
{
    let listing = rarc.list_files();
    let ghost lv = spec_list_files(rarc@);
    let mut out: Vec<String> = Vec::new();
    let mut k: usize = 0;
    while k < listing.len()
        invariant
            k <= listing@.len(),
            lv == spec_list_files(rarc@),
            lv.len() == listing@.len(),
            forall|q: int| 0 <= q < listing@.len() ==> (#[trigger] listing@[q]).0@ == lv[q].0,
            strings_view(out@) == spec_bmg_paths(lv.take(k as int)),
        decreases listing@.len() - k,
    {
        proof {
            assert(lv.take(k + 1).drop_last() =~= lv.take(k as int));
            assert(lv.take(k + 1).last() == lv[k as int]);
        }
        let path = &listing[k].0;
        if ends_with(path.as_str(), ".bmg") {
            let ghost before = out@;
            out.push(to_string(path.as_str()));
            proof {
                assert(strings_view(out@) =~= strings_view(before).push(lv[k as int].0));
            }
        }
        k = k + 1;
    }
    proof {
        assert(lv.take(listing@.len() as int) =~= lv);
    }
    out
}

/// Whether entry `i` is a file under a node whose full path is `path`.
pub open spec fn spec_entry_at_path(r: RarcModel, i: int, path: Seq<char>) -> bool {
    let e = r.file_entries[i];
    &&& !e.is_dir
    &&& e.parent_node_index is Some
    &&& spec_file_path(r, e.parent_node_index->0 as int, e.name) == path
}

/// The first of the first `k` entries that is a file at `path`.
pub open spec fn spec_find_upto(r: RarcModel, path: Seq<char>, k: int) -> Option<int>
    decreases k,
{
    if k <= 0 {
        None
    } else {
        match spec_find_upto(r, path, k - 1) {
            Some(i) => Some(i),
            None => if spec_entry_at_path(r, k - 1, path) {
                Some(k - 1)
            } else {
                None
            },
        }
    }
}

proof fn lemma_find_upto_bound(r: RarcModel, path: Seq<char>, k: int)
    ensures
        spec_find_upto(r, path, k) matches Some(i) ==> 0 <= i < k && spec_entry_at_path(r, i, path),
    decreases k,
{
    if k > 0 {
        lemma_find_upto_bound(r, path, k - 1);
    }
}

proof fn lemma_find_upto_found(r: RarcModel, path: Seq<char>, k: int, n: int)
    requires
        0 <= k <= n,
        spec_find_upto(r, path, k) is Some,
    ensures
        spec_find_upto(r, path, n) == spec_find_upto(r, path, k),
    decreases n - k,
{
    if k < n {
        lemma_find_upto_found(r, path, k, n - 1);
    }
}

/// The index of the first file entry whose full path is `bmg_path`.
pub fn find_entry_in_rarc(rarc: &Rarc, bmg_path: &str) -> (res: Option<usize>)
    requires
        spec_links_ok(rarc@),
    ensures
        res is None <==> spec_find_upto(rarc@, bmg_path@, rarc@.file_entries.len() as int) is None,
        res matches Some(i) ==> spec_find_upto(rarc@, bmg_path@, rarc@.file_entries.len() as int) == Some(i as int)
            && i < rarc@.file_entries.len(),
{
    proof {
        lemma_find_upto_bound(rarc@, bmg_path@, rarc@.file_entries.len() as int);
    }
    let ghost r = rarc@;
    let mut i: usize = 0;
    while i < rarc.file_entries.len()
        invariant
            i <= rarc@.file_entries.len(),
            r == rarc@,
            spec_links_ok(r),
            spec_find_upto(r, bmg_path@, i as int) is None,
        decreases rarc@.file_entries.len() - i,
    {
        assert(rarc.file_entries@[i as int]@ == r.file_entries[i as int]);
        let e = &rarc.file_entries[i];
        if !e.is_dir && e.parent_node_index.is_some() {
            let full = rarc_entry_path(rarc, i);
            if str_eq(full.as_str(), bmg_path) {
                proof {
                    lemma_find_upto_found(r, bmg_path@, i + 1, r.file_entries.len() as int);
                }
                return Some(i);
            }
        }
        i = i + 1;
    }
    None
}

/// A path with every leading `/` removed.
pub open spec fn spec_trim_slashes(s: Seq<char>) -> Seq<char>
    decreases s.len(),
{
    if s.len() > 0 && s[0] == '/' {
        spec_trim_slashes(s.drop_first())
    } else {
        s
    }
}

/// A path without its `.bmg` suffix, where it has one.
pub open spec fn spec_strip_bmg(s: Seq<char>) -> Seq<char> {
    if spec_ends_with(s, ".bmg"@) {
        s.subrange(0, s.len() - 4)
    } else {
        s
    }
}

/// Where the JSON of a message file is written, below the output folder.
pub open spec fn spec_bmg_json_path(stem: Seq<char>, bmg_path: Seq<char>) -> Seq<char> {
    "text/"@ + stem + "/"@ + spec_strip_bmg(spec_trim_slashes(bmg_path)) + ".json"@
}

/// The JSON path of a message file: `text/<stem>/<path>.json`, the path
/// without its leading slashes and `.bmg` suffix.
pub fn bmg_json_path(stem: &str, bmg_path: &str) -> (res: String)
    ensures
        res@ == spec_bmg_json_path(stem@, bmg_path@),
{
    let chars = chars_of(bmg_path);
    let mut start: usize = 0;
    assert(chars@.skip(0) =~= chars@);
    while start < chars.len() && chars[start] == '/'
        invariant
            start <= chars@.len(),
            spec_trim_slashes(chars@.skip(start as int)) == spec_trim_slashes(chars@),
        decreases chars@.len() - start,
    {
        proof {
            assert(chars@.skip(start as int).drop_first() =~= chars@.skip(start + 1));
        }
        start = start + 1;
    }
    proof {
        assert(spec_trim_slashes(chars@.skip(start as int)) == chars@.skip(start as int));
    }
    let trimmed = string_range(chars.as_slice(), start, chars.len());
    assert(trimmed@ =~= chars@.skip(start as int));
    let tc = chars_of(trimmed.as_str());
    proof {
        reveal_strlit(".bmg");
    }
    let end: usize = if ends_with(trimmed.as_str(), ".bmg") {
        tc.len() - 4
    } else {
        tc.len()
    };
    let inner = string_range(tc.as_slice(), 0, end);
    assert(inner@ =~= spec_strip_bmg(trimmed@));
    let mut out = to_string("text/");
    push_str(&mut out, stem);
    push_str(&mut out, "/");
    push_str(&mut out, inner.as_str());
    push_str(&mut out, ".json");
    out
}

/// What exporting one message file of an archive gives: its JSON path,
/// its JSON and its record, or why it cannot be exported.
pub open spec fn spec_export_single_bmg(r: RarcModel, bmg_path: Seq<char>, arc_path: Seq<char>) -> Result<
    (Seq<char>, crate::json::JsonModel, (Seq<char>, Seq<char>, Seq<char>, Seq<char>)),
    Seq<char>,
> {
    match spec_find_upto(r, bmg_path, r.file_entries.len() as int) {
        None => Err("BMG not found in archive"@),
        Some(i) => match r.file_entries[i].data {
            None => Err("No data for BMG"@),
            Some(d) => match spec_parse_bmg(d) {
                Err(e) => Err(e),
                Ok(b) => match spec_attributes_error(b.messages) {
                    Some(e) => Err(e),
                    None => match spec_path_file_stem(arc_path) {
                        None => Err("Invalid arc path"@),
                        Some(stem) => Ok(
                            (
                                spec_bmg_json_path(stem, bmg_path),
                                spec_bmg_to_json(b),
                                (arc_path, arc_path, bmg_path, spec_hex_lower(spec_sha1(d))),
                            ),
                        ),
                    },
                },
            },
        },
    }
}

/// Exports the message file at `bmg_path` of an archive: finds it, parses
/// it, converts it to JSON, and names where the JSON goes and what it came
/// from.
pub fn export_single_bmg(rarc: &Rarc, bmg_path: &str, arc_path: &str) -> (res: Result<
    (String, JsonValue, BmgExportMeta),
    String,
>)
    requires
        spec_links_ok(rarc@),
    ensures
        match spec_export_single_bmg(rarc@, bmg_path@, arc_path@) {
            Ok((p, j, m)) => res matches Ok((rp, rj, rm)) && rp@ == p && rj@ == j && (
            rm.iso_path@, rm.arc_path@, rm.bmg_filename@, rm.sha1@) == m,
            Err(e) => res matches Err(re) && re@ == e,
        },
{
    proof {
        lemma_find_upto_bound(rarc@, bmg_path@, rarc@.file_entries.len() as int);
    }
    let idx = match find_entry_in_rarc(rarc, bmg_path) {
        Some(i) => i,
        None => return Err(to_string("BMG not found in archive")),
    };
    let entry = &rarc.file_entries[idx];
    assert(entry@ == rarc@.file_entries[idx as int]);
    let data = match &entry.data {
        Some(d) => d,
        None => return Err(to_string("No data for BMG")),
    };
    let bmg = match Bmg::parse(data.as_slice()) {
        Ok(b) => b,
        Err(e) => return Err(e),
    };
    let json = match bmg_to_json(&bmg) {
        Ok(j) => j,
        Err(e) => return Err(e),
    };
    let stem = match archive_stem(arc_path) {
        Ok(s) => s,
        Err(e) => return Err(e),
    };
    let out_path = bmg_json_path(stem.as_str(), bmg_path);
    let meta = BmgExportMeta {
        iso_path: to_string(arc_path),
        arc_path: to_string(arc_path),
        bmg_filename: to_string(bmg_path),
        sha1: sha1_hex(data.as_slice()),
    };
    Ok((out_path, json, meta))
}

} // verus!
