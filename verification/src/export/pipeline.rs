//! How exported files are named and what the manifest records of them.
//!
//! A file outside archives keeps its disc path. A file inside an archive
//! is placed under a category that the archive's disc path suggests
//! (`actors`, `stages`, `audio`, `ui`, else `res`), then the archive's
//! stem, then its path inside the archive; AW wave banks go to
//! `audio/waves` as JSON. Message files are not exported one by one: they
//! are consolidated.

use vstd::prelude::*;
use crate::json::{JsonValue, JsonModel, json_entries_view, lemma_view_containers, member};
use crate::text::{chars_of, push_str, str_eq, string_range, to_string};
use crate::utils::{sha1_hex, spec_hex_lower, spec_sha1};
use crate::build::compile::{ends_with, spec_ends_with};
use crate::formats::rarc::parser::{Rarc, RarcModel, spec_links_ok};
use crate::build::assemble::{rarc_entry_path, spec_entry_path};

verus! {

/// Whether an archive file has a decoder of its own, so that it is not
/// exported as a plain file.
pub open spec fn spec_is_decoded_format(internal_path: Seq<char>) -> bool {
    spec_ends_with(internal_path, ".bmg"@)
}

/// Whether an archive file has a decoder of its own.
pub fn is_decoded_format(internal_path: &str) -> (res: bool)
    ensures
        res == spec_is_decoded_format(internal_path@),
{
    ends_with(internal_path, ".bmg")
}

/// Whether `p` occurs in `s`.
pub open spec fn spec_contains(s: Seq<char>, p: Seq<char>) -> bool {
    exists|i: int| 0 <= i && i + p.len() <= s.len() && #[trigger] s.subrange(i, i + p.len()) == p
}

/// Whether `p` occurs in `s`.
pub fn contains(s: &str, p: &str) -> (res: bool)
    ensures
        res == spec_contains(s@, p@),
{
    let a = chars_of(s);
    let b = chars_of(p);
    if b.len() > a.len() {
        return false;
    }
    if b.len() == 0 {
        assert(s@.subrange(0int, 0int + p@.len()) =~= p@);
        return true;
    }
    let last = a.len() - b.len();
    let mut i: usize = 0;
    while i <= last
        invariant
            last + b@.len() == a@.len(),
            a@.len() <= usize::MAX,
            b@.len() > 0,
            a@ == s@,
            b@ == p@,
            i <= last + 1,
            forall|q: int| 0 <= q < i ==> #[trigger] s@.subrange(q, q + p@.len()) != p@,
        decreases last + 1 - i,
    {
        let mut k: usize = 0;
        let mut same = true;
        while k < b.len()
            invariant
                k <= b@.len(),
                i <= last,
                last + b@.len() == a@.len(),
                a@.len() <= usize::MAX,
                same == forall|j: int| 0 <= j < k ==> a@[i + j] == b@[j],
            decreases b@.len() - k,
        {
            if a[i + k] != b[k] {
                same = false;
            }
            k = k + 1;
        }
        if same {
            assert(s@.subrange(i as int, i + p@.len()) =~= p@);
            return true;
        }
        proof {
            let j = choose|j: int| 0 <= j < b@.len() && a@[i + j] != b@[j];
            assert(s@.subrange(i as int, i + p@.len())[j] != p@[j]);
        }
        i = i + 1;
    }
    assert forall|q: int| 0 <= q && q + p@.len() <= s@.len() implies #[trigger] s@.subrange(
        q,
        q + p@.len(),
    ) != p@ by {
        assert(q < i);
    }
    false
}

/// The category of an archive's files, from its disc path.
pub open spec fn spec_category(archive_iso_path: Seq<char>) -> Seq<char> {
    if spec_contains(archive_iso_path, "Object/"@) {
        "actors"@
    } else if spec_contains(archive_iso_path, "Stage/"@) {
        "stages"@
    } else if spec_contains(archive_iso_path, "Audiores/"@) {
        "audio"@
    } else if spec_contains(archive_iso_path, "misc/"@) {
        "ui"@
    } else {
        "res"@
    }
}

/// The friendly path of a file inside an archive: AW wave banks under
/// `audio/waves/<stem>/` as JSON, any other file under
/// `<category>/<stem>/`.
pub open spec fn spec_friendly_path(archive_iso_path: Seq<char>, stem: Seq<char>, internal: Seq<char>) -> Seq<char> {
    if spec_ends_with(internal, ".aw"@) {
        "audio/waves/"@ + stem + seq!['/'] + internal.take(internal.len() - 3) + ".json"@
    } else {
        spec_category(archive_iso_path) + seq!['/'] + stem + seq!['/'] + internal
    }
}

/// Law: where a file of an archive goes in the mod folder. A wave bank
/// goes to `audio/waves/<stem>/<name>.json`; any other file keeps its path
/// under `<stem>/`, in `actors` for an archive under `Object/`, else
/// `stages` under `Stage/`, else `audio` under `Audiores/`, else `ui`
/// under `misc/`, else `res`.
pub proof fn lemma_friendly_path_places(archive_iso_path: Seq<char>, stem: Seq<char>, internal: Seq<char>)
    ensures
        ({
            let f = spec_friendly_path(archive_iso_path, stem, internal);
            let aw = spec_ends_with(internal, ".aw"@);
            let tail = "/"@ + stem + "/"@ + internal;
            let object = spec_contains(archive_iso_path, "Object/"@);
            let stage = spec_contains(archive_iso_path, "Stage/"@);
            let audio = spec_contains(archive_iso_path, "Audiores/"@);
            let misc = spec_contains(archive_iso_path, "misc/"@);
            &&& aw ==> f == "audio/waves/"@ + stem + "/"@ + internal.take(internal.len() - 3) + ".json"@
            &&& (!aw && object) ==> f == "actors"@ + tail
            &&& (!aw && !object && stage) ==> f == "stages"@ + tail
            &&& (!aw && !object && !stage && audio) ==> f == "audio"@ + tail
            &&& (!aw && !object && !stage && !audio && misc) ==> f == "ui"@ + tail
            &&& (!aw && !object && !stage && !audio && !misc) ==> f == "res"@ + tail
        }),
{
    reveal_strlit("/");
    let tail = "/"@ + stem + "/"@ + internal;
    assert(spec_category(archive_iso_path) + seq!['/'] + stem + seq!['/'] + internal =~= spec_category(archive_iso_path)
        + tail);
    assert("audio/waves/"@ + stem + seq!['/'] + internal.take(internal.len() - 3) + ".json"@ =~= "audio/waves/"@ + stem
        + "/"@ + internal.take(internal.len() - 3) + ".json"@);
}

/// The friendly path of a file inside an archive; there always is one.
pub fn get_friendly_path(archive_iso_path: &str, archive_stem: &str, internal_path: &str) -> (res: Option<String>)
    ensures
        res matches Some(s) && s@ == spec_friendly_path(archive_iso_path@, archive_stem@, internal_path@),
{
    let category = if contains(archive_iso_path, "Object/") {
        "actors"
    } else if contains(archive_iso_path, "Stage/") {
        "stages"
    } else if contains(archive_iso_path, "Audiores/") {
        "audio"
    } else if contains(archive_iso_path, "misc/") {
        "ui"
    } else {
        "res"
    };
    if ends_with(internal_path, ".aw") {
        let chars = chars_of(internal_path);
        proof {
            reveal_strlit(".aw");
        }
        let base = string_range(chars.as_slice(), 0, chars.len() - 3);
        let mut s = to_string("audio/waves/");
        push_str(&mut s, archive_stem);
        push_str(&mut s, "/");
        push_str(&mut s, base.as_str());
        push_str(&mut s, ".json");
        proof {
            reveal_strlit("/");
            assert(base@ =~= internal_path@.take(internal_path@.len() - 3));
        }
        return Some(s);
    }
    let mut s = to_string(category);
    push_str(&mut s, "/");
    push_str(&mut s, archive_stem);
    push_str(&mut s, "/");
    push_str(&mut s, internal_path);
    proof {
        reveal_strlit("/");
    }
    Some(s)
}

/// The stem of a path, as `std::path::Path::file_stem` gives it.
pub uninterp spec fn spec_path_file_stem(path: Seq<char>) -> Option<Seq<char>>;

/// The stem of a path: its last component without the final extension.
/// It calls `Path::file_stem`; the contract claims only that the result
/// depends on the path's characters alone.
#[verifier::external_body]
fn path_file_stem(path: &str) -> (res: Option<String>)
    ensures
        res matches Some(s) ==> spec_path_file_stem(path@) == Some(s@),
        res is None ==> spec_path_file_stem(path@) is None,
{
    match std::path::Path::new(path).file_stem() {
        Some(s) => Some(s.to_string_lossy().into_owned()),
        None => None,
    }
}

/// The stem of an archive's disc path, which names its folder.
pub fn archive_stem(archive_iso_path: &str) -> (res: Result<String, String>)
    ensures
        match spec_path_file_stem(archive_iso_path@) {
            Some(s) => res matches Ok(r) && r@ == s,
            None => res matches Err(m) && m@ == "Invalid arc path"@,
        },
{
    match path_file_stem(archive_iso_path) {
        Some(s) => Ok(s),
        None => Err(to_string("Invalid arc path")),
    }
}

/// The first file entry (not a directory, with a parent node) whose path
/// inside the archive is `path`.
pub open spec fn spec_find_entry(r: RarcModel, path: Seq<char>, k: nat) -> Option<nat>
    decreases k,
{
    if k == 0 {
        None
    } else {
        match spec_find_entry(r, path, (k - 1) as nat) {
            Some(i) => Some(i),
            None => {
                let e = r.file_entries[k - 1];
                if !e.is_dir && e.parent_node_index is Some && spec_entry_path(r, e) == path {
                    Some((k - 1) as nat)
                } else {
                    None
                }
            },
        }
    }
}

/// Finds the file entry at `path` inside an archive.
pub fn find_entry_in_rarc(rarc: &Rarc, path: &str) -> (res: Option<usize>)
    requires
        spec_links_ok(rarc@),
    ensures
        match spec_find_entry(rarc@, path@, rarc@.file_entries.len()) {
            Some(i) => res matches Some(k) && k as nat == i,
            None => res is None,
        },
{
    let mut k: usize = 0;
    while k < rarc.file_entries.len()
        invariant
            k <= rarc@.file_entries.len(),
            spec_links_ok(rarc@),
            spec_find_entry(rarc@, path@, k as nat) is None,
        decreases rarc@.file_entries.len() - k,
    {
        assert(rarc.file_entries@[k as int]@ == rarc@.file_entries[k as int]);
        let e = &rarc.file_entries[k];
        if !e.is_dir && e.parent_node_index.is_some() {
            let p = rarc_entry_path(rarc, k);
            if str_eq(p.as_str(), path) {
                proof {
                    lemma_find_entry_stays(rarc@, path@, (k + 1) as nat, rarc@.file_entries.len());
                }
                return Some(k);
            }
        }
        k = k + 1;
    }
    None
}

proof fn lemma_find_entry_stays(r: RarcModel, path: Seq<char>, k: nat, n: nat)
    requires
        k <= n,
        spec_find_entry(r, path, k) is Some,
    ensures
        spec_find_entry(r, path, n) == spec_find_entry(r, path, k),
    decreases n - k,
{
    if k < n {
        lemma_find_entry_stays(r, path, k, (n - 1) as nat);
    }
}

/// The manifest entry of a file outside archives.
pub open spec fn spec_direct_entry(rel_iso_path: Seq<char>, bytes: Seq<u8>) -> JsonModel {
    JsonModel::Object(seq![("iso"@, JsonModel::Str(rel_iso_path)), ("sha1"@, JsonModel::Str(spec_hex_lower(spec_sha1(bytes))))])
}

/// The manifest entry of a file outside archives: its disc path and hash.
pub fn direct_iso_entry(rel_iso_path: &str, bytes: &[u8]) -> (res: JsonValue)
    ensures
        res@ == spec_direct_entry(rel_iso_path@, bytes@),
{
    let mut e: Vec<(String, JsonValue)> = Vec::new();
    e.push(member("iso", JsonValue::Str(to_string(rel_iso_path))));
    e.push(member("sha1", JsonValue::Str(sha1_hex(bytes))));
    let res = JsonValue::Object(e);
    proof {
        lemma_view_containers(res);
        assert(json_entries_view(e@) =~= spec_direct_entry(rel_iso_path@, bytes@)->Object_0);
    }
    res
}

/// The manifest entry of a plain file inside an archive.
pub open spec fn spec_archive_entry(archive: Seq<char>, internal: Seq<char>, data: Seq<u8>) -> JsonModel {
    JsonModel::Object(
        seq![
            ("archive"@, JsonModel::Str(archive)),
            ("path"@, JsonModel::Str(internal)),
            ("sha1"@, JsonModel::Str(spec_hex_lower(spec_sha1(data)))),
        ],
    )
}

/// The manifest entry of a plain file inside an archive: the archive, the
/// path inside it and the hash.
pub fn archive_entry(archive: &str, internal_path: &str, data: &[u8]) -> (res: JsonValue)
    ensures
        res@ == spec_archive_entry(archive@, internal_path@, data@),
{
    let mut e: Vec<(String, JsonValue)> = Vec::new();
    e.push(member("archive", JsonValue::Str(to_string(archive))));
    e.push(member("path", JsonValue::Str(to_string(internal_path))));
    e.push(member("sha1", JsonValue::Str(sha1_hex(data))));
    let res = JsonValue::Object(e);
    proof {
        lemma_view_containers(res);
        assert(json_entries_view(e@) =~= spec_archive_entry(archive@, internal_path@, data@)->Object_0);
    }
    res
}

} // verus!
