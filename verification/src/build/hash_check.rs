//! Which files of the mod folder differ from the exported ones.
//!
//! The manifest lists each exported file with its SHA-1, either as a
//! string or as an object whose `base` member is the hash. A file is
//! modified where its current hash differs. The consolidated message file
//! is compared source by source, each source by the hash of its encoding
//! and messages, so that only the message files that changed are rebuilt.

use vstd::prelude::*;
use crate::json::{
    JsonValue, JsonModel, json_entries_view, json_seq_view, lemma_view_containers, spec_get,
    spec_get_str, spec_as_str, spec_as_array,
};
use crate::text::{push_str, str_eq, to_string};
use crate::build::archive_plan::ModifiedFile;
use crate::utils::{sha1_hex, spec_sha1, spec_hex_lower};
use crate::export::consolidated_bmg::IndividualBmg;

verus! {

/// The friendly path of the consolidated message file.
pub open spec fn spec_messages_path() -> Seq<char> {
    "text/messages.json"@
}

/// The hash a manifest records: a string, or the `base` member of an
/// object.
pub open spec fn spec_manifest_sha1(v: JsonModel) -> Option<Seq<char>> {
    match v {
        JsonModel::Str(s) => Some(s),
        JsonModel::Object(_) => spec_get_str(v, "base"@),
        _ => None,
    }
}

/// Reads the hash a manifest records for a file.
pub fn read_manifest_sha1(v: &JsonValue) -> (res: Option<String>)
    ensures
        match spec_manifest_sha1(v@) {
            Some(s) => res matches Some(r) && r@ == s,
            None => res is None,
        },
{
    match v {
        JsonValue::Str(s) => Some(to_string(s.as_str())),
        JsonValue::Object(_) => match v.get("base") {
            Some(b) => match b.as_str() {
                Some(s) => Some(to_string(s)),
                None => None,
            },
            None => None,
        },
        _ => None,
    }
}

/// The entries of a manifest, or the error for a manifest without them.
pub open spec fn spec_manifest_entries(m: JsonModel) -> Result<Seq<(Seq<char>, JsonModel)>, Seq<char>> {
    match spec_get(m, "entries"@) {
        Some(JsonModel::Object(e)) => Ok(e),
        _ => Err("Manifest missing 'entries' object"@),
    }
}

/// The entries of a manifest.
pub fn manifest_entries(manifest: &JsonValue) -> (res: Result<&Vec<(String, JsonValue)>, String>)
    ensures
        match spec_manifest_entries(manifest@) {
            Ok(e) => res matches Ok(v) && json_entries_view(v@) == e,
            Err(msg) => res matches Err(m) && m@ == msg,
        },
{
    match manifest.get("entries") {
        Some(v) => {
            proof {
                lemma_view_containers(*v);
            }
            match v {
                JsonValue::Object(es) => Ok(es),
                _ => Err(to_string("Manifest missing 'entries' object")),
            }
        },
        None => Err(to_string("Manifest missing 'entries' object")),
    }
}

/// What a manifest entry asks for.
pub enum EntryCheck {
    /// The consolidated message file, compared source by source.
    Consolidated,
    /// A file compared by its hash.
    Standard { sha1: String, archive: Option<String>, internal_path: Option<String> },
}

/// An entry check as plain values.
pub enum EntryCheckModel {
    Consolidated,
    Standard { sha1: Seq<char>, archive: Option<Seq<char>>, internal_path: Option<Seq<char>> },
}

/// The plain value of an optional string.
pub open spec fn opt_str_view(o: Option<String>) -> Option<Seq<char>> {
    match o {
        Some(s) => Some(s@),
        None => None,
    }
}

/// The plain value of an entry check.
pub open spec fn entry_check_view(c: EntryCheck) -> EntryCheckModel {
    match c {
        EntryCheck::Consolidated => EntryCheckModel::Consolidated,
        EntryCheck::Standard { sha1, archive, internal_path } => EntryCheckModel::Standard {
            sha1: sha1@,
            archive: opt_str_view(archive),
            internal_path: opt_str_view(internal_path),
        },
    }
}

/// What a manifest entry asks for, or why it is malformed.
pub open spec fn spec_classify_entry(friendly: Seq<char>, entry: JsonModel) -> Result<EntryCheckModel, Seq<char>> {
    if !(entry is Object) {
        Err("Entry is not an object"@)
    } else if friendly == spec_messages_path() {
        Ok(EntryCheckModel::Consolidated)
    } else {
        match spec_get(entry, "sha1"@) {
            Some(h) => match spec_manifest_sha1(h) {
                Some(sha1) => Ok(
                    EntryCheckModel::Standard {
                        sha1,
                        archive: spec_get_str(entry, "archive"@),
                        internal_path: spec_get_str(entry, "path"@),
                    },
                ),
                None => Err("Entry "@ + friendly + " missing sha1"@),
            },
            None => Err("Entry "@ + friendly + " missing sha1"@),
        }
    }
}

fn opt_member_str(v: &JsonValue, key: &str) -> (res: Option<String>)
    ensures
        opt_str_view(res) == spec_get_str(v@, key@),
{
    match v.get(key) {
        Some(m) => match m.as_str() {
            Some(s) => Some(to_string(s)),
            None => None,
        },
        None => None,
    }
}

/// Decides what a manifest entry asks for.
pub fn classify_entry(friendly: &str, entry: &JsonValue) -> (res: Result<EntryCheck, String>)
    ensures
        match spec_classify_entry(friendly@, entry@) {
            Ok(c) => res matches Ok(r) && entry_check_view(r) == c,
            Err(e) => res matches Err(m) && m@ == e,
        },
{
    if !entry.is_object() {
        return Err(to_string("Entry is not an object"));
    }
    proof {
        reveal_strlit("text/messages.json");
    }
    if str_eq(friendly, "text/messages.json") {
        return Ok(EntryCheck::Consolidated);
    }
    let sha1 = match entry.get("sha1") {
        Some(h) => read_manifest_sha1(h),
        None => None,
    };
    match sha1 {
        Some(s) => Ok(
            EntryCheck::Standard {
                sha1: s,
                archive: opt_member_str(entry, "archive"),
                internal_path: opt_member_str(entry, "path"),
            },
        ),
        None => {
            let mut m = to_string("Entry ");
            push_str(&mut m, friendly);
            push_str(&mut m, " missing sha1");
            Err(m)
        },
    }
}

/// The modified-file record for a standard entry whose file now hashes to
/// `new_hash`: one where the hash changed, none where it did not.
pub fn standard_change(
    friendly: &str,
    mod_path: &str,
    sha1: &str,
    archive: &Option<String>,
    internal_path: &Option<String>,
    new_hash: &str,
) -> (res: Option<ModifiedFile>)
    ensures
        new_hash@ == sha1@ <==> res is None,
        res matches Some(m) ==> m.friendly_path@ == friendly@ && m.mod_path@ == mod_path@
            && opt_str_view(m.archive) == opt_str_view(*archive) && opt_str_view(m.internal_path)
            == opt_str_view(*internal_path),
{
    if str_eq(new_hash, sha1) {
        return None;
    }
    let a = match archive {
        Some(s) => Some(to_string(s.as_str())),
        None => None,
    };
    let p = match internal_path {
        Some(s) => Some(to_string(s.as_str())),
        None => None,
    };
    Some(
        ModifiedFile {
            friendly_path: to_string(friendly),
            mod_path: to_string(mod_path),
            archive: a,
            internal_path: p,
        },
    )
}

/// The original hash of one source of the consolidated message file.
pub struct SourceHash {
    pub archive: String,
    pub path: String,
    pub sha1: String,
}

/// The plain values of a list of source hashes.
pub open spec fn source_hashes_view(v: Seq<SourceHash>) -> Seq<(Seq<char>, Seq<char>, Seq<char>)> {
    v.map_values(|s: SourceHash| (s.archive@, s.path@, s.sha1@))
}

/// The hash of one source as the manifest lists it, or the error for the
/// first missing field.
pub open spec fn spec_source_hash(src: JsonModel) -> Result<(Seq<char>, Seq<char>, Seq<char>), Seq<char>> {
    match spec_get_str(src, "archive"@) {
        None => Err("Source missing archive in manifest"@),
        Some(a) => match spec_get_str(src, "path"@) {
            None => Err("Source missing path in manifest"@),
            Some(p) => match spec_get(src, "sha1"@) {
                Some(h) => match spec_manifest_sha1(h) {
                    Some(s) => Ok((a, p, s)),
                    None => Err("Source missing sha1 in manifest"@),
                },
                None => Err("Source missing sha1 in manifest"@),
            },
        },
    }
}

/// The hashes of all sources, in order, or the first error.
pub open spec fn spec_source_hashes(srcs: Seq<JsonModel>) -> Result<Seq<(Seq<char>, Seq<char>, Seq<char>)>, Seq<char>>
    decreases srcs.len(),
{
    if srcs.len() == 0 {
        Ok(Seq::empty())
    } else {
        match spec_source_hashes(srcs.drop_last()) {
            Err(e) => Err(e),
            Ok(done) => match spec_source_hash(srcs.last()) {
                Err(e) => Err(e),
                Ok(h) => Ok(done.push(h)),
            },
        }
    }
}

/// The original source hashes that the consolidated entry lists.
pub open spec fn spec_original_hashes(entry: JsonModel) -> Result<Seq<(Seq<char>, Seq<char>, Seq<char>)>, Seq<char>> {
    match spec_get(entry, "sources"@) {
        Some(JsonModel::Array(srcs)) => spec_source_hashes(srcs),
        _ => Err("Consolidated BMG missing sources in manifest"@),
    }
}

proof fn lemma_source_hashes_err_prefix(srcs: Seq<JsonModel>, n: nat)
    requires
        n <= srcs.len(),
        spec_source_hashes(srcs.take(n as int)) is Err,
    ensures
        spec_source_hashes(srcs) == spec_source_hashes(srcs.take(n as int)),
    decreases srcs.len() - n,
{
    if n < srcs.len() {
        assert(srcs.take(n as int + 1).drop_last() =~= srcs.take(n as int));
        lemma_source_hashes_err_prefix(srcs, n + 1);
    } else {
        assert(srcs.take(n as int) =~= srcs);
    }
}

/// Reads the original source hashes of the consolidated message file.
pub fn original_hashes(entry: &JsonValue) -> (res: Result<Vec<SourceHash>, String>)
    ensures
        match spec_original_hashes(entry@) {
            Ok(h) => res matches Ok(v) && source_hashes_view(v@) == h,
            Err(e) => res matches Err(m) && m@ == e,
        },
{
    let srcs = match entry.get("sources") {
        Some(v) => {
            proof {
                lemma_view_containers(*v);
            }
            match v {
                JsonValue::Array(items) => items,
                _ => {
                    return Err(to_string("Consolidated BMG missing sources in manifest"));
                },
            }
        },
        None => {
            return Err(to_string("Consolidated BMG missing sources in manifest"));
        },
    };
    let ghost sv = json_seq_view(srcs@);
    let mut out: Vec<SourceHash> = Vec::new();
    let mut i: usize = 0;
    assert(source_hashes_view(out@) =~= Seq::<(Seq<char>, Seq<char>, Seq<char>)>::empty());
    assert(sv.take(0) =~= Seq::<JsonModel>::empty());
    while i < srcs.len()
        invariant
            i <= srcs@.len(),
            sv == json_seq_view(srcs@),
            spec_get(entry@, "sources"@) == Some(JsonModel::Array(sv)),
            spec_source_hashes(sv.take(i as int)) == Ok::<Seq<(Seq<char>, Seq<char>, Seq<char>)>, Seq<char>>(
                source_hashes_view(out@),
            ),
        decreases srcs@.len() - i,
    {
        assert(sv.take(i + 1).drop_last() =~= sv.take(i as int));
        assert(sv.take(i + 1).last() == srcs@[i as int]@);
        let src = &srcs[i];
        let archive = match src.get("archive") {
            Some(a) => a.as_str(),
            None => None,
        };
        let archive = match archive {
            Some(a) => a,
            None => {
                proof {
                    lemma_source_hashes_err_prefix(sv, (i + 1) as nat);
                }
                return Err(to_string("Source missing archive in manifest"));
            },
        };
        let path = match src.get("path") {
            Some(p) => p.as_str(),
            None => None,
        };
        let path = match path {
            Some(p) => p,
            None => {
                proof {
                    lemma_source_hashes_err_prefix(sv, (i + 1) as nat);
                }
                return Err(to_string("Source missing path in manifest"));
            },
        };
        let sha1 = match src.get("sha1") {
            Some(h) => read_manifest_sha1(h),
            None => None,
        };
        let sha1 = match sha1 {
            Some(s) => s,
            None => {
                proof {
                    lemma_source_hashes_err_prefix(sv, (i + 1) as nat);
                }
                return Err(to_string("Source missing sha1 in manifest"));
            },
        };
        let ghost before = source_hashes_view(out@);
        let ghost h = (archive@, path@, sha1@);
        out.push(SourceHash { archive: to_string(archive), path: to_string(path), sha1 });
        assert(source_hashes_view(out@) =~= before.push(h));
        i = i + 1;
    }
    assert(sv.take(srcs@.len() as int) =~= sv);
    Ok(out)
}

/// The original hash recorded for a source: that of the last listing of
/// its archive and path (a later listing replaces an earlier one), empty
/// where it is not listed.
pub open spec fn spec_original_hash_of(hashes: Seq<(Seq<char>, Seq<char>, Seq<char>)>, archive: Seq<char>, path: Seq<char>) -> Seq<char>
    decreases hashes.len(),
{
    if hashes.len() == 0 {
        Seq::empty()
    } else if hashes.last().0 == archive && hashes.last().1 == path {
        hashes.last().2
    } else {
        spec_original_hash_of(hashes.drop_last(), archive, path)
    }
}

/// Whether a source of the consolidated message file changed: its new
/// hash differs from the one recorded.
pub fn source_changed(hashes: &Vec<SourceHash>, archive: &str, path: &str, new_hash: &str) -> (res: bool)
    ensures
        res == (new_hash@ != spec_original_hash_of(source_hashes_view(hashes@), archive@, path@)),
{
    let ghost hv = source_hashes_view(hashes@);
    let mut i: usize = hashes.len();
    assert(hv.take(i as int) =~= hv);
    while i > 0
        invariant
            i <= hashes@.len(),
            hv == source_hashes_view(hashes@),
            spec_original_hash_of(hv, archive@, path@) == spec_original_hash_of(hv.take(i as int), archive@, path@),
        decreases i,
    {
        let k = i - 1;
        assert(hv.take(i as int).drop_last() =~= hv.take(k as int));
        assert(hv.take(i as int).last() == hv[k as int]);
        assert(hv[k as int] == (hashes@[k as int].archive@, hashes@[k as int].path@, hashes@[k as int].sha1@));
        if str_eq(hashes[k].archive.as_str(), archive) && str_eq(hashes[k].path.as_str(), path) {
            return !str_eq(new_hash, hashes[k].sha1.as_str());
        }
        i = k;
    }
    assert(hv.take(0) =~= Seq::<(Seq<char>, Seq<char>, Seq<char>)>::empty());
    let empty = String::new();
    assert(spec_original_hash_of(hv, archive@, path@) == empty@);
    !str_eq(new_hash, empty.as_str())
}


/// The (archive, path) of each source of the consolidated message file
/// that changed: the hash of the bytes it is compared by differs from the
/// hash the manifest records for it.
pub open spec fn spec_consolidated_changes(
    hashes: Seq<(Seq<char>, Seq<char>, Seq<char>)>,
    sources: Seq<(Seq<char>, Seq<char>, Seq<u8>)>,
) -> Seq<(Seq<char>, Seq<char>)>
    decreases sources.len(),
{
    if sources.len() == 0 {
        Seq::empty()
    } else {
        let prev = spec_consolidated_changes(hashes, sources.drop_last());
        let s = sources.last();
        if spec_hex_lower(spec_sha1(s.2)) != spec_original_hash_of(hashes, s.0, s.1) {
            prev.push((s.0, s.1))
        } else {
            prev
        }
    }
}

/// The sources of split-out message files, each with the bytes that its
/// hash is taken of.
pub open spec fn spec_hashed_sources(individuals: Seq<IndividualBmg>, serialized: Seq<Vec<u8>>) -> Seq<(Seq<char>, Seq<char>, Seq<u8>)> {
    Seq::new(individuals.len(), |i: int| (individuals[i].archive@, individuals[i].path@, serialized[i]@))
}

/// The modified-file records of the consolidated message file at
/// `mod_path`: one per source whose hash changed, in order. `serialized`
/// holds, for each split-out source, the bytes its hash is taken of (the
/// pretty JSON of its encoding and messages).
pub fn consolidated_changes(
    hashes: &Vec<SourceHash>,
    individuals: &Vec<IndividualBmg>,
    serialized: &Vec<Vec<u8>>,
    mod_path: &str,
) -> (res: Vec<ModifiedFile>)
    requires
        serialized@.len() == individuals@.len(),
    ensures
        ({
            let changes = spec_consolidated_changes(
                source_hashes_view(hashes@),
                spec_hashed_sources(individuals@, serialized@),
            );
            &&& res@.len() == changes.len()
            &&& forall|i: int|
                0 <= i < res@.len() ==> {
                    let m = #[trigger] res@[i];
                    &&& m.friendly_path@ == spec_messages_path()
                    &&& m.mod_path@ == mod_path@
                    &&& opt_str_view(m.archive) == Some(changes[i].0)
                    &&& opt_str_view(m.internal_path) == Some(changes[i].1)
                }
        }),
{
    let ghost hv = source_hashes_view(hashes@);
    let ghost sv = spec_hashed_sources(individuals@, serialized@);
    let mut out: Vec<ModifiedFile> = Vec::new();
    let mut i: usize = 0;
    proof {
        reveal_strlit("text/messages.json");
    }
    while i < individuals.len()
        invariant
            i <= individuals@.len(),
            serialized@.len() == individuals@.len(),
            hv == source_hashes_view(hashes@),
            sv == spec_hashed_sources(individuals@, serialized@),
            ({
                let changes = spec_consolidated_changes(hv, sv.take(i as int));
                &&& out@.len() == changes.len()
                &&& forall|q: int|
                    0 <= q < out@.len() ==> {
                        let m = #[trigger] out@[q];
                        &&& m.friendly_path@ == spec_messages_path()
                        &&& m.mod_path@ == mod_path@
                        &&& opt_str_view(m.archive) == Some(changes[q].0)
                        &&& opt_str_view(m.internal_path) == Some(changes[q].1)
                    }
            }),
        decreases individuals@.len() - i,
    {
        proof {
            assert(sv.take(i + 1).drop_last() =~= sv.take(i as int));
            assert(sv.take(i + 1).last() == sv[i as int]);
        }
        let b = &individuals[i];
        let new_hash = sha1_hex(serialized[i].as_slice());
        if source_changed(hashes, b.archive.as_str(), b.path.as_str(), new_hash.as_str()) {
            let m = ModifiedFile {
                friendly_path: to_string("text/messages.json"),
                mod_path: to_string(mod_path),
                archive: Some(to_string(b.archive.as_str())),
                internal_path: Some(to_string(b.path.as_str())),
            };
            out.push(m);
        }
        i = i + 1;
    }
    assert(sv.take(individuals@.len() as int) =~= sv);
    out
}

} // verus!
