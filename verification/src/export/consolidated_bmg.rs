//! All message files of the disc in one editable JSON file.
//!
//! The file is `{"version": 1, "sources": [...]}`; each source names the
//! archive and the path of a message file, its encoding, and its messages
//! in the JSON form of a BMG. Building splits it back into one JSON form
//! per message file.

use vstd::prelude::*;
use crate::json::{
    JsonValue, JsonModel, json_clone, json_seq_view, json_entries_view, lemma_seq_view_push,
    lemma_view_containers, member, spec_get, spec_get_str, spec_as_array,
};
use crate::text::{str_eq, to_string};

verus! {

/// One message file of the consolidated file.
pub struct BmgSource {
    pub archive: String,
    pub path: String,
    pub encoding: String,
    pub messages: Vec<JsonValue>,
}

/// A source as plain values.
pub struct BmgSourceModel {
    pub archive: Seq<char>,
    pub path: Seq<char>,
    pub encoding: Seq<char>,
    pub messages: Seq<JsonModel>,
}

impl View for BmgSource {
    type V = BmgSourceModel;

    open spec fn view(&self) -> BmgSourceModel {
        BmgSourceModel {
            archive: self.archive@,
            path: self.path@,
            encoding: self.encoding@,
            messages: json_seq_view(self.messages@),
        }
    }
}

impl BmgSource {
    /// A source from the JSON form of a BMG; its messages are the items of
    /// that form, none where it is not an array.
    pub fn from_bmg(archive: String, path: String, encoding: String, bmg_json: JsonValue) -> (res: Self)
        ensures
            res@.archive == archive@,
            res@.path == path@,
            res@.encoding == encoding@,
            res@.messages == match spec_as_array(bmg_json@) {
                Some(items) => items,
                None => Seq::empty(),
            },
    {
        proof {
            lemma_view_containers(bmg_json);
        }
        let messages = match bmg_json {
            JsonValue::Array(items) => items,
            _ => {
                let v: Vec<JsonValue> = Vec::new();
                assert(json_seq_view(v@) =~= Seq::<JsonModel>::empty());
                v
            },
        };
        BmgSource { archive, path, encoding, messages }
    }
}

/// The message files of the disc, in the order they were found.
pub struct ConsolidatedBmg {
    pub sources: Vec<BmgSource>,
}

/// The plain values of a list of sources.
pub open spec fn sources_view(v: Seq<BmgSource>) -> Seq<BmgSourceModel> {
    v.map_values(|s: BmgSource| s@)
}

/// The JSON object of one source.
pub open spec fn spec_source_json(s: BmgSourceModel) -> JsonModel {
    JsonModel::Object(
        seq![
            ("archive"@, JsonModel::Str(s.archive)),
            ("path"@, JsonModel::Str(s.path)),
            ("encoding"@, JsonModel::Str(s.encoding)),
            ("messages"@, JsonModel::Array(s.messages)),
        ],
    )
}

/// The consolidated file's JSON.
pub open spec fn spec_consolidated_json(sources: Seq<BmgSourceModel>) -> JsonModel {
    JsonModel::Object(
        seq![
            ("version"@, JsonModel::UInt(1)),
            ("sources"@, JsonModel::Array(Seq::new(sources.len(), |i: int| spec_source_json(sources[i])))),
        ],
    )
}

impl ConsolidatedBmg {
    /// No sources yet.
    pub fn new() -> (res: Self)
        ensures
            res.sources@.len() == 0,
    {
        ConsolidatedBmg { sources: Vec::new() }
    }

    /// Adds a source after the others.
    pub fn add_source(&mut self, source: BmgSource)
        ensures
            final(self).sources@ == old(self).sources@.push(source),
    {
        self.sources.push(source);
    }

    /// The consolidated file's JSON.
    pub fn to_json(&self) -> (res: JsonValue)
        ensures
            res@ == spec_consolidated_json(sources_view(self.sources@)),
    {
        let ghost sv = sources_view(self.sources@);
        let mut items: Vec<JsonValue> = Vec::new();
        let mut i: usize = 0;
        assert(json_seq_view(items@) =~= Seq::<JsonModel>::empty());
        while i < self.sources.len()
            invariant
                i <= self.sources@.len(),
                sv == sources_view(self.sources@),
                json_seq_view(items@) == Seq::new(i as nat, |j: int| spec_source_json(sv[j])),
            decreases self.sources@.len() - i,
        {
            let src = &self.sources[i];
            let mut msgs: Vec<JsonValue> = Vec::new();
            let mut k: usize = 0;
            assert(json_seq_view(msgs@) =~= json_seq_view(src.messages@).take(0));
            while k < src.messages.len()
                invariant
                    k <= src.messages@.len(),
                    json_seq_view(msgs@) == json_seq_view(src.messages@).take(k as int),
                decreases src.messages@.len() - k,
            {
                let c = json_clone(&src.messages[k]);
                let ghost before = msgs@;
                msgs.push(c);
                proof {
                    lemma_seq_view_push(before, c);
                    assert(json_seq_view(msgs@) =~= json_seq_view(src.messages@).take(k + 1));
                }
                k = k + 1;
            }
            assert(json_seq_view(src.messages@).take(src.messages@.len() as int) =~= json_seq_view(src.messages@));
            let msgs_json = JsonValue::Array(msgs);
            proof {
                lemma_view_containers(msgs_json);
            }
            let mut entries: Vec<(String, JsonValue)> = Vec::new();
            entries.push(member("archive", JsonValue::Str(to_string(src.archive.as_str()))));
            entries.push(member("path", JsonValue::Str(to_string(src.path.as_str()))));
            entries.push(member("encoding", JsonValue::Str(to_string(src.encoding.as_str()))));
            entries.push(member("messages", msgs_json));
            let obj = JsonValue::Object(entries);
            proof {
                lemma_view_containers(obj);
                assert(sv[i as int] == src@);
                assert(json_entries_view(entries@) =~= spec_source_json(sv[i as int])->Object_0);
            }
            let ghost before = items@;
            items.push(obj);
            proof {
                lemma_seq_view_push(before, obj);
                assert(json_seq_view(items@) =~= Seq::new((i + 1) as nat, |j: int| spec_source_json(sv[j])));
            }
            i = i + 1;
        }
        let sources_json = JsonValue::Array(items);
        proof {
            lemma_view_containers(sources_json);
        }
        let mut top: Vec<(String, JsonValue)> = Vec::new();
        top.push(member("version", JsonValue::UInt(1)));
        top.push(member("sources", sources_json));
        let res = JsonValue::Object(top);
        proof {
            lemma_view_containers(res);
            assert(json_entries_view(top@) =~= spec_consolidated_json(sv)->Object_0);
        }
        res
    }
}

/// One message file split back out: its archive and path, its messages in
/// the JSON form of a BMG, and its encoding.
pub struct IndividualBmg {
    pub archive: String,
    pub path: String,
    pub bmg_json: JsonValue,
    pub encoding: String,
}

/// The plain values of a list of split-out message files.
pub open spec fn individuals_view(v: Seq<IndividualBmg>) -> Seq<(Seq<char>, Seq<char>, JsonModel, Seq<char>)> {
    v.map_values(|b: IndividualBmg| (b.archive@, b.path@, b.bmg_json@, b.encoding@))
}

/// One source split out, or the error for its first missing field; the
/// encoding defaults to `shift-jis`.
pub open spec fn spec_individual(src: JsonModel) -> Result<(Seq<char>, Seq<char>, JsonModel, Seq<char>), Seq<char>> {
    match spec_get_str(src, "archive"@) {
        None => Err("Missing 'archive' in source"@),
        Some(a) => match spec_get_str(src, "path"@) {
            None => Err("Missing 'path' in source"@),
            Some(p) => {
                let enc = match spec_get_str(src, "encoding"@) {
                    Some(e) => e,
                    None => "shift-jis"@,
                };
                match spec_get(src, "messages"@) {
                    None => Err("Missing 'messages' in source"@),
                    Some(m) => Ok((a, p, m, enc)),
                }
            },
        }
    }
}

/// The first split-out file with the given archive and path.
pub open spec fn spec_individual_index(v: Seq<(Seq<char>, Seq<char>, JsonModel, Seq<char>)>, a: Seq<char>, p: Seq<char>) -> Option<nat>
    decreases v.len(),
{
    if v.len() == 0 {
        None
    } else {
        match spec_individual_index(v.drop_last(), a, p) {
            Some(i) => Some(i),
            None => if v.last().0 == a && v.last().1 == p {
                Some((v.len() - 1) as nat)
            } else {
                None
            },
        }
    }
}

/// Split-out files with one more: it replaces the one with the same
/// archive and path, or comes last.
pub open spec fn spec_individual_insert(
    v: Seq<(Seq<char>, Seq<char>, JsonModel, Seq<char>)>,
    x: (Seq<char>, Seq<char>, JsonModel, Seq<char>),
) -> Seq<(Seq<char>, Seq<char>, JsonModel, Seq<char>)> {
    match spec_individual_index(v, x.0, x.1) {
        Some(i) => v.update(i as int, x),
        None => v.push(x),
    }
}

/// All sources split out, or the first error.
pub open spec fn spec_individuals_of(srcs: Seq<JsonModel>) -> Result<Seq<(Seq<char>, Seq<char>, JsonModel, Seq<char>)>, Seq<char>>
    decreases srcs.len(),
{
    if srcs.len() == 0 {
        Ok(Seq::empty())
    } else {
        match spec_individuals_of(srcs.drop_last()) {
            Err(e) => Err(e),
            Ok(done) => match spec_individual(srcs.last()) {
                Err(e) => Err(e),
                Ok(x) => Ok(spec_individual_insert(done, x)),
            },
        }
    }
}

/// The consolidated file split into one JSON form per message file.
pub open spec fn spec_to_individual_bmgs(json: JsonModel) -> Result<Seq<(Seq<char>, Seq<char>, JsonModel, Seq<char>)>, Seq<char>> {
    match spec_get(json, "sources"@) {
        Some(JsonModel::Array(srcs)) => spec_individuals_of(srcs),
        _ => Err("Missing or invalid 'sources' array"@),
    }
}

proof fn lemma_individuals_err_prefix(srcs: Seq<JsonModel>, n: nat)
    requires
        n <= srcs.len(),
        spec_individuals_of(srcs.take(n as int)) is Err,
    ensures
        spec_individuals_of(srcs) == spec_individuals_of(srcs.take(n as int)),
    decreases srcs.len() - n,
{
    if n < srcs.len() {
        assert(srcs.take(n as int + 1).drop_last() =~= srcs.take(n as int));
        lemma_individuals_err_prefix(srcs, n + 1);
    } else {
        assert(srcs.take(n as int) =~= srcs);
    }
}

proof fn lemma_individual_index_prefix(v: Seq<(Seq<char>, Seq<char>, JsonModel, Seq<char>)>, a: Seq<char>, p: Seq<char>, n: nat)
    requires
        n <= v.len(),
        spec_individual_index(v.take(n as int), a, p) is Some,
    ensures
        spec_individual_index(v, a, p) == spec_individual_index(v.take(n as int), a, p),
    decreases v.len() - n,
{
    if n < v.len() {
        assert(v.take(n as int + 1).drop_last() =~= v.take(n as int));
        lemma_individual_index_prefix(v, a, p, n + 1);
    } else {
        assert(v.take(n as int) =~= v);
    }
}

pub proof fn lemma_individual_index_bound(v: Seq<(Seq<char>, Seq<char>, JsonModel, Seq<char>)>, a: Seq<char>, p: Seq<char>)
    ensures
        spec_individual_index(v, a, p) matches Some(i) ==> i < v.len(),
    decreases v.len(),
{
    if v.len() > 0 {
        lemma_individual_index_bound(v.drop_last(), a, p);
    }
}

/// Finds the split-out file with the given archive and path.
pub fn find_individual(v: &Vec<IndividualBmg>, archive: &str, path: &str) -> (res: Option<usize>)
    ensures
        match spec_individual_index(individuals_view(v@), archive@, path@) {
            Some(i) => res matches Some(k) && k as nat == i,
            None => res is None,
        },
{
    let ghost iv = individuals_view(v@);
    let mut i: usize = 0;
    while i < v.len()
        invariant
            i <= v@.len(),
            iv == individuals_view(v@),
            spec_individual_index(iv.take(i as int), archive@, path@) is None,
        decreases v@.len() - i,
    {
        assert(iv.take(i + 1).drop_last() =~= iv.take(i as int));
        assert(iv.take(i + 1).last() == iv[i as int]);
        if str_eq(v[i].archive.as_str(), archive) && str_eq(v[i].path.as_str(), path) {
            proof {
                lemma_individual_index_prefix(iv, archive@, path@, (i + 1) as nat);
            }
            return Some(i);
        }
        i = i + 1;
    }
    assert(iv.take(v@.len() as int) =~= iv);
    None
}

/// Splits the consolidated file into one JSON form per message file, in
/// order of first appearance; a later source with the same archive and
/// path replaces an earlier one.
pub fn to_individual_bmgs(json: &JsonValue) -> (res: Result<Vec<IndividualBmg>, String>)
    ensures
        match spec_to_individual_bmgs(json@) {
            Ok(v) => res matches Ok(r) && individuals_view(r@) == v,
            Err(e) => res matches Err(m) && m@ == e,
        },
{
    let srcs = match json.get("sources") {
        Some(v) => {
            proof {
                lemma_view_containers(*v);
            }
            match v {
                JsonValue::Array(items) => items,
                _ => {
                    return Err(to_string("Missing or invalid 'sources' array"));
                },
            }
        },
        None => {
            return Err(to_string("Missing or invalid 'sources' array"));
        },
    };
    let ghost sv = json_seq_view(srcs@);
    let mut out: Vec<IndividualBmg> = Vec::new();
    let mut i: usize = 0;
    assert(individuals_view(out@) =~= Seq::<(Seq<char>, Seq<char>, JsonModel, Seq<char>)>::empty());
    assert(sv.take(0) =~= Seq::<JsonModel>::empty());
    while i < srcs.len()
        invariant
            i <= srcs@.len(),
            sv == json_seq_view(srcs@),
            spec_get(json@, "sources"@) == Some(JsonModel::Array(sv)),
            spec_individuals_of(sv.take(i as int)) == Ok::<Seq<(Seq<char>, Seq<char>, JsonModel, Seq<char>)>, Seq<char>>(
                individuals_view(out@),
            ),
        decreases srcs@.len() - i,
    {
        assert(sv.take(i + 1).drop_last() =~= sv.take(i as int));
        assert(sv.take(i + 1).last() == srcs@[i as int]@);
        let src = &srcs[i];
        let archive = match src.get("archive") {
            Some(a) => a.as_str(),
            None => None,
        };
        let archive = match archive {
            Some(a) => a,
            None => {
                proof {
                    lemma_individuals_err_prefix(sv, (i + 1) as nat);
                }
                return Err(to_string("Missing 'archive' in source"));
            },
        };
        let path = match src.get("path") {
            Some(p) => p.as_str(),
            None => None,
        };
        let path = match path {
            Some(p) => p,
            None => {
                proof {
                    lemma_individuals_err_prefix(sv, (i + 1) as nat);
                }
                return Err(to_string("Missing 'path' in source"));
            },
        };
        let encoding = match src.get("encoding") {
            Some(e) => match e.as_str() {
                Some(t) => to_string(t),
                None => to_string("shift-jis"),
            },
            None => to_string("shift-jis"),
        };
        let messages = match src.get("messages") {
            Some(m) => json_clone(m),
            None => {
                proof {
                    lemma_individuals_err_prefix(sv, (i + 1) as nat);
                }
                return Err(to_string("Missing 'messages' in source"));
            },
        };
        let ghost x = (archive@, path@, messages@, encoding@);
        let ghost before = individuals_view(out@);
        let item = IndividualBmg { archive: to_string(archive), path: to_string(path), bmg_json: messages, encoding };
        proof {
            lemma_individual_index_bound(before, archive@, path@);
        }
        match find_individual(&out, archive, path) {
            Some(k) => {
                out.set(k, item);
                assert(individuals_view(out@) =~= before.update(k as int, x));
            },
            None => {
                out.push(item);
                assert(individuals_view(out@) =~= before.push(x));
            },
        }
        i = i + 1;
    }
    assert(sv.take(srcs@.len() as int) =~= sv);
    Ok(out)
}

} // verus!
