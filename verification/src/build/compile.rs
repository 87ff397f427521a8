//! What modified files compile to.
//!
//! A JSON file under `text/` compiles to a BMG in Shift-JIS; the
//! consolidated message file compiles, for each of its modified sources,
//! to that source's BMG in the source's encoding, named after the source's
//! archive and path; any other file is taken as it is.

use vstd::prelude::*;
use crate::json::{JsonValue, JsonModel};
use crate::text::{chars_of, push_char, push_str, str_eq, string_from, to_string};
use crate::formats::bmg::from_json::{json_to_bmg, spec_json_to_bmg};
use crate::formats::bmg::parser::spec_bmg_bytes;
use crate::build::archive_plan::{ModifiedFile, CompiledFile};
use crate::build::hash_check::{opt_str_view, spec_messages_path};
use crate::export::consolidated_bmg::{
    IndividualBmg, individuals_view, spec_individual_index, find_individual, lemma_individual_index_bound,
};

verus! {

/// Whether `s` begins with `p`.
pub open spec fn spec_starts_with(s: Seq<char>, p: Seq<char>) -> bool {
    p.len() <= s.len() && s.take(p.len() as int) == p
}

/// Whether `s` ends with `p`.
pub open spec fn spec_ends_with(s: Seq<char>, p: Seq<char>) -> bool {
    p.len() <= s.len() && s.skip(s.len() - p.len()) == p
}

/// Whether `s` begins with `p`.
pub fn starts_with(s: &str, p: &str) -> (res: bool)
    ensures
        res == spec_starts_with(s@, p@),
{
    let a = chars_of(s);
    let b = chars_of(p);
    if b.len() > a.len() {
        return false;
    }
    let mut i: usize = 0;
    while i < b.len()
        invariant
            i <= b@.len(),
            b@.len() <= a@.len(),
            a@ == s@,
            b@ == p@,
            forall|j: int| 0 <= j < i ==> a@[j] == b@[j],
        decreases b@.len() - i,
    {
        if a[i] != b[i] {
            assert(s@.take(p@.len() as int)[i as int] != p@[i as int]);
            return false;
        }
        i = i + 1;
    }
    assert(s@.take(p@.len() as int) =~= p@);
    true
}

/// Whether `s` ends with `p`.
pub fn ends_with(s: &str, p: &str) -> (res: bool)
    ensures
        res == spec_ends_with(s@, p@),
{
    let a = chars_of(s);
    let b = chars_of(p);
    if b.len() > a.len() {
        return false;
    }
    let off = a.len() - b.len();
    let mut i: usize = 0;
    while i < b.len()
        invariant
            i <= b@.len(),
            off + b@.len() == a@.len(),
            a@.len() <= usize::MAX,
            a@ == s@,
            b@ == p@,
            forall|j: int| 0 <= j < i ==> a@[off + j] == b@[j],
        decreases b@.len() - i,
    {
        if a[off + i] != b[i] {
            assert(s@.skip(off as int)[i as int] != p@[i as int]);
            return false;
        }
        i = i + 1;
    }
    assert(s@.skip(off as int) =~= p@);
    true
}

/// Whether a mod file is a message file's JSON form.
pub open spec fn spec_is_text_json(path: Seq<char>) -> bool {
    spec_starts_with(path, "text/"@) && spec_ends_with(path, ".json"@)
}

/// Whether a mod file is a message file's JSON form.
pub fn is_text_json(path: &str) -> (res: bool)
    ensures
        res == spec_is_text_json(path@),
{
    starts_with(path, "text/") && ends_with(path, ".json")
}

/// `s` with every leading `files/` taken off.
pub open spec fn spec_trim_files(s: Seq<char>) -> Seq<char>
    decreases s.len(),
{
    if s.len() >= 6 && s.take(6) == "files/"@ {
        spec_trim_files(s.skip(6))
    } else {
        s
    }
}

fn trim_files(s: &str) -> (res: String)
    ensures
        res@ == spec_trim_files(s@),
{
    let chars = chars_of(s);
    let prefix = chars_of("files/");
    proof {
        reveal_strlit("files/");
    }
    let n = chars.len();
    let mut pos: usize = 0;
    let mut done = false;
    assert(s@.skip(0) =~= s@);
    while !done
        invariant
            pos <= n,
            n == chars@.len(),
            chars@ == s@,
            prefix@ == "files/"@,
            prefix@.len() == 6,
            spec_trim_files(s@) == spec_trim_files(s@.skip(pos as int)),
            done ==> spec_trim_files(s@.skip(pos as int)) == s@.skip(pos as int),
        decreases n - pos + if done { 0int } else { 1int },
    {
        if n - pos < 6 {
            done = true;
        } else {
            let mut k: usize = 0;
            let mut same = true;
            while k < 6
                invariant
                    k <= 6,
                    pos + 6 <= n,
                    n == chars@.len(),
                    prefix@.len() == 6,
                    same == forall|j: int| 0 <= j < k ==> chars@[pos + j] == prefix@[j],
                decreases 6 - k,
            {
                if chars[pos + k] != prefix[k] {
                    same = false;
                }
                k = k + 1;
            }
            if same {
                proof {
                    assert(s@.skip(pos as int).take(6) =~= "files/"@);
                    assert(s@.skip(pos as int).skip(6) =~= s@.skip(pos + 6));
                }
                pos = pos + 6;
            } else {
                proof {
                    let j = choose|j: int| 0 <= j < 6 && chars@[pos + j] != prefix@[j];
                    assert(s@.skip(pos as int).take(6)[j] != "files/"@[j]);
                }
                done = true;
            }
        }
    }
    let res = string_from(chars.as_slice(), pos);
    assert(res@ =~= s@.skip(pos as int));
    res
}

/// The name a compiled message source gets: its archive without the
/// leading `files/`, a slash, and its path.
pub open spec fn spec_source_friendly_path(archive: Seq<char>, path: Seq<char>) -> Seq<char> {
    spec_trim_files(archive) + seq!['/'] + path
}

/// The name a compiled message source gets.
pub fn consolidated_friendly_path(archive: &str, path: &str) -> (res: String)
    ensures
        res@ == spec_source_friendly_path(archive@, path@),
{
    let mut s = trim_files(archive);
    push_char(&mut s, '/');
    push_str(&mut s, path);
    s
}

/// The bytes a message file's JSON form compiles to.
pub open spec fn spec_compile_bmg_json(json: JsonModel, encoding: Seq<char>) -> Result<Seq<u8>, Seq<char>> {
    match spec_json_to_bmg(json, encoding) {
        Ok(b) => Ok(spec_bmg_bytes(b)),
        Err(e) => Err(e),
    }
}

/// Compiles a message file's JSON form to BMG bytes.
pub fn compile_bmg_json(json: &JsonValue, encoding: &str) -> (res: Result<Vec<u8>, String>)
    ensures
        match spec_compile_bmg_json(json@, encoding@) {
            Ok(b) => res matches Ok(v) && v@ == b,
            Err(e) => res matches Err(m) && m@ == e,
        },
{
    match json_to_bmg(json, encoding) {
        Ok(bmg) => bmg.to_bytes(),
        Err(e) => Err(e),
    }
}

/// The plain values of a modified file: friendly path, mod path, archive,
/// inner path.
pub open spec fn modified_view(m: ModifiedFile) -> (Seq<char>, Seq<char>, Option<Seq<char>>, Option<Seq<char>>) {
    (m.friendly_path@, m.mod_path@, opt_str_view(m.archive), opt_str_view(m.internal_path))
}

/// The plain values of a compiled file.
pub open spec fn compiled_file_view(c: CompiledFile) -> ((Seq<char>, Seq<char>, Option<Seq<char>>, Option<Seq<char>>), Seq<u8>) {
    (modified_view(c.mod_file), c.compiled_bytes@)
}

/// What the consolidated message file's modified sources compile to, in
/// the order they were found modified: each one the file still holds
/// becomes its BMG, renamed after its archive and path; the error is the
/// first source that does not compile.
pub open spec fn spec_compile_consolidated(
    modified: Seq<(Seq<char>, Seq<char>, Option<Seq<char>>, Option<Seq<char>>)>,
    individuals: Seq<(Seq<char>, Seq<char>, JsonModel, Seq<char>)>,
) -> Result<Seq<((Seq<char>, Seq<char>, Option<Seq<char>>, Option<Seq<char>>), Seq<u8>)>, Seq<char>>
    decreases modified.len(),
{
    if modified.len() == 0 {
        Ok(Seq::empty())
    } else {
        match spec_compile_consolidated(modified.drop_last(), individuals) {
            Err(e) => Err(e),
            Ok(done) => {
                let m = modified.last();
                if m.0 != spec_messages_path() || m.2 is None || m.3 is None {
                    Ok(done)
                } else {
                    let a = m.2->Some_0;
                    let p = m.3->Some_0;
                    match spec_individual_index(individuals, a, p) {
                        None => Ok(done),
                        Some(i) => match spec_compile_bmg_json(individuals[i as int].2, individuals[i as int].3) {
                            Err(e) => Err(e),
                            Ok(bytes) => Ok(done.push(((spec_source_friendly_path(a, p), m.1, m.2, m.3), bytes))),
                        },
                    }
                }
            },
        }
    }
}

/// The plain values of a list of modified files.
pub open spec fn modified_seq_view(v: Seq<ModifiedFile>) -> Seq<(Seq<char>, Seq<char>, Option<Seq<char>>, Option<Seq<char>>)> {
    v.map_values(|m: ModifiedFile| modified_view(m))
}

/// The plain values of a list of compiled files.
pub open spec fn compiled_files_view(v: Seq<CompiledFile>) -> Seq<((Seq<char>, Seq<char>, Option<Seq<char>>, Option<Seq<char>>), Seq<u8>)> {
    v.map_values(|c: CompiledFile| compiled_file_view(c))
}

fn copy_opt(o: &Option<String>) -> (res: Option<String>)
    ensures
        opt_str_view(res) == opt_str_view(*o),
{
    match o {
        Some(s) => Some(to_string(s.as_str())),
        None => None,
    }
}

proof fn lemma_consolidated_err_prefix(
    modified: Seq<(Seq<char>, Seq<char>, Option<Seq<char>>, Option<Seq<char>>)>,
    individuals: Seq<(Seq<char>, Seq<char>, JsonModel, Seq<char>)>,
    n: nat,
)
    requires
        n <= modified.len(),
        spec_compile_consolidated(modified.take(n as int), individuals) is Err,
    ensures
        spec_compile_consolidated(modified, individuals) == spec_compile_consolidated(modified.take(n as int), individuals),
    decreases modified.len() - n,
{
    if n < modified.len() {
        assert(modified.take(n as int + 1).drop_last() =~= modified.take(n as int));
        lemma_consolidated_err_prefix(modified, individuals, n + 1);
    } else {
        assert(modified.take(n as int) =~= modified);
    }
}

/// Compiles the modified sources of the consolidated message file.
pub fn compile_consolidated(modified: &[ModifiedFile], individuals: &Vec<IndividualBmg>) -> (res: Result<Vec<CompiledFile>, String>)
    ensures
        match spec_compile_consolidated(modified_seq_view(modified@), individuals_view(individuals@)) {
            Ok(v) => res matches Ok(r) && compiled_files_view(r@) == v,
            Err(e) => res matches Err(m) && m@ == e,
        },
{
    let ghost mv = modified_seq_view(modified@);
    let ghost iv = individuals_view(individuals@);
    let mut out: Vec<CompiledFile> = Vec::new();
    let mut k: usize = 0;
    assert(compiled_files_view(out@) =~= Seq::<((Seq<char>, Seq<char>, Option<Seq<char>>, Option<Seq<char>>), Seq<u8>)>::empty());
    proof {
        reveal_strlit("text/messages.json");
    }
    while k < modified.len()
        invariant
            k <= modified@.len(),
            mv == modified_seq_view(modified@),
            iv == individuals_view(individuals@),
            spec_compile_consolidated(mv.take(k as int), iv) == Ok::<Seq<((Seq<char>, Seq<char>, Option<Seq<char>>, Option<Seq<char>>), Seq<u8>)>, Seq<char>>(
                compiled_files_view(out@),
            ),
        decreases modified@.len() - k,
    {
        assert(mv.take(k + 1).drop_last() =~= mv.take(k as int));
        assert(mv.take(k + 1).last() == modified_view(modified@[k as int]));
        let m = &modified[k];
        if str_eq(m.friendly_path.as_str(), "text/messages.json") {
            match (&m.archive, &m.internal_path) {
                (Some(archive), Some(path)) => {
                    match find_individual(individuals, archive.as_str(), path.as_str()) {
                        Some(i) => {
                            proof {
                                lemma_individual_index_bound(iv, archive@, path@);
                            }
                            let ind = &individuals[i];
                            assert(iv[i as int] == (ind.archive@, ind.path@, ind.bmg_json@, ind.encoding@));
                            match compile_bmg_json(&ind.bmg_json, ind.encoding.as_str()) {
                                Ok(bytes) => {
                                    let f = ModifiedFile {
                                        friendly_path: consolidated_friendly_path(archive.as_str(), path.as_str()),
                                        mod_path: to_string(m.mod_path.as_str()),
                                        archive: copy_opt(&m.archive),
                                        internal_path: copy_opt(&m.internal_path),
                                    };
                                    let ghost before = compiled_files_view(out@);
                                    let c = CompiledFile { mod_file: f, compiled_bytes: bytes };
                                    let ghost cv = compiled_file_view(c);
                                    out.push(c);
                                    assert(compiled_files_view(out@) =~= before.push(cv));
                                },
                                Err(e) => {
                                    proof {
                                        lemma_consolidated_err_prefix(mv, iv, (k + 1) as nat);
                                    }
                                    return Err(e);
                                },
                            }
                        },
                        None => {},
                    }
                },
                _ => {},
            }
        }
        k = k + 1;
    }
    assert(mv.take(modified@.len() as int) =~= mv);
    Ok(out)
}

} // verus!
