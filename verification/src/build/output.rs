//! The files a build writes, and the replacements it makes on the disc.

use vstd::prelude::*;
use crate::text::to_string;
use crate::utils::copy_range;
use crate::build::archive_plan::CompiledFile;
use crate::build::assemble::{BuildOutput, outputs_view};
use crate::build::compile::{spec_ends_with, ends_with};

verus! {

fn copy_bytes(v: &Vec<u8>) -> (res: Vec<u8>)
    ensures
        res@ == v@,
{
    let r = copy_range(v.as_slice(), 0, v.len());
    assert(r@ =~= v@);
    r
}

/// The outputs of compiled files that live outside archives: each under
/// its friendly path.
pub fn collect_direct_outputs(compiled: &[CompiledFile]) -> (res: Vec<BuildOutput>)
    ensures
        outputs_view(res@) == compiled@.map_values(|c: CompiledFile| (c.mod_file.friendly_path@, c.compiled_bytes@)),
{
    let ghost target = compiled@.map_values(|c: CompiledFile| (c.mod_file.friendly_path@, c.compiled_bytes@));
    let mut out: Vec<BuildOutput> = Vec::new();
    let mut i: usize = 0;
    while i < compiled.len()
        invariant
            i <= compiled@.len(),
            target == compiled@.map_values(|c: CompiledFile| (c.mod_file.friendly_path@, c.compiled_bytes@)),
            outputs_view(out@) == target.take(i as int),
        decreases compiled@.len() - i,
    {
        let c = &compiled[i];
        let o = BuildOutput { path: to_string(c.mod_file.friendly_path.as_str()), bytes: copy_bytes(&c.compiled_bytes) };
        let ghost before = outputs_view(out@);
        let ghost ov = (o.path@, o.bytes@);
        out.push(o);
        assert(outputs_view(out@) =~= before.push(ov));
        assert(target.take(i + 1) =~= target.take(i as int).push(target[i as int]));
        i = i + 1;
    }
    assert(target.take(compiled@.len() as int) =~= target);
    out
}

/// The compiled files whose archive is or is not set (as `in_archive`
/// says), in order.
pub open spec fn spec_split(v: Seq<CompiledFile>, in_archive: bool) -> Seq<CompiledFile>
    decreases v.len(),
{
    if v.len() == 0 {
        Seq::empty()
    } else {
        let prev = spec_split(v.drop_last(), in_archive);
        if (v.last().mod_file.archive is Some) == in_archive {
            prev.push(v.last())
        } else {
            prev
        }
    }
}

/// Splits compiled files into those outside archives and those inside,
/// each keeping its order.
pub fn partition_compiled(compiled: Vec<CompiledFile>) -> (res: (Vec<CompiledFile>, Vec<CompiledFile>))
    ensures
        res.0@ == spec_split(compiled@, false),
        res.1@ == spec_split(compiled@, true),
{
    let ghost all = compiled@;
    let mut rest = compiled;
    let mut direct: Vec<CompiledFile> = Vec::new();
    let mut archived: Vec<CompiledFile> = Vec::new();
    let ghost mut taken: nat = 0;
    assert(rest@ =~= all.skip(0));
    assert(spec_split(all.take(0), false) =~= Seq::<CompiledFile>::empty());
    assert(spec_split(all.take(0), true) =~= Seq::<CompiledFile>::empty());
    while rest.len() > 0
        invariant
            taken <= all.len(),
            rest@ == all.skip(taken as int),
            direct@ == spec_split(all.take(taken as int), false),
            archived@ == spec_split(all.take(taken as int), true),
        decreases rest@.len(),
    {
        let ghost r0 = rest@;
        let c = rest.remove(0);
        proof {
            assert(r0[0] == all[taken as int]);
            assert(all.take(taken as int + 1).drop_last() =~= all.take(taken as int));
            assert(all.take(taken as int + 1).last() == c);
            assert(rest@ =~= all.skip(taken as int + 1));
        }
        if c.mod_file.archive.is_none() {
            direct.push(c);
        } else {
            archived.push(c);
        }
        proof {
            taken = taken + 1;
        }
    }
    assert(all.take(all.len() as int) =~= all);
    (direct, archived)
}

/// The first output with path `path`.
pub open spec fn spec_output_index(v: Seq<(Seq<char>, Seq<u8>)>, path: Seq<char>) -> Option<nat>
    decreases v.len(),
{
    if v.len() == 0 {
        None
    } else {
        match spec_output_index(v.drop_last(), path) {
            Some(i) => Some(i),
            None => if v.last().0 == path {
                Some((v.len() - 1) as nat)
            } else {
                None
            },
        }
    }
}

/// The replacements a list of outputs makes: one per path, in order of
/// first appearance, a later output replacing the bytes of an earlier one
/// with the same path.
pub open spec fn spec_replacements(v: Seq<(Seq<char>, Seq<u8>)>) -> Seq<(Seq<char>, Seq<u8>)>
    decreases v.len(),
{
    if v.len() == 0 {
        Seq::empty()
    } else {
        let prev = spec_replacements(v.drop_last());
        match spec_output_index(prev, v.last().0) {
            Some(i) => prev.update(i as int, v.last()),
            None => prev.push(v.last()),
        }
    }
}

proof fn lemma_output_index_prefix(v: Seq<(Seq<char>, Seq<u8>)>, path: Seq<char>, n: nat)
    requires
        n <= v.len(),
        spec_output_index(v.take(n as int), path) is Some,
    ensures
        spec_output_index(v, path) == spec_output_index(v.take(n as int), path),
    decreases v.len() - n,
{
    if n < v.len() {
        assert(v.take(n as int + 1).drop_last() =~= v.take(n as int));
        lemma_output_index_prefix(v, path, n + 1);
    } else {
        assert(v.take(n as int) =~= v);
    }
}

proof fn lemma_output_index_bound(v: Seq<(Seq<char>, Seq<u8>)>, path: Seq<char>)
    ensures
        spec_output_index(v, path) matches Some(i) ==> i < v.len(),
    decreases v.len(),
{
    if v.len() > 0 {
        lemma_output_index_bound(v.drop_last(), path);
    }
}

fn output_index(v: &Vec<BuildOutput>, path: &str) -> (res: Option<usize>)
    ensures
        match spec_output_index(outputs_view(v@), path@) {
            Some(i) => res matches Some(k) && k as nat == i,
            None => res is None,
        },
{
    let ghost ov = outputs_view(v@);
    let mut i: usize = 0;
    while i < v.len()
        invariant
            i <= v@.len(),
            ov == outputs_view(v@),
            spec_output_index(ov.take(i as int), path@) is None,
        decreases v@.len() - i,
    {
        assert(ov.take(i + 1).drop_last() =~= ov.take(i as int));
        assert(ov.take(i + 1).last() == ov[i as int]);
        if crate::text::str_eq(v[i].path.as_str(), path) {
            proof {
                lemma_output_index_prefix(ov, path@, (i + 1) as nat);
            }
            return Some(i);
        }
        i = i + 1;
    }
    assert(ov.take(v@.len() as int) =~= ov);
    None
}

/// The replacements a list of outputs makes on the disc.
pub fn replacements_of(outputs: &[BuildOutput]) -> (res: Vec<BuildOutput>)
    ensures
        outputs_view(res@) == spec_replacements(outputs_view(outputs@)),
{
    let ghost ov = outputs_view(outputs@);
    let mut out: Vec<BuildOutput> = Vec::new();
    let mut i: usize = 0;
    assert(outputs_view(out@) =~= spec_replacements(ov.take(0)));
    while i < outputs.len()
        invariant
            i <= outputs@.len(),
            ov == outputs_view(outputs@),
            outputs_view(out@) == spec_replacements(ov.take(i as int)),
        decreases outputs@.len() - i,
    {
        assert(ov.take(i + 1).drop_last() =~= ov.take(i as int));
        assert(ov.take(i + 1).last() == ov[i as int]);
        let o = &outputs[i];
        let item = BuildOutput { path: to_string(o.path.as_str()), bytes: copy_bytes(&o.bytes) };
        let ghost iv = (item.path@, item.bytes@);
        let ghost before = outputs_view(out@);
        proof {
            lemma_output_index_bound(before, o.path@);
        }
        match output_index(&out, o.path.as_str()) {
            Some(k) => {
                out.set(k, item);
                assert(outputs_view(out@) =~= before.update(k as int, iv));
            },
            None => {
                out.push(item);
                assert(outputs_view(out@) =~= before.push(iv));
            },
        }
        i = i + 1;
    }
    assert(ov.take(outputs@.len() as int) =~= ov);
    out
}

/// The paths of the outputs that are archives, in order.
pub open spec fn spec_archive_paths(v: Seq<(Seq<char>, Seq<u8>)>) -> Seq<Seq<char>>
    decreases v.len(),
{
    if v.len() == 0 {
        Seq::empty()
    } else {
        let prev = spec_archive_paths(v.drop_last());
        if spec_ends_with(v.last().0, ".arc"@) {
            prev.push(v.last().0)
        } else {
            prev
        }
    }
}

/// The paths of the outputs that are archives.
pub fn archive_output_paths(outputs: &[BuildOutput]) -> (res: Vec<String>)
    ensures
        res@.map_values(|s: String| s@) == spec_archive_paths(outputs_view(outputs@)),
{
    let ghost ov = outputs_view(outputs@);
    let mut out: Vec<String> = Vec::new();
    let mut i: usize = 0;
    assert(out@.map_values(|s: String| s@) =~= spec_archive_paths(ov.take(0)));
    while i < outputs.len()
        invariant
            i <= outputs@.len(),
            ov == outputs_view(outputs@),
            out@.map_values(|s: String| s@) == spec_archive_paths(ov.take(i as int)),
        decreases outputs@.len() - i,
    {
        assert(ov.take(i + 1).drop_last() =~= ov.take(i as int));
        assert(ov.take(i + 1).last() == ov[i as int]);
        let ghost before = out@.map_values(|s: String| s@);
        if ends_with(outputs[i].path.as_str(), ".arc") {
            let p = to_string(outputs[i].path.as_str());
            let ghost pv = p@;
            out.push(p);
            assert(out@.map_values(|s: String| s@) =~= before.push(pv));
        }
        i = i + 1;
    }
    assert(ov.take(outputs@.len() as int) =~= ov);
    out
}

} // verus!
