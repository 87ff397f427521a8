//! Rebuilding the archives that hold modified files.
//!
//! An archive whose every file was modified is built anew from the
//! modifications alone; any other is parsed from the disc's copy, its
//! modified files get their new data, and it is written back. Either way
//! the result is Yaz0-compressed, as archives are stored on disc.

use vstd::prelude::*;
use crate::text::{push_char, push_str, str_eq, to_string};
use crate::utils::copy_range;
use crate::formats::compression::yaz0::spec_yaz0_compress;
use crate::formats::rarc::parser::{
    Rarc, RarcModel, FileEntryModel, spec_parse_rarc, spec_links_ok, spec_file_path,
};
use crate::formats::rarc::writer::{spec_rarc_bytes, spec_rarc_fits};
use crate::formats::rarc::builder::{
    RarcBuilder, spec_builder_with, spec_data_size,
};
use crate::formats::rarc::parser::{spec_path_parts, spec_dir_entry_of};
use crate::formats::rarc::roundtrip::{
    spec_same_shape, spec_read_shape, spec_rarc_storable, lemma_dir_entry_of_kinds, lemma_parsed_read_shape,
    lemma_rarc_reads_back,
};

verus! {

/// A modified file of an archive: its path inside the archive and its new
/// bytes.
pub struct Modification {
    pub path: String,
    pub data: Vec<u8>,
}

/// The plain values of a list of modifications.
pub open spec fn mods_view(m: Seq<Modification>) -> Seq<(Seq<char>, Seq<u8>)> {
    m.map_values(|x: Modification| (x.path@, x.data@))
}

/// Where the bytes of an archive to rebuild come from.
pub enum ArchiveInput {
    /// The archive's copy on the disc, with modifications to apply.
    FromIso { arc_iso_path: String, modifications: Vec<Modification>, arc_bytes: Vec<u8> },
    /// The modifications alone, which cover every file of the archive.
    FromModsOnly { arc_iso_path: String, modifications: Vec<Modification> },
}

/// A file of the build: its path and bytes.
pub struct BuildOutput {
    pub path: String,
    pub bytes: Vec<u8>,
}

/// The path inside the archive of an entry: under its parent node's path
/// where it has a parent, else its bare name.
pub open spec fn spec_entry_path(r: RarcModel, e: FileEntryModel) -> Seq<char> {
    match e.parent_node_index {
        Some(p) => spec_file_path(r, p as int, e.name),
        None => e.name,
    }
}

/// The path of every file entry; nothing for directory entries.
pub open spec fn spec_entry_paths(r: RarcModel) -> Seq<Option<Seq<char>>> {
    Seq::new(
        r.file_entries.len(),
        |i: int|
            if r.file_entries[i].is_dir {
                None
            } else {
                Some(spec_entry_path(r, r.file_entries[i]))
            },
    )
}

/// The plain values of a list of optional paths.
pub open spec fn opt_paths_view(v: Seq<Option<String>>) -> Seq<Option<Seq<char>>> {
    v.map_values(|x: Option<String>|
        match x {
            Some(s) => Some(s@),
            None => None,
        })
}

/// The path inside its archive of one file entry.
pub fn rarc_entry_path(rarc: &Rarc, idx: usize) -> (res: String)
    requires
        idx < rarc@.file_entries.len(),
        spec_links_ok(rarc@),
    ensures
        res@ == spec_entry_path(rarc@, rarc@.file_entries[idx as int]),
{
    let entry = &rarc.file_entries[idx];
    assert(entry@ == rarc@.file_entries[idx as int]);
    match entry.parent_node_index {
        Some(p) => {
            assert(rarc@.file_entries[idx as int].parent_node_index == Some(p));
            let np = rarc.node_path(p);
            if np.unicode_len() == 0 {
                to_string(entry.name.as_str())
            } else {
                let mut s = np;
                push_char(&mut s, '/');
                push_str(&mut s, entry.name.as_str());
                s
            }
        },
        None => to_string(entry.name.as_str()),
    }
}

/// The path inside the archive of each file entry; `None` for directory
/// entries.
pub fn map_entry_paths(rarc: &Rarc) -> (res: Vec<Option<String>>)
    requires
        spec_links_ok(rarc@),
    ensures
        opt_paths_view(res@) == spec_entry_paths(rarc@),
{
    let mut out: Vec<Option<String>> = Vec::new();
    let mut i: usize = 0;
    while i < rarc.file_entries.len()
        invariant
            i <= rarc@.file_entries.len(),
            spec_links_ok(rarc@),
            opt_paths_view(out@) == spec_entry_paths(rarc@).take(i as int),
        decreases rarc@.file_entries.len() - i,
    {
        assert(rarc.file_entries@[i as int]@ == rarc@.file_entries[i as int]);
        let ghost before = out@;
        if rarc.file_entries[i].is_dir {
            out.push(None);
            assert(opt_paths_view(out@) =~= opt_paths_view(before).push(None));
        } else {
            let p = rarc_entry_path(rarc, i);
            let ghost pv = p@;
            out.push(Some(p));
            assert(opt_paths_view(out@) =~= opt_paths_view(before).push(Some(pv)));
        }
        assert(opt_paths_view(out@) =~= spec_entry_paths(rarc@).take(i + 1));
        i = i + 1;
    }
    assert(spec_entry_paths(rarc@).take(rarc@.file_entries.len() as int) =~= spec_entry_paths(rarc@));
    out
}

/// The new bytes for a path: those of the first modification with that
/// path.
pub open spec fn spec_lookup(mods: Seq<(Seq<char>, Seq<u8>)>, path: Seq<char>) -> Option<Seq<u8>>
    decreases mods.len(),
{
    if mods.len() == 0 {
        None
    } else if mods[0].0 == path {
        Some(mods[0].1)
    } else {
        spec_lookup(mods.drop_first(), path)
    }
}

fn lookup(mods: &[Modification], path: &str) -> (res: Option<usize>)
    ensures
        match spec_lookup(mods_view(mods@), path@) {
            Some(d) => res matches Some(k) && k < mods@.len() && mods@[k as int].data@ == d,
            None => res is None,
        },
{
    let ghost mv = mods_view(mods@);
    assert(mv.skip(0) =~= mv);
    let mut k: usize = 0;
    while k < mods.len()
        invariant
            k <= mods@.len(),
            mv == mods_view(mods@),
            spec_lookup(mv, path@) == spec_lookup(mv.skip(k as int), path@),
        decreases mods@.len() - k,
    {
        assert(mv.skip(k as int).drop_first() =~= mv.skip(k + 1));
        if str_eq(mods[k].path.as_str(), path) {
            return Some(k);
        }
        k = k + 1;
    }
    None
}

/// An entry with new data.
pub open spec fn spec_with_data(e: FileEntryModel, d: Seq<u8>) -> FileEntryModel {
    FileEntryModel { data: Some(d), data_size: spec_data_size(d.len()), ..e }
}

/// The archive with each file entry whose path has a modification given
/// that modification's bytes.
pub open spec fn spec_apply_mods(r: RarcModel, paths: Seq<Option<Seq<char>>>, mods: Seq<(Seq<char>, Seq<u8>)>) -> RarcModel {
    RarcModel {
        nodes: r.nodes,
        file_entries: Seq::new(
            r.file_entries.len(),
            |i: int|
                {
                    let e = r.file_entries[i];
                    if !e.is_dir && 0 <= i < paths.len() && paths[i] is Some && spec_lookup(
                        mods,
                        paths[i]->Some_0,
                    ) is Some {
                        spec_with_data(e, spec_lookup(mods, paths[i]->Some_0)->Some_0)
                    } else {
                        e
                    }
                },
        ),
    }
}

/// Gives each file entry whose path has a modification that
/// modification's bytes.
pub fn apply_modifications_to_rarc(rarc: &mut Rarc, entry_paths: &[Option<String>], modifications: &[Modification])
    ensures
        final(rarc)@ == spec_apply_mods(old(rarc)@, opt_paths_view(entry_paths@), mods_view(modifications@)),
{
    let ghost r0 = rarc@;
    let ghost pv = opt_paths_view(entry_paths@);
    let ghost mv = mods_view(modifications@);
    let ghost target = spec_apply_mods(r0, pv, mv);
    let mut i: usize = 0;
    while i < rarc.file_entries.len()
        invariant
            i <= rarc@.file_entries.len(),
            rarc@.file_entries.len() == r0.file_entries.len(),
            rarc@.nodes == r0.nodes,
            pv == opt_paths_view(entry_paths@),
            mv == mods_view(modifications@),
            target == spec_apply_mods(r0, pv, mv),
            forall|j: int| 0 <= j < i ==> rarc@.file_entries[j] == target.file_entries[j],
            forall|j: int| i <= j < rarc@.file_entries.len() ==> rarc@.file_entries[j] == r0.file_entries[j],
        decreases rarc@.file_entries.len() - i,
    {
        assert(rarc.file_entries@[i as int]@ == rarc@.file_entries[i as int]);
        if !rarc.file_entries[i].is_dir && i < entry_paths.len() {
            match &entry_paths[i] {
                Some(path) => {
                    assert(pv[i as int] == Some(path@));
                    match lookup(modifications, path.as_str()) {
                        Some(k) => {
                            let d = copy_range(modifications[k].data.as_slice(), 0, modifications[k].data.len());
                            assert(d@ =~= modifications@[k as int].data@);
                            let size = crate::utils::low32(d.len());
                            let ghost before = rarc.file_entries@;
                            rarc.file_entries[i].data = Some(d);
                            rarc.file_entries[i].data_size = size;
                            proof {
                                assert(rarc@.file_entries[i as int] == target.file_entries[i as int]);
                                assert forall|j: int| 0 <= j < rarc@.file_entries.len() && j != i implies rarc@.file_entries[j] == before[j]@ by {
                                    assert(rarc.file_entries@[j] == before[j]);
                                }
                            }
                        },
                        None => {},
                    }
                },
                None => {},
            }
        }
        i = i + 1;
    }
    proof {
        assert(rarc@.file_entries =~= target.file_entries);
    }
}

/// The bytes of an archive built from modifications alone, or of nothing
/// where the archive would not fit in memory.
pub open spec fn spec_rebuild_from_mods(mods: Seq<(Seq<char>, Seq<u8>)>) -> Option<Seq<u8>> {
    let r = spec_builder_with(mods);
    if spec_rarc_fits(r) {
        Some(spec_yaz0_compress(spec_rarc_bytes(r)))
    } else {
        None
    }
}

/// The error for an archive too large to be written.
pub open spec fn spec_too_large(path: Seq<char>) -> Seq<char> {
    "Archive too large to write: "@ + path
}

/// Builds an archive holding the modified files, in the given order, in
/// its root directory, and compresses it.
pub fn rebuild_arc_from_modifications(modifications: &[Modification]) -> (res: Option<Vec<u8>>)
    requires
        modifications@.len() < 0xFFFD,
    ensures
        match spec_rebuild_from_mods(mods_view(modifications@)) {
            Some(b) => res matches Some(v) && v@ == b,
            None => res is None,
        },
{
    let ghost mv = mods_view(modifications@);
    let mut builder = RarcBuilder::new();
    let mut k: usize = 0;
    proof {
        assert(mv.take(0) =~= Seq::<(Seq<char>, Seq<u8>)>::empty());
    }
    while k < modifications.len()
        invariant
            k <= modifications@.len(),
            modifications@.len() < 0xFFFD,
            mv == mods_view(modifications@),
            builder@ == spec_builder_with(mv.take(k as int)),
            builder@.nodes.len() >= 1,
            builder@.nodes[0].num_files == k + 2,
        decreases modifications@.len() - k,
    {
        let name = to_string(modifications[k].path.as_str());
        let data = copy_range(modifications[k].data.as_slice(), 0, modifications[k].data.len());
        assert(data@ =~= modifications@[k as int].data@);
        builder = builder.add_file(name, data);
        proof {
            assert(mv.take(k + 1).drop_last() =~= mv.take(k as int));
            assert(mv.take(k + 1).last() == mv[k as int]);
        }
        k = k + 1;
    }
    assert(mv.take(modifications@.len() as int) =~= mv);
    let rarc = builder.build();
    if !rarc.fits() {
        return None;
    }
    match rarc.to_bytes_compressed() {
        Ok(v) => Some(v),
        Err(_) => None,
    }
}

/// The plain values of an archive input.
pub open spec fn spec_input_path(input: ArchiveInput) -> Seq<char> {
    match input {
        ArchiveInput::FromIso { arc_iso_path, .. } => arc_iso_path@,
        ArchiveInput::FromModsOnly { arc_iso_path, .. } => arc_iso_path@,
    }
}

/// The rebuilt bytes of one archive, or why it cannot be rebuilt.
pub open spec fn spec_assemble_one(input: ArchiveInput) -> Result<Seq<u8>, Seq<char>> {
    match input {
        ArchiveInput::FromModsOnly { arc_iso_path, modifications } => match spec_rebuild_from_mods(
            mods_view(modifications@),
        ) {
            Some(b) => Ok(b),
            None => Err(spec_too_large(arc_iso_path@)),
        },
        ArchiveInput::FromIso { arc_iso_path, modifications, arc_bytes } => match spec_parse_rarc(
            arc_bytes@,
        ) {
            None => Err("Failed to parse arc: "@ + arc_iso_path@),
            Some(r) => {
                let m = spec_apply_mods(r, spec_entry_paths(r), mods_view(modifications@));
                if spec_rarc_fits(m) {
                    Ok(spec_yaz0_compress(spec_rarc_bytes(m)))
                } else {
                    Err(spec_too_large(arc_iso_path@))
                }
            },
        },
    }
}

/// Whether every input built from modifications alone has few enough
/// files for an archive's root directory.
pub open spec fn spec_inputs_small(inputs: Seq<ArchiveInput>) -> bool {
    forall|i: int|
        0 <= i < inputs.len() ==> (#[trigger] inputs[i] matches ArchiveInput::FromModsOnly {
            modifications,
            ..
        } ==> modifications@.len() < 0xFFFD)
}

/// The plain values of a list of build outputs.
pub open spec fn outputs_view(v: Seq<BuildOutput>) -> Seq<(Seq<char>, Seq<u8>)> {
    v.map_values(|o: BuildOutput| (o.path@, o.bytes@))
}

/// The rebuilt archives, in input order, or the first input that cannot
/// be rebuilt.
pub open spec fn spec_assemble(inputs: Seq<ArchiveInput>) -> Result<Seq<(Seq<char>, Seq<u8>)>, Seq<char>>
    decreases inputs.len(),
{
    if inputs.len() == 0 {
        Ok(Seq::empty())
    } else {
        match spec_assemble(inputs.drop_last()) {
            Err(e) => Err(e),
            Ok(done) => match spec_assemble_one(inputs.last()) {
                Err(e) => Err(e),
                Ok(b) => Ok(done.push((spec_input_path(inputs.last()), b))),
            },
        }
    }
}

fn assemble_one(input: &ArchiveInput) -> (res: Result<Vec<u8>, String>)
    requires
        input matches ArchiveInput::FromModsOnly { modifications, .. } ==> modifications@.len()
            < 0xFFFD,
    ensures
        match spec_assemble_one(*input) {
            Ok(b) => res matches Ok(v) && v@ == b,
            Err(e) => res matches Err(m) && m@ == e,
        },
{
    match input {
        ArchiveInput::FromModsOnly { arc_iso_path, modifications } => {
            match rebuild_arc_from_modifications(modifications.as_slice()) {
                Some(v) => Ok(v),
                None => {
                    let mut m = to_string("Archive too large to write: ");
                    push_str(&mut m, arc_iso_path.as_str());
                    Err(m)
                },
            }
        },
        ArchiveInput::FromIso { arc_iso_path, modifications, arc_bytes } => {
            let bytes = copy_range(arc_bytes.as_slice(), 0, arc_bytes.len());
            assert(bytes@ =~= arc_bytes@);
            let mut rarc = match Rarc::parse(bytes) {
                Some(r) => r,
                None => {
                    let mut m = to_string("Failed to parse arc: ");
                    push_str(&mut m, arc_iso_path.as_str());
                    return Err(m);
                },
            };
            let paths = map_entry_paths(&rarc);
            apply_modifications_to_rarc(&mut rarc, paths.as_slice(), modifications.as_slice());
            if !rarc.fits() {
                let mut m = to_string("Archive too large to write: ");
                push_str(&mut m, arc_iso_path.as_str());
                return Err(m);
            }
            match rarc.to_bytes_compressed() {
                Ok(v) => Ok(v),
                Err(e) => Err(e),
            }
        },
    }
}

/// Rebuilds each archive, in order.
pub fn assemble_archives(inputs: &[ArchiveInput]) -> (res: Result<Vec<BuildOutput>, String>)
    requires
        spec_inputs_small(inputs@),
    ensures
        match spec_assemble(inputs@) {
            Ok(outs) => res matches Ok(v) && outputs_view(v@) == outs,
            Err(e) => res matches Err(m) && m@ == e,
        },
{
    let mut built: Vec<BuildOutput> = Vec::new();
    let mut k: usize = 0;
    proof {
        assert(inputs@.take(0) =~= Seq::<ArchiveInput>::empty());
        assert(outputs_view(built@) =~= Seq::<(Seq<char>, Seq<u8>)>::empty());
    }
    while k < inputs.len()
        invariant
            k <= inputs@.len(),
            spec_inputs_small(inputs@),
            spec_assemble(inputs@.take(k as int)) == Ok::<Seq<(Seq<char>, Seq<u8>)>, Seq<char>>(
                outputs_view(built@),
            ),
        decreases inputs@.len() - k,
    {
        let input = &inputs[k];
        proof {
            assert(inputs@.take(k + 1).drop_last() =~= inputs@.take(k as int));
            assert(inputs@.take(k + 1).last() == inputs@[k as int]);
            assert(input matches ArchiveInput::FromModsOnly { modifications, .. } ==> modifications@.len() < 0xFFFD);
        }
        match assemble_one(input) {
            Ok(bytes) => {
                let path = match input {
                    ArchiveInput::FromIso { arc_iso_path, .. } => to_string(arc_iso_path.as_str()),
                    ArchiveInput::FromModsOnly { arc_iso_path, .. } => to_string(arc_iso_path.as_str()),
                };
                let ghost before = built@;
                built.push(BuildOutput { path, bytes });
                assert(outputs_view(built@) =~= outputs_view(before).push((spec_input_path(*input), built@.last().bytes@)));
            },
            Err(e) => {
                proof {
                    lemma_assemble_err_prefix(inputs@, (k + 1) as nat);
                }
                return Err(e);
            },
        }
        k = k + 1;
    }
    assert(inputs@.take(inputs@.len() as int) =~= inputs@);
    Ok(built)
}

proof fn lemma_assemble_err_prefix(inputs: Seq<ArchiveInput>, n: nat)
    requires
        n <= inputs.len(),
        spec_assemble(inputs.take(n as int)) is Err,
    ensures
        spec_assemble(inputs) == spec_assemble(inputs.take(n as int)),
    decreases inputs.len() - n,
{
    if n < inputs.len() {
        assert(inputs.take(n as int + 1).drop_last() =~= inputs.take(n as int));
        lemma_assemble_err_prefix(inputs, n + 1);
    } else {
        assert(inputs.take(n as int) =~= inputs);
    }
}

/// The parts of a path reach the same names in archives of the same
/// skeleton.
proof fn lemma_same_path_parts(a: RarcModel, b: RarcModel, curr: int, steps: nat)
    requires
        spec_same_shape(a, b),
        spec_links_ok(a),
        0 <= curr < a.nodes.len(),
    ensures
        spec_path_parts(a, curr, steps) == spec_path_parts(b, curr, steps),
    decreases steps,
{
    assert(a.nodes[curr].dir_entry_index == b.nodes[curr].dir_entry_index);
    if let Some(d) = a.nodes[curr].dir_entry_index {
        assert(d < a.file_entries.len());
        let e = a.file_entries[d as int];
        assert(e.name == b.file_entries[d as int].name);
        assert(e.parent_node_index == b.file_entries[d as int].parent_node_index);
        if let Some(p) = e.parent_node_index {
            if !(p as int == curr || p == 0 || steps == 0) {
                lemma_same_path_parts(a, b, p as int, (steps - 1) as nat);
            }
        }
    }
}

/// Archives of the same skeleton give their files the same paths.
pub proof fn lemma_same_shape_paths(a: RarcModel, b: RarcModel)
    requires
        spec_same_shape(a, b),
        spec_links_ok(a),
    ensures
        spec_entry_paths(a) == spec_entry_paths(b),
{
    assert forall|i: int| 0 <= i < a.file_entries.len() implies spec_entry_paths(a)[i] == spec_entry_paths(b)[i] by {
        let e = a.file_entries[i];
        let f = b.file_entries[i];
        assert(e.name == f.name && e.is_dir == f.is_dir && e.parent_node_index == f.parent_node_index);
        if let Some(p) = e.parent_node_index {
            assert(p < a.nodes.len());
            if p != 0 {
                lemma_same_path_parts(a, b, p as int, a.nodes.len());
            }
        }
    }
    assert(spec_entry_paths(a) =~= spec_entry_paths(b));
}

/// Giving files new data keeps the archive's skeleton and the reader's
/// shape.
proof fn lemma_apply_mods_shape(r: RarcModel, mods: Seq<(Seq<char>, Seq<u8>)>)
    requires
        spec_read_shape(r),
        spec_links_ok(r),
    ensures
        spec_same_shape(spec_apply_mods(r, spec_entry_paths(r), mods), r),
        spec_read_shape(spec_apply_mods(r, spec_entry_paths(r), mods)),
        spec_links_ok(spec_apply_mods(r, spec_entry_paths(r), mods)),
{
    let m = spec_apply_mods(r, spec_entry_paths(r), mods);
    assert(spec_same_shape(m, r));
    assert forall|j: int| 0 <= j < m.nodes.len() implies (#[trigger] m.nodes[j]).dir_entry_index
        == spec_dir_entry_of(m.file_entries, j, m.nodes.len()) by {
        lemma_dir_entry_of_kinds(m.file_entries, r.file_entries, j, r.nodes.len());
    }
}

/// What each file of an archive taken from the disc holds once rebuilt:
/// the same entries in the same order under the same paths, each file
/// with the bytes of the first modification for its path, or else its own.
pub open spec fn spec_passes_through(r: RarcModel, mods: Seq<(Seq<char>, Seq<u8>)>, r2: RarcModel) -> bool {
    &&& r2.file_entries.len() == r.file_entries.len()
    &&& spec_entry_paths(r2) == spec_entry_paths(r)
    &&& forall|i: int|
        0 <= i < r.file_entries.len() ==> {
            &&& (#[trigger] r2.file_entries[i]).name == r.file_entries[i].name
            &&& r2.file_entries[i].is_dir == r.file_entries[i].is_dir
            &&& !r.file_entries[i].is_dir ==> r2.file_entries[i].data == match spec_lookup(
                mods,
                spec_entry_paths(r)[i]->Some_0,
            ) {
                Some(d) => Some(d),
                None => r.file_entries[i].data,
            }
        }
}

/// Whether an input is an archive taken from the disc whose rebuilt form
/// fits in memory and the writer can store.
pub open spec fn spec_iso_input_storable(input: ArchiveInput) -> bool {
    match input {
        ArchiveInput::FromIso { modifications, arc_bytes, .. } => match spec_parse_rarc(arc_bytes@) {
            Some(r) => {
                let m = spec_apply_mods(r, spec_entry_paths(r), mods_view(modifications@));
                spec_rarc_fits(m) && spec_rarc_storable(m)
            },
            None => false,
        },
        ArchiveInput::FromModsOnly { .. } => false,
    }
}

/// Law: an archive taken from the disc is rebuilt, and reads back with the
/// same entries, in the same order, under the same paths; each file whose
/// path has a modification holds that modification's bytes, and every
/// other file passes through with its bytes on the disc. For every
/// rebuilt archive that fits in memory and that the writer can store.
#[verifier::rlimit(40)]
pub proof fn lemma_unchanged_files_pass_through(input: ArchiveInput)
    requires
        spec_iso_input_storable(input),
    ensures
        match input {
            ArchiveInput::FromIso { modifications, arc_bytes, .. } => match spec_parse_rarc(arc_bytes@) {
                Some(r) => spec_assemble_one(input) matches Ok(out) && spec_parse_rarc(out) matches Some(r2)
                    && spec_passes_through(r, mods_view(modifications@), r2),
                None => true,
            },
            ArchiveInput::FromModsOnly { .. } => true,
        },
{
    if let ArchiveInput::FromIso { modifications, arc_bytes, .. } = input {
        let r = spec_parse_rarc(arc_bytes@)->Some_0;
        let mods = mods_view(modifications@);
        let paths = spec_entry_paths(r);
        let m = spec_apply_mods(r, paths, mods);
        lemma_parsed_read_shape(arc_bytes@);
        lemma_apply_mods_shape(r, mods);
        lemma_rarc_reads_back(m);
        let r2 = spec_parse_rarc(spec_yaz0_compress(spec_rarc_bytes(m)))->Some_0;
        lemma_same_shape_paths(r2, m);
        lemma_same_shape_paths(m, r);
        assert forall|i: int| 0 <= i < r.file_entries.len() implies {
            &&& (#[trigger] r2.file_entries[i]).name == r.file_entries[i].name
            &&& r2.file_entries[i].is_dir == r.file_entries[i].is_dir
            &&& !r.file_entries[i].is_dir ==> r2.file_entries[i].data == match spec_lookup(mods, paths[i]->Some_0) {
                Some(d) => Some(d),
                None => r.file_entries[i].data,
            }
        } by {
            assert(m.file_entries[i].name == r.file_entries[i].name);
            if !r.file_entries[i].is_dir {
                assert(r2.file_entries[i].data == m.file_entries[i].data);
            }
        }
    }
}

} // verus!
