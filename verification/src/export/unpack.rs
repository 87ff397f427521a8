//! Unpacking archives, nested ones included, into a flat list of files.
//!
//! Every archive that parses is registered, a nested one under the path of
//! the archive holding it, a slash and its path inside. Each file that is
//! not itself an archive is listed with the disc archive it comes from and
//! its path below that archive, through any nested archives. Bytes that do
//! not parse as an archive are passed over.

use vstd::prelude::*;
use crate::text::{push_char, push_str, to_string};
use crate::utils::copy_range;
use crate::build::compile::{ends_with, spec_ends_with};
use crate::build::assemble::{rarc_entry_path, spec_entry_path};
use crate::formats::rarc::parser::{Rarc, RarcModel, spec_parse_rarc, spec_links_ok};

verus! {

/// How deep archives may nest inside one another.
pub const MAX_ARC_NESTING: usize = 32;

/// A file found inside a disc archive: the disc archive, the file's path
/// below it and its bytes.
pub struct ArcEntry {
    pub top_level_arc: String,
    pub internal_path: String,
    pub data: Vec<u8>,
}

/// The plain values of a list of found files.
pub open spec fn arc_entries_view(v: Seq<ArcEntry>) -> Seq<(Seq<char>, Seq<char>, Seq<u8>)> {
    v.map_values(|e: ArcEntry| (e.top_level_arc@, e.internal_path@, e.data@))
}

/// The plain values of a list of strings.
pub open spec fn strings_view(v: Seq<String>) -> Seq<Seq<char>> {
    v.map_values(|s: String| s@)
}

/// `path` below `prefix`: joined by a slash, or alone where the prefix is
/// empty.
pub open spec fn spec_join(prefix: Seq<char>, path: Seq<char>) -> Seq<char> {
    if prefix.len() == 0 {
        path
    } else {
        prefix + seq!['/'] + path
    }
}

/// What unpacks from an archive: the archives registered and the files
/// found, in order; or the path of a nested archive that lies deeper than
/// `depth` allows. Bytes that do not parse give nothing.
pub open spec fn spec_unpack(
    top: Seq<char>,
    current: Seq<char>,
    prefix: Seq<char>,
    bytes: Seq<u8>,
    depth: nat,
) -> Result<(Seq<Seq<char>>, Seq<(Seq<char>, Seq<char>, Seq<u8>)>), Seq<char>>
    decreases depth, 2nat, 0nat,
{
    match spec_parse_rarc(bytes) {
        None => Ok((Seq::empty(), Seq::empty())),
        Some(r) => spec_registered(current, spec_unpack_entries(top, current, prefix, r, r.file_entries.len(), depth)),
    }
}

/// What unpacks from the entries of an archive, with the archive itself
/// registered first.
pub open spec fn spec_registered(
    current: Seq<char>,
    inner: Result<(Seq<Seq<char>>, Seq<(Seq<char>, Seq<char>, Seq<u8>)>), Seq<char>>,
) -> Result<(Seq<Seq<char>>, Seq<(Seq<char>, Seq<char>, Seq<u8>)>), Seq<char>> {
    match inner {
        Ok((arcs, files)) => Ok((seq![current] + arcs, files)),
        Err(p) => Err(p),
    }
}

/// What unpacks from the first `k` entries of a parsed archive.
pub open spec fn spec_unpack_entries(
    top: Seq<char>,
    current: Seq<char>,
    prefix: Seq<char>,
    r: RarcModel,
    k: nat,
    depth: nat,
) -> Result<(Seq<Seq<char>>, Seq<(Seq<char>, Seq<char>, Seq<u8>)>), Seq<char>>
    decreases depth, 1nat, k,
{
    if k == 0 {
        Ok((Seq::empty(), Seq::empty()))
    } else {
        match spec_unpack_entries(top, current, prefix, r, (k - 1) as nat, depth) {
            Err(p) => Err(p),
            Ok((arcs, files)) => match spec_unpack_entry(top, current, prefix, r, (k - 1) as nat, depth) {
                Err(p) => Err(p),
                Ok((a2, f2)) => Ok((arcs + a2, files + f2)),
            },
        }
    }
}

/// What unpacks from entry `k` of a parsed archive: nothing from a
/// directory or an entry without data, the archive it holds where its
/// path ends in `.arc`, else the file itself.
pub open spec fn spec_unpack_entry(
    top: Seq<char>,
    current: Seq<char>,
    prefix: Seq<char>,
    r: RarcModel,
    k: nat,
    depth: nat,
) -> Result<(Seq<Seq<char>>, Seq<(Seq<char>, Seq<char>, Seq<u8>)>), Seq<char>>
    decreases depth, 0nat, 0nat,
{
    let e = r.file_entries[k as int];
    if e.is_dir || e.data is None {
        Ok((Seq::empty(), Seq::empty()))
    } else {
        let internal = spec_entry_path(r, e);
        let full = spec_join(prefix, internal);
        if spec_ends_with(internal, ".arc"@) {
            let nested = current + seq!['/'] + internal;
            if depth == 0 {
                Err(nested)
            } else {
                spec_unpack(top, nested, full, e.data->0, (depth - 1) as nat)
            }
        } else {
            Ok((Seq::empty(), seq![(top, full, e.data->0)]))
        }
    }
}

fn join_path(prefix: &str, path: &str) -> (res: String)
    ensures
        res@ == spec_join(prefix@, path@),
{
    if prefix.unicode_len() == 0 {
        to_string(path)
    } else {
        let mut s = to_string(prefix);
        push_char(&mut s, '/');
        push_str(&mut s, path);
        s
    }
}

proof fn lemma_unpack_err_prefix(
    top: Seq<char>,
    current: Seq<char>,
    prefix: Seq<char>,
    r: RarcModel,
    k: nat,
    n: nat,
    depth: nat,
)
    requires
        k <= n,
        spec_unpack_entries(top, current, prefix, r, k, depth) is Err,
    ensures
        spec_unpack_entries(top, current, prefix, r, n, depth) == spec_unpack_entries(top, current, prefix, r, k, depth),
    decreases n,
{
    if n > k {
        lemma_unpack_err_prefix(top, current, prefix, r, k, (n - 1) as nat, depth);
    }
}

fn unpack_within(
    top: &str,
    current: &str,
    prefix: &str,
    bytes: &[u8],
    depth: usize,
    arcs: &mut Vec<String>,
    entries: &mut Vec<ArcEntry>,
) -> (res: Result<(), String>)
    ensures
        match spec_unpack(top@, current@, prefix@, bytes@, depth as nat) {
            Ok((a, f)) => res is Ok && strings_view(final(arcs)@) == strings_view(old(arcs)@) + a
                && arc_entries_view(final(entries)@) == arc_entries_view(old(entries)@) + f,
            Err(p) => res matches Err(m) && m@ == "Archive nesting too deep: "@ + p,
        },
    decreases depth, 2nat,
{
    let rarc = match Rarc::parse(copy_range(bytes, 0, bytes.len())) {
        Some(r) => r,
        None => {
            proof {
                assert(bytes@.subrange(0, bytes@.len() as int) =~= bytes@);
                assert(strings_view(arcs@) =~= strings_view(old(arcs)@) + Seq::<Seq<char>>::empty());
                assert(arc_entries_view(entries@) =~= arc_entries_view(old(entries)@)
                    + Seq::<(Seq<char>, Seq<char>, Seq<u8>)>::empty());
            }
            return Ok(());
        },
    };
    proof {
        assert(bytes@.subrange(0, bytes@.len() as int) =~= bytes@);
    }
    let ghost r = rarc@;
    let ghost arcs0 = strings_view(arcs@);
    let ghost entries0 = arc_entries_view(entries@);
    arcs.push(to_string(current));
    proof {
        assert(strings_view(arcs@) =~= arcs0 + seq![current@]);
    }
    let ghost base_arcs = arcs0 + seq![current@];
    let n = rarc.file_entries.len();
    let mut k: usize = 0;
    let ghost mut ga: Seq<Seq<char>> = Seq::empty();
    let ghost mut gf: Seq<(Seq<char>, Seq<char>, Seq<u8>)> = Seq::empty();
    proof {
        assert(base_arcs + ga =~= base_arcs);
        assert(entries0 + gf =~= entries0);
    }
    while k < n
        invariant
            k <= n,
            n == rarc@.file_entries.len(),
            r == rarc@,
            spec_links_ok(r),
            spec_unpack(top@, current@, prefix@, bytes@, depth as nat) == spec_registered(
                current@,
                spec_unpack_entries(top@, current@, prefix@, r, n as nat, depth as nat),
            ),
            base_arcs == strings_view(old(arcs)@) + seq![current@],
            entries0 == arc_entries_view(old(entries)@),
            spec_unpack_entries(top@, current@, prefix@, r, k as nat, depth as nat) == Ok::<
                (Seq<Seq<char>>, Seq<(Seq<char>, Seq<char>, Seq<u8>)>),
                Seq<char>,
            >((ga, gf)),
            strings_view(arcs@) == base_arcs + ga,
            arc_entries_view(entries@) == entries0 + gf,
        decreases n - k,
    {
        let ghost arcs_before = strings_view(arcs@);
        let ghost entries_before = arc_entries_view(entries@);
        match unpack_entry(top, current, prefix, &rarc, k, depth, arcs, entries) {
            Ok(()) => {
                proof {
                    let (a2, f2) = spec_unpack_entry(top@, current@, prefix@, r, k as nat, depth as nat)->Ok_0;
                    assert(strings_view(arcs@) =~= base_arcs + (ga + a2));
                    assert(arc_entries_view(entries@) =~= entries0 + (gf + f2));
                    ga = ga + a2;
                    gf = gf + f2;
                }
            },
            Err(m) => {
                proof {
                    lemma_unpack_err_prefix(top@, current@, prefix@, r, (k + 1) as nat, n as nat, depth as nat);
                }
                return Err(m);
            },
        }
        k = k + 1;
    }
    Ok(())
}

fn unpack_entry(
    top: &str,
    current: &str,
    prefix: &str,
    rarc: &Rarc,
    k: usize,
    depth: usize,
    arcs: &mut Vec<String>,
    entries: &mut Vec<ArcEntry>,
) -> (res: Result<(), String>)
    requires
        k < rarc@.file_entries.len(),
        spec_links_ok(rarc@),
    ensures
        match spec_unpack_entry(top@, current@, prefix@, rarc@, k as nat, depth as nat) {
            Ok((a, f)) => res is Ok && strings_view(final(arcs)@) == strings_view(old(arcs)@) + a
                && arc_entries_view(final(entries)@) == arc_entries_view(old(entries)@) + f,
            Err(p) => res matches Err(m) && m@ == "Archive nesting too deep: "@ + p,
        },
    decreases depth, 1nat,
{
    let entry = &rarc.file_entries[k];
    assert(entry@ == rarc@.file_entries[k as int]);
    if entry.is_dir {
        proof {
            assert(strings_view(arcs@) =~= strings_view(old(arcs)@) + Seq::<Seq<char>>::empty());
            assert(arc_entries_view(entries@) =~= arc_entries_view(old(entries)@)
                + Seq::<(Seq<char>, Seq<char>, Seq<u8>)>::empty());
        }
        return Ok(());
    }
    let data = match &entry.data {
        Some(d) => d,
        None => {
            proof {
                assert(strings_view(arcs@) =~= strings_view(old(arcs)@) + Seq::<Seq<char>>::empty());
                assert(arc_entries_view(entries@) =~= arc_entries_view(old(entries)@)
                    + Seq::<(Seq<char>, Seq<char>, Seq<u8>)>::empty());
            }
            return Ok(());
        },
    };
    let internal = rarc_entry_path(rarc, k);
    let full = join_path(prefix, internal.as_str());
    proof {
        let e = rarc@.file_entries[k as int];
        assert(!e.is_dir);
        assert(e.data == Some(data@));
        assert(internal@ == spec_entry_path(rarc@, e));
    }
    if ends_with(internal.as_str(), ".arc") {
        let mut nested = to_string(current);
        push_char(&mut nested, '/');
        push_str(&mut nested, internal.as_str());
        assert(nested@ == current@ + seq!['/'] + internal@);
        if depth == 0 {
            let mut m = to_string("Archive nesting too deep: ");
            push_str(&mut m, nested.as_str());
            return Err(m);
        }
        unpack_within(top, nested.as_str(), full.as_str(), data.as_slice(), depth - 1, arcs, entries)
    } else {
        let e = ArcEntry {
            top_level_arc: to_string(top),
            internal_path: full,
            data: copy_range(data.as_slice(), 0, data.len()),
        };
        proof {
            assert(data@.subrange(0, data@.len() as int) =~= data@);
        }
        let ghost ev = (e.top_level_arc@, e.internal_path@, e.data@);
        let ghost before = entries@;
        entries.push(e);
        proof {
            assert(entries@ == before.push(e));
            assert(arc_entries_view(entries@) =~= arc_entries_view(old(entries)@) + seq![ev]);
            assert(strings_view(arcs@) =~= strings_view(old(arcs)@) + Seq::<Seq<char>>::empty());
        }
        Ok(())
    }
}

/// Unpacks the archive `current` (whose bytes are `bytes`) of the disc
/// archive `top`: registers it and every archive nested in it in `arcs`,
/// and lists every other file in `entries`, its path below `prefix`.
/// Bytes that do not parse as an archive add nothing. Archives nested
/// deeper than `MAX_ARC_NESTING` levels are refused.
pub fn unpack_arc(
    top: &str,
    current: &str,
    prefix: &str,
    bytes: &[u8],
    arcs: &mut Vec<String>,
    entries: &mut Vec<ArcEntry>,
) -> (res: Result<(), String>)
    ensures
        match spec_unpack(top@, current@, prefix@, bytes@, MAX_ARC_NESTING as nat) {
            Ok((a, f)) => res is Ok && strings_view(final(arcs)@) == strings_view(old(arcs)@) + a
                && arc_entries_view(final(entries)@) == arc_entries_view(old(entries)@) + f,
            Err(p) => res matches Err(m) && m@ == "Archive nesting too deep: "@ + p,
        },
{
    unpack_within(top, current, prefix, bytes, MAX_ARC_NESTING, arcs, entries)
}

/// Found files that all come from disc archive `top` and, below a
/// non-empty `prefix`, lie under it.
pub open spec fn spec_found_under(top: Seq<char>, prefix: Seq<char>, f: Seq<(Seq<char>, Seq<char>, Seq<u8>)>) -> bool {
    forall|j: int|
        0 <= j < f.len() ==> (#[trigger] f[j]).0 == top && (prefix.len() > 0 ==> f[j].1.len() > prefix.len()
            && f[j].1.take(prefix.len() as int + 1) == prefix.push('/'))
}

proof fn lemma_found_under_add(
    top: Seq<char>,
    prefix: Seq<char>,
    a: Seq<(Seq<char>, Seq<char>, Seq<u8>)>,
    b: Seq<(Seq<char>, Seq<char>, Seq<u8>)>,
)
    requires
        spec_found_under(top, prefix, a),
        spec_found_under(top, prefix, b),
    ensures
        spec_found_under(top, prefix, a + b),
{
    assert forall|j: int| 0 <= j < (a + b).len() implies (#[trigger] (a + b)[j]).0 == top && (prefix.len() > 0 ==> (a
        + b)[j].1.len() > prefix.len() && (a + b)[j].1.take(prefix.len() as int + 1) == prefix.push('/')) by {
        if j < a.len() {
            assert((a + b)[j] == a[j]);
        } else {
            assert((a + b)[j] == b[j - a.len()]);
        }
    }
}

/// What unpacks from an archive comes from `top`, lies under `prefix`, and
/// registers the archive first.
pub proof fn lemma_unpack_found(top: Seq<char>, current: Seq<char>, prefix: Seq<char>, bytes: Seq<u8>, depth: nat)
    ensures
        spec_unpack(top, current, prefix, bytes, depth) matches Ok((a, f)) ==> spec_found_under(top, prefix, f) && (
        spec_parse_rarc(bytes) is Some ==> a.len() > 0 && a[0] == current),
    decreases depth, 2nat, 0nat,
{
    if let Some(r) = spec_parse_rarc(bytes) {
        lemma_unpack_entries_found(top, current, prefix, r, r.file_entries.len(), depth);
    }
}

proof fn lemma_unpack_entries_found(
    top: Seq<char>,
    current: Seq<char>,
    prefix: Seq<char>,
    r: RarcModel,
    k: nat,
    depth: nat,
)
    ensures
        spec_unpack_entries(top, current, prefix, r, k, depth) matches Ok((a, f)) ==> spec_found_under(top, prefix, f),
    decreases depth, 1nat, k,
{
    if k > 0 {
        lemma_unpack_entries_found(top, current, prefix, r, (k - 1) as nat, depth);
        lemma_unpack_entry_found(top, current, prefix, r, (k - 1) as nat, depth);
        if let Ok((a1, f1)) = spec_unpack_entries(top, current, prefix, r, (k - 1) as nat, depth) {
            if let Ok((a2, f2)) = spec_unpack_entry(top, current, prefix, r, (k - 1) as nat, depth) {
                lemma_found_under_add(top, prefix, f1, f2);
            }
        }
    }
}

proof fn lemma_unpack_entry_found(
    top: Seq<char>,
    current: Seq<char>,
    prefix: Seq<char>,
    r: RarcModel,
    k: nat,
    depth: nat,
)
    ensures
        spec_unpack_entry(top, current, prefix, r, k, depth) matches Ok((a, f)) ==> spec_found_under(top, prefix, f),
    decreases depth, 0nat, 0nat,
{
    let e = r.file_entries[k as int];
    if !(e.is_dir || e.data is None) {
        let internal = spec_entry_path(r, e);
        let full = spec_join(prefix, internal);
        if prefix.len() > 0 {
            assert(full.take(prefix.len() as int + 1) =~= prefix.push('/'));
        }
        if spec_ends_with(internal, ".arc"@) {
            if depth > 0 {
                let nested = current + seq!['/'] + internal;
                lemma_unpack_found(top, nested, full, e.data->0, (depth - 1) as nat);
                if let Ok((a, f)) = spec_unpack(top, nested, full, e.data->0, (depth - 1) as nat) {
                    assert forall|j: int| 0 <= j < f.len() implies (#[trigger] f[j]).0 == top && (prefix.len() > 0
                        ==> f[j].1.len() > prefix.len() && f[j].1.take(prefix.len() as int + 1) == prefix.push(
                        '/',
                    )) by {
                        if prefix.len() > 0 {
                            assert(full.len() > 0);
                            let q = f[j].1;
                            assert(q.take(full.len() as int + 1) == full.push('/'));
                            assert(q.take(prefix.len() as int + 1) =~= full.push('/').take(prefix.len() as int + 1));
                            assert(full.push('/').take(prefix.len() as int + 1) =~= prefix.push('/'));
                        }
                    }
                }
            }
        } else {
            let f = seq![(top, full, e.data->0)];
            assert(f[0] == (top, full, e.data->0));
        }
    }
}

/// The found files after the first `k` entries include each file entry
/// among them that has data and is not an archive.
proof fn lemma_unpack_entries_direct(
    top: Seq<char>,
    current: Seq<char>,
    prefix: Seq<char>,
    r: RarcModel,
    k: nat,
    depth: nat,
)
    requires
        k <= r.file_entries.len(),
    ensures
        spec_unpack_entries(top, current, prefix, r, k, depth) matches Ok((a, f)) ==> forall|i: int|
            0 <= i < k && !(#[trigger] r.file_entries[i]).is_dir && r.file_entries[i].data is Some
                && !spec_ends_with(spec_entry_path(r, r.file_entries[i]), ".arc"@) ==> exists|j: int|
                0 <= j < f.len() && #[trigger] f[j] == (
                    top,
                    spec_join(prefix, spec_entry_path(r, r.file_entries[i])),
                    r.file_entries[i].data->0,
                ),
    decreases k,
{
    if k > 0 {
        lemma_unpack_entries_direct(top, current, prefix, r, (k - 1) as nat, depth);
        if let Ok((a, f)) = spec_unpack_entries(top, current, prefix, r, k, depth) {
            let (a1, f1) = spec_unpack_entries(top, current, prefix, r, (k - 1) as nat, depth)->Ok_0;
            let (a2, f2) = spec_unpack_entry(top, current, prefix, r, (k - 1) as nat, depth)->Ok_0;
            assert(f == f1 + f2);
            assert forall|i: int|
                0 <= i < k && !(#[trigger] r.file_entries[i]).is_dir && r.file_entries[i].data is Some
                    && !spec_ends_with(spec_entry_path(r, r.file_entries[i]), ".arc"@) implies exists|j: int|
                    0 <= j < f.len() && #[trigger] f[j] == (
                        top,
                        spec_join(prefix, spec_entry_path(r, r.file_entries[i])),
                        r.file_entries[i].data->0,
                    ) by {
                if i < k - 1 {
                    let j = choose|j: int|
                        0 <= j < f1.len() && #[trigger] f1[j] == (
                            top,
                            spec_join(prefix, spec_entry_path(r, r.file_entries[i])),
                            r.file_entries[i].data->0,
                        );
                    assert(f[j] == f1[j]);
                } else {
                    assert(f2[0] == (top, spec_join(prefix, spec_entry_path(r, r.file_entries[i])), r.file_entries[i].data->0));
                    assert(f[f1.len() as int] == f2[0]);
                }
            }
        }
    }
}

/// Law: unpacking an archive registers it first; every file found comes
/// from the disc archive `top` and, below a non-empty prefix, lies under
/// it; and every file of the archive that has data and is not itself an
/// archive is found, from `top`, at its path below the prefix, with its
/// bytes.
pub proof fn lemma_unpack_lists_files(top: Seq<char>, current: Seq<char>, prefix: Seq<char>, bytes: Seq<u8>, depth: nat)
    requires
        spec_parse_rarc(bytes) is Some,
        spec_unpack(top, current, prefix, bytes, depth) is Ok,
    ensures
        ({
            let r = spec_parse_rarc(bytes)->Some_0;
            let (a, f) = spec_unpack(top, current, prefix, bytes, depth)->Ok_0;
            &&& a.len() > 0 && a[0] == current
            &&& spec_found_under(top, prefix, f)
            &&& forall|i: int|
                0 <= i < r.file_entries.len() && !(#[trigger] r.file_entries[i]).is_dir && r.file_entries[i].data is Some
                    && !spec_ends_with(spec_entry_path(r, r.file_entries[i]), ".arc"@) ==> exists|j: int|
                    0 <= j < f.len() && #[trigger] f[j] == (
                        top,
                        spec_join(prefix, spec_entry_path(r, r.file_entries[i])),
                        r.file_entries[i].data->0,
                    )
        }),
{
    let r = spec_parse_rarc(bytes)->Some_0;
    lemma_unpack_found(top, current, prefix, bytes, depth);
    lemma_unpack_entries_direct(top, current, prefix, r, r.file_entries.len(), depth);
}

} // verus!
