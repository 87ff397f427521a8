//! AW wave banks: comparing two versions of a bank, and turning a wave into
//! a WAV file.

use vstd::prelude::*;
use crate::formats::baa::{AwWaveInfo, AwFileInfo, AwFileModel};
use crate::text::{
    spec_decimal, spec_hex_upper, decimal_string, hex_upper_string, push_str, push_char, to_string,
    str_eq,
};
use crate::utils::{
    spec_hex_lower, spec_sha256, hex_encode, sha256_digest, copy_range, spec_u32_le_bytes,
    spec_u16_le_bytes, push_u32_le, push_u16_le,
};

verus! {

/// How a wave differs between the disc's bank and the edited one.
#[derive(Clone, Copy)]
pub enum WaveDiffKind {
    Changed,
    Added,
    Removed,
}

/// One wave that differs.
pub struct WaveDiffEntry {
    pub index: usize,
    pub kind: WaveDiffKind,
    pub reason: &'static str,
    pub iso_offset: Option<u32>,
    pub iso_size: Option<u32>,
    pub folder_offset: Option<u32>,
    pub folder_size: Option<u32>,
}

/// One differing wave, as plain values.
pub struct WaveDiffModel {
    pub index: usize,
    pub kind: WaveDiffKind,
    pub reason: Seq<char>,
    pub iso_offset: Option<u32>,
    pub iso_size: Option<u32>,
    pub folder_offset: Option<u32>,
    pub folder_size: Option<u32>,
}

impl View for WaveDiffEntry {
    type V = WaveDiffModel;

    open spec fn view(&self) -> WaveDiffModel {
        WaveDiffModel {
            index: self.index,
            kind: self.kind,
            reason: self.reason@,
            iso_offset: self.iso_offset,
            iso_size: self.iso_size,
            folder_offset: self.folder_offset,
            folder_size: self.folder_size,
        }
    }
}

/// The comparison of two versions of a bank.
pub struct AwEntryDiff {
    pub iso_wave_count: usize,
    pub folder_wave_count: usize,
    pub changed_entries: Vec<WaveDiffEntry>,
}

/// The comparison of two versions of a bank, as plain values.
pub struct AwEntryDiffModel {
    pub iso_wave_count: usize,
    pub folder_wave_count: usize,
    pub changed_entries: Seq<WaveDiffModel>,
}

/// The views of a list of differing waves.
pub open spec fn diff_entries_view(v: Seq<WaveDiffEntry>) -> Seq<WaveDiffModel> {
    v.map_values(|e: WaveDiffEntry| e@)
}

impl View for AwEntryDiff {
    type V = AwEntryDiffModel;

    open spec fn view(&self) -> AwEntryDiffModel {
        AwEntryDiffModel {
            iso_wave_count: self.iso_wave_count,
            folder_wave_count: self.folder_wave_count,
            changed_entries: diff_entries_view(self.changed_entries@),
        }
    }
}

/// The bytes of a wave in its bank, or why they cannot be taken.
pub open spec fn spec_slice_wave(data: Seq<u8>, offset: u32, size: u32) -> Result<Seq<u8>, Seq<char>> {
    if offset + size > usize::MAX {
        Err("Wave slice overflow"@)
    } else if offset + size > data.len() {
        Err(
            "Wave slice out of bounds: offset=0x"@ + spec_hex_upper(offset as nat) + ", size="@
                + spec_decimal(size as nat),
        )
    } else {
        Ok(data.subrange(offset as int, offset + size))
    }
}

/// Takes the bytes of a wave from its bank.
fn slice_wave_data(data: &[u8], offset: u32, size: u32) -> (res: Result<Vec<u8>, String>)
    ensures
        match res {
            Ok(v) => spec_slice_wave(data@, offset, size) == Ok::<Seq<u8>, Seq<char>>(v@),
            Err(e) => spec_slice_wave(data@, offset, size) == Err::<Seq<u8>, Seq<char>>(e@),
        },
{
    let start = offset as usize;
    let len = size as usize;
    let end = match start.checked_add(len) {
        Some(e) => e,
        None => {
            return Err(to_string("Wave slice overflow"));
        },
    };
    if end > data.len() {
        let mut m = to_string("Wave slice out of bounds: offset=0x");
        let h = hex_upper_string(start as u64);
        push_str(&mut m, h.as_str());
        push_str(&mut m, ", size=");
        let d = decimal_string(len as u64);
        push_str(&mut m, d.as_str());
        return Err(m);
    }
    Ok(copy_range(data, start, end))
}

/// Copies the bytes of a wave out of its bank.
pub fn extract_wave_bytes(data: &[u8], offset: u32, size: u32) -> (res: Result<Vec<u8>, String>)
    ensures
        match res {
            Ok(v) => spec_slice_wave(data@, offset, size) == Ok::<Seq<u8>, Seq<char>>(v@),
            Err(e) => spec_slice_wave(data@, offset, size) == Err::<Seq<u8>, Seq<char>>(e@),
        },
{
    slice_wave_data(data, offset, size)
}

/// The fingerprint by which wave data is compared: its SHA-256 digest in
/// lowercase hex.
pub open spec fn spec_hash_bytes(data: Seq<u8>) -> Seq<char> {
    spec_hex_lower(spec_sha256(data))
}

/// The fingerprint of wave data.
fn hash_bytes(data: &[u8]) -> (res: String)
    ensures
        res@ == spec_hash_bytes(data@),
{
    let d = sha256_digest(data);
    hex_encode(d.as_slice())
}

/// Whether any stored field of two waves differs.
pub open spec fn spec_metadata_changed(a: AwWaveInfo, b: AwWaveInfo) -> bool {
    a.format != b.format || a.sample_rate_bits != b.sample_rate_bits || a.stream_offset
        != b.stream_offset || a.stream_size != b.stream_size || a.loop_flag_raw != b.loop_flag_raw
        || a.loop_start != b.loop_start || a.loop_end != b.loop_end || a.num_samples
        != b.num_samples
}

/// How wave `i` differs, if it does: compared field by field and by the
/// fingerprint of its data when both banks have it; added or removed when
/// only one does.
pub open spec fn spec_wave_diff(
    iso_bytes: Seq<u8>,
    folder_bytes: Seq<u8>,
    iso: Seq<AwWaveInfo>,
    folder: Seq<AwWaveInfo>,
    i: nat,
) -> Result<Option<WaveDiffModel>, Seq<char>> {
    if i < iso.len() && i < folder.len() {
        let a = iso[i as int];
        let b = folder[i as int];
        match spec_slice_wave(iso_bytes, a.stream_offset, a.stream_size) {
            Err(e) => Err(e),
            Ok(da) => match spec_slice_wave(folder_bytes, b.stream_offset, b.stream_size) {
                Err(e) => Err(e),
                Ok(db) => {
                    let data_changed = spec_hash_bytes(da) != spec_hash_bytes(db);
                    let meta_changed = spec_metadata_changed(a, b);
                    if data_changed || meta_changed {
                        Ok(
                            Some(
                                WaveDiffModel {
                                    index: i as usize,
                                    kind: WaveDiffKind::Changed,
                                    reason: if data_changed && meta_changed {
                                        "metadata+data"@
                                    } else if meta_changed {
                                        "metadata"@
                                    } else {
                                        "data"@
                                    },
                                    iso_offset: Some(a.stream_offset),
                                    iso_size: Some(a.stream_size),
                                    folder_offset: Some(b.stream_offset),
                                    folder_size: Some(b.stream_size),
                                },
                            ),
                        )
                    } else {
                        Ok(None)
                    }
                },
            },
        }
    } else if i < folder.len() {
        let b = folder[i as int];
        Ok(
            Some(
                WaveDiffModel {
                    index: i as usize,
                    kind: WaveDiffKind::Added,
                    reason: "present only in folder AW+BAA"@,
                    iso_offset: None,
                    iso_size: None,
                    folder_offset: Some(b.stream_offset),
                    folder_size: Some(b.stream_size),
                },
            ),
        )
    } else if i < iso.len() {
        let a = iso[i as int];
        Ok(
            Some(
                WaveDiffModel {
                    index: i as usize,
                    kind: WaveDiffKind::Removed,
                    reason: "present only in ISO AW+BAA"@,
                    iso_offset: Some(a.stream_offset),
                    iso_size: Some(a.stream_size),
                    folder_offset: None,
                    folder_size: None,
                },
            ),
        )
    } else {
        Ok(None)
    }
}

/// The differing waves among the first `k` positions, in order.
pub open spec fn spec_wave_diffs_upto(
    iso_bytes: Seq<u8>,
    folder_bytes: Seq<u8>,
    iso: Seq<AwWaveInfo>,
    folder: Seq<AwWaveInfo>,
    k: nat,
) -> Result<Seq<WaveDiffModel>, Seq<char>>
    decreases k,
{
    if k == 0 {
        Ok(Seq::empty())
    } else {
        match spec_wave_diffs_upto(iso_bytes, folder_bytes, iso, folder, (k - 1) as nat) {
            Err(e) => Err(e),
            Ok(prev) => match spec_wave_diff(iso_bytes, folder_bytes, iso, folder, (k - 1) as nat) {
                Err(e) => Err(e),
                Ok(None) => Ok(prev),
                Ok(Some(d)) => Ok(prev.push(d)),
            },
        }
    }
}

/// The comparison of two versions of a bank.
pub open spec fn spec_diff_aw(
    iso_bytes: Seq<u8>,
    folder_bytes: Seq<u8>,
    iso: AwFileModel,
    folder: AwFileModel,
) -> Result<AwEntryDiffModel, Seq<char>> {
    let n = if iso.waves.len() >= folder.waves.len() {
        iso.waves.len()
    } else {
        folder.waves.len()
    };
    match spec_wave_diffs_upto(iso_bytes, folder_bytes, iso.waves, folder.waves, n) {
        Err(e) => Err(e),
        Ok(d) => Ok(
            AwEntryDiffModel {
                iso_wave_count: iso.waves.len() as usize,
                folder_wave_count: folder.waves.len() as usize,
                changed_entries: d,
            },
        ),
    }
}

/// Whether two waves differ in a stored field.
fn metadata_changed(a: &AwWaveInfo, b: &AwWaveInfo) -> (res: bool)
    ensures
        res == spec_metadata_changed(*a, *b),
{
    a.format != b.format || a.sample_rate_bits != b.sample_rate_bits || a.stream_offset
        != b.stream_offset || a.stream_size != b.stream_size || a.loop_flag_raw != b.loop_flag_raw
        || a.loop_start != b.loop_start || a.loop_end != b.loop_end || a.num_samples
        != b.num_samples
}

/// How wave `i` differs, if it does.
fn wave_diff(
    iso_bytes: &[u8],
    folder_bytes: &[u8],
    iso: &Vec<AwWaveInfo>,
    folder: &Vec<AwWaveInfo>,
    i: usize,
) -> (res: Result<Option<WaveDiffEntry>, String>)
    ensures
        match res {
            Ok(Some(d)) => spec_wave_diff(iso_bytes@, folder_bytes@, iso@, folder@, i as nat)
                == Ok::<Option<WaveDiffModel>, Seq<char>>(Some(d@)),
            Ok(None) => spec_wave_diff(iso_bytes@, folder_bytes@, iso@, folder@, i as nat)
                == Ok::<Option<WaveDiffModel>, Seq<char>>(None),
            Err(e) => spec_wave_diff(iso_bytes@, folder_bytes@, iso@, folder@, i as nat) == Err::<
                Option<WaveDiffModel>,
                Seq<char>,
            >(e@),
        },
{
    if i < iso.len() && i < folder.len() {
        let a = &iso[i];
        let b = &folder[i];
        let da = match slice_wave_data(iso_bytes, a.stream_offset, a.stream_size) {
            Ok(v) => v,
            Err(e) => {
                return Err(e);
            },
        };
        let db = match slice_wave_data(folder_bytes, b.stream_offset, b.stream_size) {
            Ok(v) => v,
            Err(e) => {
                return Err(e);
            },
        };
        let ha = hash_bytes(da.as_slice());
        let hb = hash_bytes(db.as_slice());
        let data_changed = !str_eq(ha.as_str(), hb.as_str());
        let meta_changed = metadata_changed(a, b);
        if data_changed || meta_changed {
            let reason: &'static str = if data_changed && meta_changed {
                "metadata+data"
            } else if meta_changed {
                "metadata"
            } else {
                "data"
            };
            Ok(
                Some(
                    WaveDiffEntry {
                        index: i,
                        kind: WaveDiffKind::Changed,
                        reason,
                        iso_offset: Some(a.stream_offset),
                        iso_size: Some(a.stream_size),
                        folder_offset: Some(b.stream_offset),
                        folder_size: Some(b.stream_size),
                    },
                ),
            )
        } else {
            Ok(None)
        }
    } else if i < folder.len() {
        let b = &folder[i];
        Ok(
            Some(
                WaveDiffEntry {
                    index: i,
                    kind: WaveDiffKind::Added,
                    reason: "present only in folder AW+BAA",
                    iso_offset: None,
                    iso_size: None,
                    folder_offset: Some(b.stream_offset),
                    folder_size: Some(b.stream_size),
                },
            ),
        )
    } else if i < iso.len() {
        let a = &iso[i];
        Ok(
            Some(
                WaveDiffEntry {
                    index: i,
                    kind: WaveDiffKind::Removed,
                    reason: "present only in ISO AW+BAA",
                    iso_offset: Some(a.stream_offset),
                    iso_size: Some(a.stream_size),
                    folder_offset: None,
                    folder_size: None,
                },
            ),
        )
    } else {
        Ok(None)
    }
}

/// Compares the waves of two versions of a bank: the disc's and the edited
/// folder's.
pub fn diff_aw_entries(
    iso_aw_bytes: &[u8],
    folder_aw_bytes: &[u8],
    iso_info: &AwFileInfo,
    folder_info: &AwFileInfo,
) -> (res: Result<AwEntryDiff, String>)
    ensures
        match res {
            Ok(d) => spec_diff_aw(iso_aw_bytes@, folder_aw_bytes@, iso_info@, folder_info@) == Ok::<
                AwEntryDiffModel,
                Seq<char>,
            >(d@),
            Err(e) => spec_diff_aw(iso_aw_bytes@, folder_aw_bytes@, iso_info@, folder_info@)
                == Err::<AwEntryDiffModel, Seq<char>>(e@),
        },
{
    let iso = &iso_info.waves;
    let folder = &folder_info.waves;
    let n = if iso.len() >= folder.len() {
        iso.len()
    } else {
        folder.len()
    };
    let mut changed: Vec<WaveDiffEntry> = Vec::new();
    let mut i: usize = 0;
    assert(diff_entries_view(changed@) =~= Seq::<WaveDiffModel>::empty());
    while i < n
        invariant
            i <= n,
            iso == &iso_info.waves,
            folder == &folder_info.waves,
            n == (if iso@.len() >= folder@.len() { iso@.len() } else { folder@.len() }),
            spec_wave_diffs_upto(iso_aw_bytes@, folder_aw_bytes@, iso@, folder@, i as nat) == Ok::<
                Seq<WaveDiffModel>,
                Seq<char>,
            >(diff_entries_view(changed@)),
        decreases n - i,
    {
        let ghost before = diff_entries_view(changed@);
        match wave_diff(iso_aw_bytes, folder_aw_bytes, iso, folder, i) {
            Err(e) => {
                proof {
                    assert(spec_wave_diffs_upto(iso_aw_bytes@, folder_aw_bytes@, iso@, folder@, (i + 1) as nat) == Err::<Seq<WaveDiffModel>, Seq<char>>(e@));
                    lemma_diffs_err_stays(iso_aw_bytes@, folder_aw_bytes@, iso@, folder@, (i + 1) as nat, n as nat);
                    assert(iso_info@.waves == iso@);
                    assert(folder_info@.waves == folder@);
                }
                return Err(e);
            },
            Ok(None) => {},
            Ok(Some(d)) => {
                let ghost dv = d@;
                changed.push(d);
                assert(diff_entries_view(changed@) =~= before.push(dv));
            },
        }
        i = i + 1;
    }
    assert(iso_info@.waves == iso@);
    assert(folder_info@.waves == folder@);
    Ok(
        AwEntryDiff {
            iso_wave_count: iso.len(),
            folder_wave_count: folder.len(),
            changed_entries: changed,
        },
    )
}

/// Once the comparison fails at some position, it fails further on.
proof fn lemma_diffs_err_stays(
    iso_bytes: Seq<u8>,
    folder_bytes: Seq<u8>,
    iso: Seq<AwWaveInfo>,
    folder: Seq<AwWaveInfo>,
    k: nat,
    n: nat,
)
    requires
        k <= n,
        spec_wave_diffs_upto(iso_bytes, folder_bytes, iso, folder, k) is Err,
    ensures
        spec_wave_diffs_upto(iso_bytes, folder_bytes, iso, folder, n) == spec_wave_diffs_upto(
            iso_bytes,
            folder_bytes,
            iso,
            folder,
            k,
        ),
    decreases n - k,
{
    if k < n {
        lemma_diffs_err_stays(iso_bytes, folder_bytes, iso, folder, k, (n - 1) as nat);
    }
}

/// The word for a kind of difference.
pub open spec fn spec_kind_word(k: WaveDiffKind) -> Seq<char> {
    match k {
        WaveDiffKind::Changed => "changed"@,
        WaveDiffKind::Added => "added"@,
        WaveDiffKind::Removed => "removed"@,
    }
}

/// The placement of a wave in one bank: offset in hex and size in decimal.
pub open spec fn spec_placement(label: Seq<char>, off: Option<u32>, size: Option<u32>) -> Seq<char> {
    match (off, size) {
        (Some(o), Some(z)) => label + spec_hex_upper(o as nat) + ", size="@ + spec_decimal(z as nat)
            + ")"@,
        _ => Seq::empty(),
    }
}

/// The report line of one differing wave.
pub open spec fn spec_diff_line(e: WaveDiffModel) -> Seq<char> {
    "      wave["@ + spec_decimal(e.index as nat) + "] "@ + spec_kind_word(e.kind) + " ("@ + e.reason
        + ")"@ + spec_placement(", iso(off=0x"@, e.iso_offset, e.iso_size) + spec_placement(
        ", folder(off=0x"@,
        e.folder_offset,
        e.folder_size,
    ) + "\n"@
}

/// The report lines of the differing waves, in order.
pub open spec fn spec_diff_lines(es: Seq<WaveDiffModel>) -> Seq<char>
    decreases es.len(),
{
    if es.len() == 0 {
        Seq::empty()
    } else {
        spec_diff_lines(es.drop_last()) + spec_diff_line(es.last())
    }
}

/// The report on one bank: its path, its BAA, the bank ids and wave counts
/// of both versions, then the differing waves or a note that there are
/// none.
pub open spec fn spec_format_aw_diff(
    rel_path: Seq<char>,
    baa_path: Seq<char>,
    iso_bank: u32,
    folder_bank: u32,
    d: AwEntryDiffModel,
) -> Seq<char> {
    let head = "  "@ + rel_path + "\n"@ + "    baa: "@ + baa_path + "\n"@ + "    iso_bank: "@
        + spec_decimal(iso_bank as nat) + ", folder_bank: "@ + spec_decimal(folder_bank as nat)
        + "\n"@ + "    iso_wave_count: "@ + spec_decimal(d.iso_wave_count as nat)
        + ", folder_wave_count: "@ + spec_decimal(d.folder_wave_count as nat) + "\n"@;
    if d.changed_entries.len() == 0 {
        head + "    no internal wave entry changes detected\n"@
    } else {
        head + "    changed_wave_entries:\n"@ + spec_diff_lines(d.changed_entries)
    }
}

/// Appends the decimal rendering of a number.
fn push_decimal(out: &mut String, n: u64)
    ensures
        final(out)@ == old(out)@ + spec_decimal(n as nat),
{
    let d = decimal_string(n);
    push_str(out, d.as_str());
}

/// Appends the placement of a wave in one bank.
fn push_placement(out: &mut String, label: &str, off: Option<u32>, size: Option<u32>)
    ensures
        final(out)@ == old(out)@ + spec_placement(label@, off, size),
{
    match (off, size) {
        (Some(o), Some(z)) => {
            push_str(out, label);
            let h = hex_upper_string(o as u64);
            push_str(out, h.as_str());
            push_str(out, ", size=");
            push_decimal(out, z as u64);
            push_str(out, ")");
            assert(out@ =~= old(out)@ + spec_placement(label@, off, size));
        },
        _ => {
            assert(out@ =~= old(out)@ + spec_placement(label@, off, size));
        },
    }
}

/// Appends the report line of one differing wave.
fn push_diff_line(out: &mut String, e: &WaveDiffEntry)
    ensures
        final(out)@ == old(out)@ + spec_diff_line(e@),
{
    push_str(out, "      wave[");
    push_decimal(out, e.index as u64);
    push_str(out, "] ");
    let word: &str = match e.kind {
        WaveDiffKind::Changed => "changed",
        WaveDiffKind::Added => "added",
        WaveDiffKind::Removed => "removed",
    };
    push_str(out, word);
    push_str(out, " (");
    push_str(out, e.reason);
    push_str(out, ")");
    push_placement(out, ", iso(off=0x", e.iso_offset, e.iso_size);
    push_placement(out, ", folder(off=0x", e.folder_offset, e.folder_size);
    push_str(out, "\n");
    assert(out@ =~= old(out)@ + spec_diff_line(e@));
}

/// The report on one bank's differences.
pub fn format_aw_entry_diff(
    rel_path: &str,
    baa_path: &str,
    iso_info: &AwFileInfo,
    folder_info: &AwFileInfo,
    diff: &AwEntryDiff,
) -> (res: String)
    ensures
        res@ == spec_format_aw_diff(rel_path@, baa_path@, iso_info.bank_id, folder_info.bank_id, diff@),
{
    let mut out = String::new();
    push_str(&mut out, "  ");
    push_str(&mut out, rel_path);
    push_str(&mut out, "\n");
    push_str(&mut out, "    baa: ");
    push_str(&mut out, baa_path);
    push_str(&mut out, "\n");
    push_str(&mut out, "    iso_bank: ");
    push_decimal(&mut out, iso_info.bank_id as u64);
    push_str(&mut out, ", folder_bank: ");
    push_decimal(&mut out, folder_info.bank_id as u64);
    push_str(&mut out, "\n");
    push_str(&mut out, "    iso_wave_count: ");
    push_decimal(&mut out, diff.iso_wave_count as u64);
    push_str(&mut out, ", folder_wave_count: ");
    push_decimal(&mut out, diff.folder_wave_count as u64);
    push_str(&mut out, "\n");
    let ghost head = out@;
    assert(head =~= "  "@ + rel_path@ + "\n"@ + "    baa: "@ + baa_path@ + "\n"@ + "    iso_bank: "@
        + spec_decimal(iso_info.bank_id as nat) + ", folder_bank: "@ + spec_decimal(folder_info.bank_id as nat)
        + "\n"@ + "    iso_wave_count: "@ + spec_decimal(diff@.iso_wave_count as nat)
        + ", folder_wave_count: "@ + spec_decimal(diff@.folder_wave_count as nat) + "\n"@);
    if diff.changed_entries.len() == 0 {
        push_str(&mut out, "    no internal wave entry changes detected\n");
        return out;
    }
    push_str(&mut out, "    changed_wave_entries:\n");
    let ghost head2 = out@;
    let ghost es = diff@.changed_entries;
    let mut k: usize = 0;
    assert(es.take(0) =~= Seq::<WaveDiffModel>::empty());
    while k < diff.changed_entries.len()
        invariant
            k <= diff.changed_entries@.len(),
            es == diff@.changed_entries,
            out@ == head2 + spec_diff_lines(es.take(k as int)),
        decreases diff.changed_entries@.len() - k,
    {
        assert(es[k as int] == diff.changed_entries@[k as int]@);
        assert(es.take(k + 1).drop_last() =~= es.take(k as int));
        push_diff_line(&mut out, &diff.changed_entries[k]);
        assert(out@ =~= head2 + spec_diff_lines(es.take(k + 1)));
        k = k + 1;
    }
    assert(es.take(k as int) =~= es);
    out
}

/// The AFC prediction coefficients, by index.
pub open spec fn spec_afc_coefs(index: nat) -> (int, int) {
    if index == 0 {
        (0, 0)
    } else if index == 1 {
        (2048, 0)
    } else if index == 2 {
        (0, 2048)
    } else if index == 3 {
        (1024, 1024)
    } else if index == 4 {
        (4096, -2048)
    } else if index == 5 {
        (3584, -1536)
    } else if index == 6 {
        (3072, -1024)
    } else if index == 7 {
        (4608, -2560)
    } else if index == 8 {
        (4200, -2248)
    } else if index == 9 {
        (4800, -2300)
    } else if index == 10 {
        (5120, -3072)
    } else if index == 11 {
        (2048, -2048)
    } else if index == 12 {
        (1024, -1024)
    } else if index == 13 {
        (-1024, 1024)
    } else if index == 14 {
        (-1024, 0)
    } else {
        (-2048, 0)
    }
}

/// The AFC prediction coefficients of an index below 16.
fn afc_coefs(index: u8) -> (res: (i64, i64))
    requires
        index < 16,
    ensures
        res.0 == spec_afc_coefs(index as nat).0,
        res.1 == spec_afc_coefs(index as nat).1,
        -3072 <= res.0 <= 5120,
        -3072 <= res.1 <= 2048,
{
    match index {
        0 => (0, 0),
        1 => (2048, 0),
        2 => (0, 2048),
        3 => (1024, 1024),
        4 => (4096, -2048),
        5 => (3584, -1536),
        6 => (3072, -1024),
        7 => (4608, -2560),
        8 => (4200, -2248),
        9 => (4800, -2300),
        10 => (5120, -3072),
        11 => (2048, -2048),
        12 => (1024, -1024),
        13 => (-1024, 1024),
        14 => (-1024, 0),
        _ => (-2048, 0),
    }
}

/// Two to the power `n`.
pub open spec fn spec_pow2(n: nat) -> int
    decreases n,
{
    if n == 0 {
        1
    } else {
        2 * spec_pow2((n - 1) as nat)
    }
}

/// Two to a power below 16.
fn pow2_small(n: u8) -> (r: i64)
    requires
        n < 16,
    ensures
        r == spec_pow2(n as nat),
        1 <= r <= 32768,
{
    let mut r: i64 = 1;
    let mut k: u8 = 0;
    proof {
        lemma_pow2_15();
    }
    while k < n
        invariant
            k <= n < 16,
            r == spec_pow2(k as nat),
            spec_pow2(15) == 32768,
        decreases n - k,
    {
        proof {
            lemma_pow2_mono((k + 1) as nat, 15);
            assert(spec_pow2((k + 1) as nat) == 2 * spec_pow2(k as nat));
            lemma_pow2_pos(k as nat);
        }
        r = r * 2;
        k = k + 1;
    }
    proof {
        lemma_pow2_mono(k as nat, 15);
        lemma_pow2_pos(k as nat);
    }
    r
}

/// Two to the fifteenth.
proof fn lemma_pow2_15()
    ensures
        spec_pow2(15) == 32768,
{
    reveal_with_fuel(spec_pow2, 16);
}

/// Powers of two grow with the exponent.
proof fn lemma_pow2_mono(a: nat, b: nat)
    requires
        a <= b,
    ensures
        spec_pow2(a) <= spec_pow2(b),
    decreases b - a,
{
    if a < b {
        lemma_pow2_mono(a, (b - 1) as nat);
        lemma_pow2_pos((b - 1) as nat);
    }
}

/// Powers of two are positive.
proof fn lemma_pow2_pos(n: nat)
    ensures
        spec_pow2(n) >= 1,
    decreases n,
{
    if n > 0 {
        lemma_pow2_pos((n - 1) as nat);
    }
}

/// A value clamped to the 16-bit sample range.
pub open spec fn spec_clamp16(v: int) -> i16 {
    if v > 32767 {
        32767
    } else if v < -32768 {
        -32768i16
    } else {
        v as i16
    }
}

/// Clamps a value to the 16-bit sample range.
pub fn clamp16(v: i32) -> (res: i16)
    ensures
        res == spec_clamp16(v as int),
{
    if v > 32767 {
        32767
    } else if v < -32768 {
        -32768
    } else {
        v as i16
    }
}

/// Floor division by 2048 of a value of moderate size.
fn floor_div2048(x: i64) -> (r: i64)
    requires
        -0x100_0000_0000 <= x <= 0x100_0000_0000,
    ensures
        r == x / 2048,
{
    let y = x + 0x100_0000_0000;
    let q = y / 2048;
    assert(q - 0x2000_0000 == x / 2048) by (nonlinear_arith)
        requires
            y == x + 0x100_0000_0000,
            y >= 0,
            q == y / 2048,
    ;
    q - 0x2000_0000
}

/// The next sample from a scaled code and the two previous samples.
pub open spec fn spec_afc_predict(scaled: int, index: nat, h1: int, h2: int) -> i16 {
    let c = spec_afc_coefs(index);
    spec_clamp16((scaled + c.0 * h1 + c.1 * h2) / 2048)
}

/// The next sample from a scaled code and the two previous samples.
fn afc_predict(scaled: i64, index: u8, h1: i16, h2: i16) -> (res: i16)
    requires
        index < 16,
        -0x4000_0000 <= scaled <= 0x4000_0000,
    ensures
        res == spec_afc_predict(scaled as int, index as nat, h1 as int, h2 as int),
{
    let (c1, c2) = afc_coefs(index);
    let a = h1 as i64;
    let b = h2 as i64;
    assert(-0x1000_0000 <= c1 * a <= 0x1000_0000) by (nonlinear_arith)
        requires
            -3072 <= c1 <= 5120,
            -32768 <= a <= 32767,
    ;
    assert(-0x1000_0000 <= c2 * b <= 0x1000_0000) by (nonlinear_arith)
        requires
            -3072 <= c2 <= 2048,
            -32768 <= b <= 32767,
    ;
    let acc = scaled + c1 * a + c2 * b;
    let q = floor_div2048(acc);
    let clamped = if q > 32767 {
        32767i16
    } else if q < -32768 {
        -32768i16
    } else {
        q as i16
    };
    clamped
}

/// Sample `t` of 4-bit AFC data, given the two samples before it: each
/// 9-byte frame holds a scale and coefficient index, then 16 signed
/// nibbles.
pub open spec fn spec_afc4_sample(data: Seq<u8>, t: nat, h1: int, h2: int) -> i16 {
    let frame = 9 * (t / 16);
    let i = t % 16;
    let head = data[frame as int];
    let code = data[frame + 1 + (i / 2) as int];
    let nibble: int = if i % 2 == 0 { (code / 16) as int } else { (code % 16) as int };
    let signed = if nibble >= 8 { nibble - 16 } else { nibble };
    spec_afc_predict(signed * spec_pow2((head / 16) as nat) * 2048, (head % 16) as nat, h1, h2)
}

/// Sample `t` of 2-bit AFC data, given the two samples before it: each
/// 5-byte frame holds a scale and coefficient index, then 16 two-bit codes.
pub open spec fn spec_afc2_sample(data: Seq<u8>, t: nat, h1: int, h2: int) -> i16 {
    let frame = 5 * (t / 16);
    let i = t % 16;
    let head = data[frame as int];
    let code = data[frame + 1 + (i / 4) as int];
    let two = (code as nat / spec_pow2((6 - 2 * (i % 4)) as nat) as nat) % 4;
    let signed: int = if two == 0 { 0 } else if two == 1 { 1 } else if two == 2 { -2 } else { -1 };
    spec_afc_predict(signed * 8192 * spec_pow2((head / 16) as nat), (head % 16) as nat, h1, h2)
}

/// The first `count` samples of AFC data, each predicted from the two
/// before it (zero before the start).
pub open spec fn spec_afc_decode(data: Seq<u8>, two_bit: bool, count: nat) -> Seq<i16>
    decreases count,
{
    if count == 0 {
        Seq::empty()
    } else {
        let prev = spec_afc_decode(data, two_bit, (count - 1) as nat);
        let t = (count - 1) as nat;
        let h1: int = if t >= 1 { prev[t - 1] as int } else { 0 };
        let h2: int = if t >= 2 { prev[t - 2] as int } else { 0 };
        prev.push(
            if two_bit {
                spec_afc2_sample(data, t, h1, h2)
            } else {
                spec_afc4_sample(data, t, h1, h2)
            },
        )
    }
}

/// Sample `t` of decoded AFC data, from the two decoded before it.
proof fn lemma_afc_decode_at(data: Seq<u8>, two_bit: bool, n: nat, t: int)
    requires
        0 <= t < n,
    ensures
        spec_afc_decode(data, two_bit, n).len() == n,
        ({
            let d = spec_afc_decode(data, two_bit, n);
            let h1: int = if t >= 1 { d[t - 1] as int } else { 0 };
            let h2: int = if t >= 2 { d[t - 2] as int } else { 0 };
            d[t] == if two_bit {
                spec_afc2_sample(data, t as nat, h1, h2)
            } else {
                spec_afc4_sample(data, t as nat, h1, h2)
            }
        }),
    decreases n,
{
    lemma_afc_decode_len(data, two_bit, n);
    if t < n - 1 {
        lemma_afc_decode_at(data, two_bit, (n - 1) as nat, t);
    } else {
        lemma_afc_decode_len(data, two_bit, (n - 1) as nat);
    }
}

proof fn lemma_afc_decode_len(data: Seq<u8>, two_bit: bool, n: nat)
    ensures
        spec_afc_decode(data, two_bit, n).len() == n,
    decreases n,
{
    if n > 0 {
        lemma_afc_decode_len(data, two_bit, (n - 1) as nat);
    }
}

/// The value of a signed 4-bit code.
pub open spec fn spec_signed_nibble(nib: u8) -> int {
    if nib >= 8 {
        nib as int - 16
    } else {
        nib as int
    }
}

/// The 4-bit code of sample `t` of 4-bit AFC data: the high nibble of its
/// byte for an even position in the frame, the low one for an odd.
pub open spec fn spec_afc4_code(data: Seq<u8>, t: int) -> u8 {
    let i = t % 16;
    let code = data[9 * (t / 16) + 1 + i / 2];
    if i % 2 == 0 {
        code >> 4u8
    } else {
        code & 0x0Fu8
    }
}

/// Law: in 4-bit AFC data, each frame is a head byte and eight bytes of
/// two codes each, high nibble first. Where the head byte is 0 (scale 1,
/// no prediction) a sample is its signed code; where it is 1 (scale 1, the
/// previous sample as prediction) a sample is its signed code added to
/// the sample before it, kept to the 16-bit range.
pub proof fn lemma_afc4_frames(data: Seq<u8>, n: nat, t: int)
    requires
        0 <= t < n,
    ensures
        data[9 * (t / 16)] == 0 ==> spec_afc_decode(data, false, n)[t] as int == spec_signed_nibble(
            spec_afc4_code(data, t),
        ),
        (data[9 * (t / 16)] == 1 && t >= 1) ==> {
            let v = spec_afc_decode(data, false, n)[t - 1] as int + spec_signed_nibble(spec_afc4_code(data, t));
            spec_afc_decode(data, false, n)[t] as int == if v > 32767 {
                32767
            } else if v < -32768 {
                -32768
            } else {
                v
            }
        },
{
    lemma_afc_decode_at(data, false, n, t);
    let i = t % 16;
    let head = data[9 * (t / 16)];
    let code = data[9 * (t / 16) + 1 + i / 2];
    assert(code / 16 == code >> 4u8 && code % 16 == code & 0x0Fu8) by (bit_vector);
    let sn = spec_signed_nibble(spec_afc4_code(data, t));
    assert(-8 <= sn <= 7);
    if head == 0 {
        assert(spec_pow2(0) == 1);
        let h1: int = if t >= 1 { spec_afc_decode(data, false, n)[t - 1] as int } else { 0 };
        let h2: int = if t >= 2 { spec_afc_decode(data, false, n)[t - 2] as int } else { 0 };
        assert((sn * 1 * 2048 + 0 * h1 + 0 * h2) / 2048 == sn) by (nonlinear_arith);
    }
    if head == 1 && t >= 1 {
        assert(spec_pow2(0) == 1);
        let h1 = spec_afc_decode(data, false, n)[t - 1] as int;
        let h2: int = if t >= 2 { spec_afc_decode(data, false, n)[t - 2] as int } else { 0 };
        assert((sn * 1 * 2048 + 2048 * h1 + 0 * h2) / 2048 == sn + h1) by (nonlinear_arith);
    }
}

/// The 2-bit code of sample `t` of 2-bit AFC data: four codes to a byte,
/// the highest bits first.
pub open spec fn spec_afc2_code(data: Seq<u8>, t: int) -> u8 {
    let i = t % 16;
    let code = data[5 * (t / 16) + 1 + i / 4];
    let k = i % 4;
    if k == 0 {
        (code >> 6u8) & 3u8
    } else if k == 1 {
        (code >> 4u8) & 3u8
    } else if k == 2 {
        (code >> 2u8) & 3u8
    } else {
        code & 3u8
    }
}

/// Law: in 2-bit AFC data, each frame is a head byte and four bytes of
/// four codes each, highest bits first, the codes 0, 1, 2, 3 standing for
/// 0, 1, -2, -1. Where the head byte is 0 (no prediction) a sample is four
/// times its code's value.
pub proof fn lemma_afc2_frames(data: Seq<u8>, n: nat, t: int)
    requires
        0 <= t < n,
        data[5 * (t / 16)] == 0,
    ensures
        ({
            let c = spec_afc2_code(data, t);
            let v: int = if c == 0 { 0 } else if c == 1 { 1 } else if c == 2 { -2 } else { -1 };
            spec_afc_decode(data, true, n)[t] as int == 4 * v
        }),
{
    lemma_afc_decode_at(data, true, n, t);
    let i = t % 16;
    let code = data[5 * (t / 16) + 1 + i / 4];
    reveal_with_fuel(spec_pow2, 7);
    assert(spec_pow2(0) == 1);
    assert(spec_pow2(6) == 64 && spec_pow2(4) == 16 && spec_pow2(2) == 4);
    assert((code as nat / 64) % 4 == (code >> 6u8) & 3u8) by (bit_vector);
    assert((code as nat / 16) % 4 == (code >> 4u8) & 3u8) by (bit_vector);
    assert((code as nat / 4) % 4 == (code >> 2u8) & 3u8) by (bit_vector);
    assert((code as nat / 1) % 4 == code & 3u8) by (bit_vector);
    let c = spec_afc2_code(data, t);
    let v: int = if c == 0 { 0 } else if c == 1 { 1 } else if c == 2 { -2 } else { -1 };
    let h1: int = if t >= 1 { spec_afc_decode(data, true, n)[t - 1] as int } else { 0 };
    let h2: int = if t >= 2 { spec_afc_decode(data, true, n)[t - 2] as int } else { 0 };
    assert((v * 8192 * 1 + 0 * h1 + 0 * h2) / 2048 == 4 * v) by (nonlinear_arith)
        requires
            -2 <= v <= 1,
    ;
}

/// How many samples AFC data decodes to: the declared count when it is
/// positive, else every sample of the whole frames, and never more than
/// the whole frames hold.
pub open spec fn spec_afc_count(len: nat, frame_size: nat, num_samples: i32) -> nat {
    let available = (len / frame_size) * 16;
    let expected = if num_samples > 0 { num_samples as nat } else { available };
    if expected <= available {
        expected
    } else {
        available
    }
}

/// The result of decoding AFC data: the samples, or an error when there
/// are none.
pub open spec fn spec_decode_afc(data: Seq<u8>, two_bit: bool, num_samples: i32) -> Result<
    Seq<i16>,
    Seq<char>,
> {
    let n = spec_afc_count(data.len(), if two_bit { 5 } else { 9 }, num_samples);
    if n == 0 {
        Err(if two_bit { "Failed to decode AFC 2-bit data"@ } else { "Failed to decode AFC 4-bit data"@ })
    } else {
        Ok(spec_afc_decode(data, two_bit, n))
    }
}

/// Decodes AFC data, 4-bit or 2-bit.
fn decode_afc(data: &[u8], two_bit: bool, num_samples: i32) -> (res: Result<Vec<i16>, String>)
    requires
        (data@.len() / (if two_bit { 5nat } else { 9nat })) * 16 <= usize::MAX,
    ensures
        match res {
            Ok(v) => spec_decode_afc(data@, two_bit, num_samples) == Ok::<Seq<i16>, Seq<char>>(v@),
            Err(e) => spec_decode_afc(data@, two_bit, num_samples) == Err::<Seq<i16>, Seq<char>>(e@),
        },
{
    let fs: usize = if two_bit { 5 } else { 9 };
    let available = (data.len() / fs) * 16;
    let expected: usize = if num_samples > 0 { num_samples as usize } else { available };
    let n = if expected <= available { expected } else { available };
    let mut out: Vec<i16> = Vec::new();
    let mut t: usize = 0;
    while t < n
        invariant
            t <= n,
            n <= (data@.len() / fs as nat) * 16,
            fs == (if two_bit { 5usize } else { 9usize }),
            out@ == spec_afc_decode(data@, two_bit, t as nat),
            out@.len() == t,
        decreases n - t,
    {
        let f = t / 16;
        let i = t % 16;
        assert(f * fs + fs <= data@.len()) by (nonlinear_arith)
            requires
                t < n,
                n <= (data@.len() / fs as nat) * 16,
                f == t / 16,
                fs > 0,
        ;
        let frame = fs * f;
        let head = data[frame];
        let h1: i16 = if t >= 1 { out[t - 1] } else { 0 };
        let h2: i16 = if t >= 2 { out[t - 2] } else { 0 };
        let scale = pow2_small(head / 16);
        let sample = if two_bit {
            let code = data[frame + 1 + i / 4];
            let shift = (6 - 2 * (i % 4)) as u8;
            let p = pow2_small(shift);
            let two = ((code as i64) / p) % 4;
            let signed: i64 = if two == 0 { 0 } else if two == 1 { 1 } else if two == 2 { -2 } else { -1 };
            assert(-0x4000_0000 <= signed * 8192 * scale <= 0x4000_0000) by (nonlinear_arith)
                requires
                    -2 <= signed <= 1,
                    1 <= scale <= 32768,
            ;
            afc_predict(signed * 8192 * scale, head % 16, h1, h2)
        } else {
            let code = data[frame + 1 + i / 2];
            let nibble: i64 = if i % 2 == 0 { (code / 16) as i64 } else { (code % 16) as i64 };
            let signed = if nibble >= 8 { nibble - 16 } else { nibble };
            assert(-0x4000_0000 <= signed * scale * 2048 <= 0x4000_0000) by (nonlinear_arith)
                requires
                    -8 <= signed <= 7,
                    1 <= scale <= 32768,
            ;
            afc_predict(signed * scale * 2048, head % 16, h1, h2)
        };
        out.push(sample);
        t = t + 1;
    }
    if n == 0 {
        if two_bit {
            return Err(to_string("Failed to decode AFC 2-bit data"));
        } else {
            return Err(to_string("Failed to decode AFC 4-bit data"));
        }
    }
    Ok(out)
}

/// Decodes 4-bit AFC data.
fn decode_afc_4bit(data: &[u8], num_samples: i32) -> (res: Result<Vec<i16>, String>)
    requires
        (data@.len() / 9) * 16 <= usize::MAX,
    ensures
        match res {
            Ok(v) => spec_decode_afc(data@, false, num_samples) == Ok::<Seq<i16>, Seq<char>>(v@),
            Err(e) => spec_decode_afc(data@, false, num_samples) == Err::<Seq<i16>, Seq<char>>(e@),
        },
{
    decode_afc(data, false, num_samples)
}

/// Decodes 2-bit AFC data.
fn decode_afc_2bit(data: &[u8], num_samples: i32) -> (res: Result<Vec<i16>, String>)
    requires
        (data@.len() / 5) * 16 <= usize::MAX,
    ensures
        match res {
            Ok(v) => spec_decode_afc(data@, true, num_samples) == Ok::<Seq<i16>, Seq<char>>(v@),
            Err(e) => spec_decode_afc(data@, true, num_samples) == Err::<Seq<i16>, Seq<char>>(e@),
        },
{
    decode_afc(data, true, num_samples)
}

/// 8-bit PCM: each signed byte, scaled to 16 bits; as many as declared
/// when that is positive, else one per byte, never more than the bytes.
pub open spec fn spec_decode_pcm8(data: Seq<u8>, num_samples: i32) -> Seq<i16> {
    let expected = if num_samples > 0 { num_samples as nat } else { data.len() };
    let n = if expected <= data.len() { expected } else { data.len() };
    Seq::new(n, |t: int| ((data[t] as i8) as int * 256) as i16)
}

/// Law: 8-bit PCM holds as many samples as declared where there are that
/// many bytes (one per byte where none is declared), never more than the
/// bytes, and each sample is its byte as the high byte of a 16-bit word
/// whose low byte is zero.
pub proof fn lemma_pcm8_samples(data: Seq<u8>, num_samples: i32)
    ensures
        ({
            let s = spec_decode_pcm8(data, num_samples);
            &&& s.len() <= data.len()
            &&& (0 < num_samples && num_samples as int <= data.len()) ==> s.len() == num_samples as int
            &&& num_samples <= 0 ==> s.len() == data.len()
            &&& forall|t: int| 0 <= t < s.len() ==> (#[trigger] s[t]) as u16 == (data[t] as u16) * 256
        }),
{
    let s = spec_decode_pcm8(data, num_samples);
    assert forall|t: int| 0 <= t < s.len() implies (#[trigger] s[t]) as u16 == (data[t] as u16) * 256 by {
        let b = data[t];
        assert((((b as i8) as int * 256) as i16) as u16 == (b as u16) * 256) by (bit_vector);
    }
}

/// Decodes 8-bit PCM.
fn decode_pcm8(data: &[u8], num_samples: i32) -> (res: Vec<i16>)
    ensures
        res@ == spec_decode_pcm8(data@, num_samples),
{
    let expected: usize = if num_samples > 0 { num_samples as usize } else { data.len() };
    let n = if expected <= data.len() { expected } else { data.len() };
    let mut out: Vec<i16> = Vec::new();
    let mut t: usize = 0;
    while t < n
        invariant
            t <= n <= data@.len(),
            out@ == Seq::new(t as nat, |k: int| ((data@[k] as i8) as int * 256) as i16),
        decreases n - t,
    {
        let b = data[t] as i8;
        out.push((b as i16) * 256);
        t = t + 1;
        assert(out@ =~= Seq::new(t as nat, |k: int| ((data@[k] as i8) as int * 256) as i16));
    }
    assert(out@ =~= spec_decode_pcm8(data@, num_samples));
    out
}

/// 16-bit big-endian PCM: as many samples as declared when that is
/// positive, else one per byte pair, never more than the whole pairs.
pub open spec fn spec_decode_pcm16be(data: Seq<u8>, num_samples: i32) -> Seq<i16> {
    let pairs = data.len() / 2;
    let expected = if num_samples > 0 { num_samples as nat } else { pairs };
    let n = if expected <= pairs { expected } else { pairs };
    Seq::new(n, |t: int| (data[2 * t] as int * 256 + data[2 * t + 1] as int) as i16)
}

/// Law: 16-bit PCM holds as many samples as declared where the data has
/// that many whole byte pairs (every whole pair where none is declared),
/// never more than the whole pairs, and each sample is the big-endian
/// 16-bit word of its pair: the first byte is the high byte.
pub proof fn lemma_pcm16be_samples(data: Seq<u8>, num_samples: i32)
    ensures
        ({
            let s = spec_decode_pcm16be(data, num_samples);
            &&& s.len() <= data.len() / 2
            &&& (0 < num_samples && num_samples as int <= data.len() / 2) ==> s.len() == num_samples as int
            &&& num_samples <= 0 ==> s.len() == data.len() / 2
            &&& forall|t: int| 0 <= t < s.len() ==> (#[trigger] s[t]) as u16 == crate::utils::spec_read_u16_be(data, 2 * t)
        }),
{
    let s = spec_decode_pcm16be(data, num_samples);
    assert forall|t: int| 0 <= t < s.len() implies (#[trigger] s[t]) as u16 == crate::utils::spec_read_u16_be(data, 2 * t) by {
        let b0 = data[2 * t];
        let b1 = data[2 * t + 1];
        assert((((b0 as int * 256 + b1 as int) as i16) as u16) == ((b0 as int * 256 + b1 as int) as u16)) by (bit_vector);
    }
}

/// Decodes 16-bit big-endian PCM.
fn decode_pcm16be(data: &[u8], num_samples: i32) -> (res: Vec<i16>)
    ensures
        res@ == spec_decode_pcm16be(data@, num_samples),
{
    let pairs = data.len() / 2;
    let expected: usize = if num_samples > 0 { num_samples as usize } else { pairs };
    let n = if expected <= pairs { expected } else { pairs };
    let mut out: Vec<i16> = Vec::new();
    let mut t: usize = 0;
    while t < n
        invariant
            t <= n <= data@.len() / 2,
            out@ == Seq::new(
                t as nat,
                |k: int| (data@[2 * k] as int * 256 + data@[2 * k + 1] as int) as i16,
            ),
        decreases n - t,
    {
        let dl = data.len();
        assert(2 * t + 1 < dl);
        let v: u16 = (data[2 * t] as u16) * 256 + data[2 * t + 1] as u16;
        out.push(#[verifier::truncate] (v as i16));
        t = t + 1;
        assert(out@ =~= Seq::new(
            t as nat,
            |k: int| (data@[2 * k] as int * 256 + data@[2 * k + 1] as int) as i16,
        ));
    }
    assert(out@ =~= spec_decode_pcm16be(data@, num_samples));
    out
}

/// The samples of wave data by the wave's format.
pub open spec fn spec_decode_wave(data: Seq<u8>, wave: AwWaveInfo) -> Result<Seq<i16>, Seq<char>> {
    if wave.format == 0 {
        spec_decode_afc(data, false, wave.num_samples)
    } else if wave.format == 1 {
        spec_decode_afc(data, true, wave.num_samples)
    } else if wave.format == 2 {
        Ok(spec_decode_pcm8(data, wave.num_samples))
    } else if wave.format == 3 {
        Ok(spec_decode_pcm16be(data, wave.num_samples))
    } else {
        Err("Unsupported AW wave format: "@ + spec_decimal(wave.format as nat))
    }
}

/// Law: wave format 2 is 8-bit PCM, each byte the high byte of its
/// sample; format 3 is 16-bit big-endian PCM, each sample the big-endian
/// word of its byte pair; formats past 3 are refused.
pub proof fn lemma_decode_wave_pcm(data: Seq<u8>, wave: AwWaveInfo)
    ensures
        wave.format == 2 ==> (spec_decode_wave(data, wave) matches Ok(s) && s.len() <= data.len() && forall|t: int|
            0 <= t < s.len() ==> (#[trigger] s[t]) as u16 == (data[t] as u16) * 256),
        wave.format == 3 ==> (spec_decode_wave(data, wave) matches Ok(s) && s.len() <= data.len() / 2 && forall|t: int|
            0 <= t < s.len() ==> (#[trigger] s[t]) as u16 == crate::utils::spec_read_u16_be(data, 2 * t)),
        wave.format > 3 ==> spec_decode_wave(data, wave) is Err,
{
    lemma_pcm8_samples(data, wave.num_samples);
    lemma_pcm16be_samples(data, wave.num_samples);
}

/// Whether wave data is small enough for its sample count to be reckoned
/// in memory addresses.
pub open spec fn spec_wave_data_fits(len: nat) -> bool {
    (len / 5) * 16 <= usize::MAX
}

/// Decodes wave data into 16-bit samples.
fn decode_wave_data_to_pcm16(data: &[u8], wave: &AwWaveInfo) -> (res: Result<Vec<i16>, String>)
    requires
        spec_wave_data_fits(data@.len()),
    ensures
        match res {
            Ok(v) => spec_decode_wave(data@, *wave) == Ok::<Seq<i16>, Seq<char>>(v@),
            Err(e) => spec_decode_wave(data@, *wave) == Err::<Seq<i16>, Seq<char>>(e@),
        },
{
    if wave.format == 0 {
        decode_afc_4bit(data, wave.num_samples)
    } else if wave.format == 1 {
        decode_afc_2bit(data, wave.num_samples)
    } else if wave.format == 2 {
        Ok(decode_pcm8(data, wave.num_samples))
    } else if wave.format == 3 {
        Ok(decode_pcm16be(data, wave.num_samples))
    } else {
        let mut m = to_string("Unsupported AW wave format: ");
        let d = decimal_string(wave.format as u64);
        push_str(&mut m, d.as_str());
        Err(m)
    }
}

/// The "smpl" chunk of a looping WAV: one forward loop over the inclusive
/// sample range.
pub open spec fn spec_smpl_chunk(sample_rate: u32, loop_start: u32, loop_end_inclusive: u32) -> Seq<u8> {
    let period: u32 = if sample_rate == 0 { 0 } else { (1_000_000_000int / sample_rate as int) as u32 };
    seq![0x73u8, 0x6d, 0x70, 0x6c] + spec_u32_le_bytes(60) + spec_u32_le_bytes(0) + spec_u32_le_bytes(0)
        + spec_u32_le_bytes(period) + spec_u32_le_bytes(60) + spec_u32_le_bytes(0)
        + spec_u32_le_bytes(0) + spec_u32_le_bytes(0) + spec_u32_le_bytes(1) + spec_u32_le_bytes(0)
        + spec_u32_le_bytes(0) + spec_u32_le_bytes(0) + spec_u32_le_bytes(loop_start)
        + spec_u32_le_bytes(loop_end_inclusive) + spec_u32_le_bytes(0) + spec_u32_le_bytes(0)
}

/// Builds the "smpl" chunk of a looping WAV.
fn build_smpl_chunk(sample_rate: u32, loop_start: u32, loop_end_inclusive: u32) -> (res: Vec<u8>)
    ensures
        res@ == spec_smpl_chunk(sample_rate, loop_start, loop_end_inclusive),
        res@.len() == 68,
{
    let mut out: Vec<u8> = Vec::new();
    out.push(0x73);
    out.push(0x6d);
    out.push(0x70);
    out.push(0x6c);
    push_u32_le(&mut out, 60);
    let period: u32 = if sample_rate == 0 { 0 } else { (1_000_000_000u64 / sample_rate as u64) as u32 };
    push_u32_le(&mut out, 0);
    push_u32_le(&mut out, 0);
    push_u32_le(&mut out, period);
    push_u32_le(&mut out, 60);
    push_u32_le(&mut out, 0);
    push_u32_le(&mut out, 0);
    push_u32_le(&mut out, 0);
    push_u32_le(&mut out, 1);
    push_u32_le(&mut out, 0);
    push_u32_le(&mut out, 0);
    push_u32_le(&mut out, 0);
    push_u32_le(&mut out, loop_start);
    push_u32_le(&mut out, loop_end_inclusive);
    push_u32_le(&mut out, 0);
    push_u32_le(&mut out, 0);
    assert(out@ =~= spec_smpl_chunk(sample_rate, loop_start, loop_end_inclusive));
    out
}

/// The little-endian bytes of the samples.
pub open spec fn spec_samples_le(pcm: Seq<i16>) -> Seq<u8>
    decreases pcm.len(),
{
    if pcm.len() == 0 {
        Seq::empty()
    } else {
        spec_samples_le(pcm.drop_last()) + spec_u16_le_bytes(pcm.last() as u16)
    }
}

/// Whether a WAV of `n` samples, with or without a loop, has a size its
/// 32-bit RIFF field can count.
pub open spec fn spec_wav_fits(n: nat, looping: bool) -> bool {
    2 * n <= usize::MAX && 36 + (2 * n) % 0x1_0000_0000 + (if looping { 68int } else { 0 })
        <= u32::MAX
}

/// The 44 header bytes of a mono 16-bit PCM WAV: "RIFF", the size, "WAVE",
/// the "fmt " chunk, and the head of the "data" chunk.
pub open spec fn spec_wav_header(riff: u32, sample_rate: u32, byte_rate: u32, data_size: u32) -> Seq<u8> {
    seq![0x52u8, 0x49, 0x46, 0x46] + spec_u32_le_bytes(riff) + seq![0x57u8, 0x41, 0x56, 0x45] + seq![
        0x66u8,
        0x6d,
        0x74,
        0x20,
    ] + spec_u32_le_bytes(16) + spec_u16_le_bytes(1) + spec_u16_le_bytes(1) + spec_u32_le_bytes(
        sample_rate,
    ) + spec_u32_le_bytes(byte_rate) + spec_u16_le_bytes(2) + spec_u16_le_bytes(16) + seq![
        0x64u8,
        0x61,
        0x74,
        0x61,
    ] + spec_u32_le_bytes(data_size)
}

/// Builds the header bytes of a mono 16-bit PCM WAV.
fn wav_header(riff: u32, sample_rate: u32, byte_rate: u32, data_size: u32) -> (res: Vec<u8>)
    ensures
        res@ == spec_wav_header(riff, sample_rate, byte_rate, data_size),
{
    let mut out: Vec<u8> = Vec::new();
    out.push(0x52);
    out.push(0x49);
    out.push(0x46);
    out.push(0x46);
    push_u32_le(&mut out, riff);
    out.push(0x57);
    out.push(0x41);
    out.push(0x56);
    out.push(0x45);
    out.push(0x66);
    out.push(0x6d);
    out.push(0x74);
    out.push(0x20);
    push_u32_le(&mut out, 16);
    push_u16_le(&mut out, 1);
    push_u16_le(&mut out, 1);
    push_u32_le(&mut out, sample_rate);
    push_u32_le(&mut out, byte_rate);
    push_u16_le(&mut out, 2);
    push_u16_le(&mut out, 16);
    out.push(0x64);
    out.push(0x61);
    out.push(0x74);
    out.push(0x61);
    push_u32_le(&mut out, data_size);
    assert(out@ =~= spec_wav_header(riff, sample_rate, byte_rate, data_size));
    out
}

/// A mono 16-bit PCM WAV: the RIFF header, the "fmt " chunk, the "data"
/// chunk, and a "smpl" chunk when the loop is on and not empty.
pub open spec fn spec_wav_mono16(
    pcm: Seq<i16>,
    sample_rate: u32,
    loop_enabled: bool,
    loop_start: u32,
    loop_end: u32,
) -> Result<Seq<u8>, Seq<char>> {
    if sample_rate as int * 2 > u32::MAX {
        Err("WAV byte rate overflow"@)
    } else {
        let data_size = ((2 * pcm.len()) % 0x1_0000_0000) as u32;
        let looping = loop_enabled && loop_end > loop_start;
        let smpl = if looping {
            spec_smpl_chunk(sample_rate, loop_start, (loop_end - 1) as u32)
        } else {
            Seq::empty()
        };
        let riff = (36 + data_size + smpl.len()) as u32;
        Ok(
            spec_wav_header(riff, sample_rate, (sample_rate * 2) as u32, data_size)
                + spec_samples_le(pcm) + smpl,
        )
    }
}

/// The little-endian bytes of the samples: two per sample, in order.
proof fn lemma_samples_le(pcm: Seq<i16>)
    ensures
        spec_samples_le(pcm).len() == 2 * pcm.len(),
        forall|t: int|
            0 <= t < pcm.len() ==> spec_samples_le(pcm).subrange(2 * t, 2 * t + 2) == spec_u16_le_bytes(
                #[trigger] pcm[t] as u16,
            ),
    decreases pcm.len(),
{
    if pcm.len() > 0 {
        let init = pcm.drop_last();
        lemma_samples_le(init);
        let all = spec_samples_le(pcm);
        let last = spec_u16_le_bytes(pcm.last() as u16);
        assert(all == spec_samples_le(init) + last);
        assert forall|t: int| 0 <= t < pcm.len() implies all.subrange(2 * t, 2 * t + 2) == spec_u16_le_bytes(
            #[trigger] pcm[t] as u16,
        ) by {
            if t < init.len() {
                assert(init[t] == pcm[t]);
                assert(all.subrange(2 * t, 2 * t + 2) =~= spec_samples_le(init).subrange(2 * t, 2 * t + 2));
            } else {
                assert(all.subrange(2 * t, 2 * t + 2) =~= last);
            }
        }
    }
}

/// Where the fields of a WAV header lie.
proof fn lemma_wav_header_fields(riff: u32, sample_rate: u32, byte_rate: u32, data_size: u32)
    ensures
        ({
            let h = spec_wav_header(riff, sample_rate, byte_rate, data_size);
            &&& h.len() == 44
            &&& h.subrange(0, 4) == seq![0x52u8, 0x49, 0x46, 0x46]
            &&& h.subrange(4, 8) == spec_u32_le_bytes(riff)
            &&& h.subrange(8, 12) == seq![0x57u8, 0x41, 0x56, 0x45]
            &&& h.subrange(12, 16) == seq![0x66u8, 0x6d, 0x74, 0x20]
            &&& h.subrange(20, 22) == spec_u16_le_bytes(1)
            &&& h.subrange(22, 24) == spec_u16_le_bytes(1)
            &&& h.subrange(24, 28) == spec_u32_le_bytes(sample_rate)
            &&& h.subrange(28, 32) == spec_u32_le_bytes(byte_rate)
            &&& h.subrange(32, 34) == spec_u16_le_bytes(2)
            &&& h.subrange(34, 36) == spec_u16_le_bytes(16)
            &&& h.subrange(36, 40) == seq![0x64u8, 0x61, 0x74, 0x61]
            &&& h.subrange(40, 44) == spec_u32_le_bytes(data_size)
        }),
{
    let h = spec_wav_header(riff, sample_rate, byte_rate, data_size);
    assert(h.subrange(0, 4) =~= seq![0x52u8, 0x49, 0x46, 0x46]);
    assert(h.subrange(4, 8) =~= spec_u32_le_bytes(riff));
    assert(h.subrange(8, 12) =~= seq![0x57u8, 0x41, 0x56, 0x45]);
    assert(h.subrange(12, 16) =~= seq![0x66u8, 0x6d, 0x74, 0x20]);
    assert(h.subrange(20, 22) =~= spec_u16_le_bytes(1));
    assert(h.subrange(22, 24) =~= spec_u16_le_bytes(1));
    assert(h.subrange(24, 28) =~= spec_u32_le_bytes(sample_rate));
    assert(h.subrange(28, 32) =~= spec_u32_le_bytes(byte_rate));
    assert(h.subrange(32, 34) =~= spec_u16_le_bytes(2));
    assert(h.subrange(34, 36) =~= spec_u16_le_bytes(16));
    assert(h.subrange(36, 40) =~= seq![0x64u8, 0x61, 0x74, 0x61]);
    assert(h.subrange(40, 44) =~= spec_u32_le_bytes(data_size));
}

/// Where the fields of a "smpl" chunk lie.
proof fn lemma_smpl_fields(sample_rate: u32, loop_start: u32, loop_end_inclusive: u32)
    ensures
        ({
            let c = spec_smpl_chunk(sample_rate, loop_start, loop_end_inclusive);
            &&& c.len() == 68
            &&& c.subrange(0, 4) == seq![0x73u8, 0x6d, 0x70, 0x6c]
            &&& c.subrange(52, 56) == spec_u32_le_bytes(loop_start)
            &&& c.subrange(56, 60) == spec_u32_le_bytes(loop_end_inclusive)
        }),
{
    let c = spec_smpl_chunk(sample_rate, loop_start, loop_end_inclusive);
    assert(c.subrange(0, 4) =~= seq![0x73u8, 0x6d, 0x70, 0x6c]);
    assert(c.subrange(52, 56) =~= spec_u32_le_bytes(loop_start));
    assert(c.subrange(56, 60) =~= spec_u32_le_bytes(loop_end_inclusive));
}

/// Law: a mono 16-bit WAV of samples is laid out as the format has it:
/// "RIFF" and the size of what follows, "WAVE", one channel at the sample
/// rate with two bytes per sample of 16 bits, a "data" chunk of two bytes
/// per sample holding each sample little-endian in order, then, for a
/// loop that is on and not empty, a "smpl" chunk whose loop runs from the
/// loop start to the sample before the loop end.
#[verifier::spinoff_prover]
#[verifier::rlimit(60)]
pub proof fn lemma_wav_layout(pcm: Seq<i16>, sample_rate: u32, loop_enabled: bool, loop_start: u32, loop_end: u32)
    requires
        sample_rate as int * 2 <= u32::MAX,
        2 * pcm.len() < 0x1_0000_0000,
        spec_wav_fits(pcm.len(), loop_enabled && loop_end > loop_start),
    ensures
        spec_wav_mono16(pcm, sample_rate, loop_enabled, loop_start, loop_end) matches Ok(w) && {
            let n = pcm.len() as int;
            let looping = loop_enabled && loop_end > loop_start;
            &&& w.len() == 44 + 2 * n + if looping { 68int } else { 0 }
            &&& w.subrange(0, 4) == seq![0x52u8, 0x49, 0x46, 0x46]
            &&& w.subrange(4, 8) == spec_u32_le_bytes((w.len() - 8) as u32)
            &&& w.subrange(8, 12) == seq![0x57u8, 0x41, 0x56, 0x45]
            &&& w.subrange(12, 16) == seq![0x66u8, 0x6d, 0x74, 0x20]
            &&& w.subrange(20, 22) == spec_u16_le_bytes(1)
            &&& w.subrange(22, 24) == spec_u16_le_bytes(1)
            &&& w.subrange(24, 28) == spec_u32_le_bytes(sample_rate)
            &&& w.subrange(28, 32) == spec_u32_le_bytes((2 * sample_rate) as u32)
            &&& w.subrange(32, 34) == spec_u16_le_bytes(2)
            &&& w.subrange(34, 36) == spec_u16_le_bytes(16)
            &&& w.subrange(36, 40) == seq![0x64u8, 0x61, 0x74, 0x61]
            &&& w.subrange(40, 44) == spec_u32_le_bytes((2 * n) as u32)
            &&& forall|t: int| 0 <= t < n ==> w.subrange(44 + 2 * t, 46 + 2 * t) == spec_u16_le_bytes(#[trigger] pcm[t] as u16)
            &&& looping ==> w.subrange(44 + 2 * n, 48 + 2 * n) == seq![0x73u8, 0x6d, 0x70, 0x6c]
            &&& looping ==> w.subrange(44 + 2 * n + 52, 44 + 2 * n + 56) == spec_u32_le_bytes(loop_start)
            &&& looping ==> w.subrange(44 + 2 * n + 56, 44 + 2 * n + 60) == spec_u32_le_bytes((loop_end - 1) as u32)
        },
{
    let n = pcm.len() as int;
    let looping = loop_enabled && loop_end > loop_start;
    let data_size = ((2 * pcm.len()) % 0x1_0000_0000) as u32;
    assert(data_size == 2 * n);
    let smpl = if looping {
        spec_smpl_chunk(sample_rate, loop_start, (loop_end - 1) as u32)
    } else {
        Seq::empty()
    };
    let riff = (36 + data_size + smpl.len()) as u32;
    let h = spec_wav_header(riff, sample_rate, (sample_rate * 2) as u32, data_size);
    let body = spec_samples_le(pcm);
    let w = h + body + smpl;
    lemma_samples_le(pcm);
    lemma_wav_header_fields(riff, sample_rate, (sample_rate * 2) as u32, data_size);
    assert(w.len() == 44 + 2 * n + smpl.len());
    assert(riff == w.len() - 8);
    assert forall|a: int, b: int| 0 <= a <= b <= 44 implies #[trigger] w.subrange(a, b) == h.subrange(a, b) by {
        assert(w.subrange(a, b) =~= h.subrange(a, b));
    }
    assert(w.subrange(0, 4) == h.subrange(0, 4));
    assert(w.subrange(4, 8) == h.subrange(4, 8));
    assert(w.subrange(8, 12) == h.subrange(8, 12));
    assert(w.subrange(12, 16) == h.subrange(12, 16));
    assert(w.subrange(20, 22) == h.subrange(20, 22));
    assert(w.subrange(22, 24) == h.subrange(22, 24));
    assert(w.subrange(24, 28) == h.subrange(24, 28));
    assert(w.subrange(28, 32) == h.subrange(28, 32));
    assert(w.subrange(32, 34) == h.subrange(32, 34));
    assert(w.subrange(34, 36) == h.subrange(34, 36));
    assert(w.subrange(36, 40) == h.subrange(36, 40));
    assert(w.subrange(40, 44) == h.subrange(40, 44));
    assert forall|t: int| 0 <= t < n implies w.subrange(44 + 2 * t, 46 + 2 * t) == spec_u16_le_bytes(
        #[trigger] pcm[t] as u16,
    ) by {
        assert(w.subrange(44 + 2 * t, 46 + 2 * t) =~= body.subrange(2 * t, 2 * t + 2));
    }
    if looping {
        lemma_smpl_fields(sample_rate, loop_start, (loop_end - 1) as u32);
        assert(w.subrange(44 + 2 * n, 48 + 2 * n) =~= smpl.subrange(0, 4));
        assert(w.subrange(44 + 2 * n + 52, 44 + 2 * n + 56) =~= smpl.subrange(52, 56));
        assert(w.subrange(44 + 2 * n + 56, 44 + 2 * n + 60) =~= smpl.subrange(56, 60));
    }
}

/// Builds a mono 16-bit PCM WAV.
fn build_wav_mono16(
    pcm: &[i16],
    sample_rate: u32,
    loop_enabled: bool,
    loop_start: u32,
    loop_end: u32,
) -> (res: Result<Vec<u8>, String>)
    requires
        spec_wav_fits(pcm@.len(), loop_enabled && loop_end > loop_start),
    ensures
        match res {
            Ok(v) => spec_wav_mono16(pcm@, sample_rate, loop_enabled, loop_start, loop_end) == Ok::<
                Seq<u8>,
                Seq<char>,
            >(v@),
            Err(e) => spec_wav_mono16(pcm@, sample_rate, loop_enabled, loop_start, loop_end)
                == Err::<Seq<u8>, Seq<char>>(e@),
        },
{
    let byte_rate = match sample_rate.checked_mul(2) {
        Some(v) => v,
        None => {
            return Err(to_string("WAV byte rate overflow"));
        },
    };
    let data_size = crate::utils::low32(pcm.len() * 2);
    let looping = loop_enabled && loop_end > loop_start;
    let smpl: Vec<u8> = if looping {
        build_smpl_chunk(sample_rate, loop_start, loop_end - 1)
    } else {
        Vec::new()
    };
    let smpl_size: u32 = if looping { 68 } else { 0 };
    let riff = 36 + data_size + smpl_size;
    let mut out = wav_header(riff, sample_rate, byte_rate, data_size);
    let ghost head = out@;
    let mut k: usize = 0;
    assert(pcm@.take(0) =~= Seq::<i16>::empty());
    while k < pcm.len()
        invariant
            k <= pcm@.len(),
            out@ == head + spec_samples_le(pcm@.take(k as int)),
        decreases pcm@.len() - k,
    {
        assert(pcm@.take(k + 1).drop_last() =~= pcm@.take(k as int));
        push_u16_le(&mut out, pcm[k] as u16);
        assert(out@ =~= head + spec_samples_le(pcm@.take(k + 1)));
        k = k + 1;
    }
    assert(pcm@.take(k as int) =~= pcm@);
    extend_vec(&mut out, &smpl);
    Ok(out)
}

/// Appends the bytes of `b`.
fn extend_vec(a: &mut Vec<u8>, b: &Vec<u8>)
    ensures
        final(a)@ == old(a)@ + b@,
{
    crate::utils::extend_bytes(a, b.as_slice());
}

/// What a wave's data becomes as a WAV file, given the sample rate read
/// from its header: decoding comes first, then the rate, then the build.
pub open spec fn spec_wave_data_to_wav(
    data: Seq<u8>,
    wave: AwWaveInfo,
    sample_rate: Result<u32, Seq<char>>,
) -> Result<Seq<u8>, Seq<char>> {
    match spec_decode_wave(data, wave) {
        Err(e) => Err(e),
        Ok(pcm) => match sample_rate {
            Err(e) => Err(e),
            Ok(rate) => spec_wav_mono16(
                pcm,
                rate,
                wave.loop_flag_raw == -1,
                if wave.loop_start >= 0 { wave.loop_start as u32 } else { 0 },
                if wave.loop_end >= 0 { wave.loop_end as u32 } else { 0 },
            ),
        },
    }
}

/// The views of a result carrying a string error.
pub open spec fn result_view(r: Result<u32, String>) -> Result<u32, Seq<char>> {
    match r {
        Ok(v) => Ok(v),
        Err(e) => Err(e@),
    }
}

/// Whether a wave's data decodes to a WAV whose size fits its header.
pub open spec fn spec_wave_wav_fits(data: Seq<u8>, wave: AwWaveInfo) -> bool {
    &&& spec_wave_data_fits(data.len())
    &&& (spec_decode_wave(data, wave) matches Ok(pcm) ==> spec_wav_fits(
        pcm.len(),
        wave.loop_flag_raw == -1 && (if wave.loop_end >= 0 { wave.loop_end as u32 } else { 0 }) > (
        if wave.loop_start >= 0 { wave.loop_start as u32 } else { 0 }),
    ))
}

/// Turns a wave's data into a WAV file. The sample rate is the one its
/// header's float field gives, or why that field is unusable.
pub fn wave_data_to_wav_bytes(
    wave_data: &[u8],
    wave: &AwWaveInfo,
    sample_rate: Result<u32, String>,
) -> (res: Result<Vec<u8>, String>)
    requires
        spec_wave_wav_fits(wave_data@, *wave),
    ensures
        match res {
            Ok(v) => spec_wave_data_to_wav(wave_data@, *wave, result_view(sample_rate)) == Ok::<
                Seq<u8>,
                Seq<char>,
            >(v@),
            Err(e) => spec_wave_data_to_wav(wave_data@, *wave, result_view(sample_rate)) == Err::<
                Seq<u8>,
                Seq<char>,
            >(e@),
        },
{
    let pcm = match decode_wave_data_to_pcm16(wave_data, wave) {
        Ok(p) => p,
        Err(e) => {
            return Err(e);
        },
    };
    let rate = match sample_rate {
        Ok(r) => r,
        Err(e) => {
            return Err(e);
        },
    };
    let ls: u32 = if wave.loop_start >= 0 { wave.loop_start as u32 } else { 0 };
    let le: u32 = if wave.loop_end >= 0 { wave.loop_end as u32 } else { 0 };
    build_wav_mono16(pcm.as_slice(), rate, wave.loop_flag_raw == -1, ls, le)
}

/// Whether a wave, taken from its bank, decodes to a WAV whose size fits
/// its header.
pub open spec fn spec_bank_wave_fits(aw: Seq<u8>, wave: AwWaveInfo) -> bool {
    spec_slice_wave(aw, wave.stream_offset, wave.stream_size) matches Ok(d) ==> spec_wave_wav_fits(
        d,
        wave,
    )
}

/// Takes a wave out of its bank and turns it into a WAV file.
pub fn wave_to_wav_bytes(aw_data: &[u8], wave: &AwWaveInfo, sample_rate: Result<u32, String>) -> (res: Result<
    Vec<u8>,
    String,
>)
    requires
        spec_bank_wave_fits(aw_data@, *wave),
    ensures
        match res {
            Ok(v) => spec_slice_wave(aw_data@, wave.stream_offset, wave.stream_size) is Ok
                && spec_wave_data_to_wav(
                spec_slice_wave(aw_data@, wave.stream_offset, wave.stream_size)->Ok_0,
                *wave,
                result_view(sample_rate),
            ) == Ok::<Seq<u8>, Seq<char>>(v@),
            Err(e) => match spec_slice_wave(aw_data@, wave.stream_offset, wave.stream_size) {
                Err(se) => se == e@,
                Ok(d) => spec_wave_data_to_wav(d, *wave, result_view(sample_rate)) == Err::<
                    Seq<u8>,
                    Seq<char>,
                >(e@),
            },
        },
{
    let data = match slice_wave_data(aw_data, wave.stream_offset, wave.stream_size) {
        Ok(d) => d,
        Err(e) => {
            return Err(e);
        },
    };
    wave_data_to_wav_bytes(data.as_slice(), wave, sample_rate)
}

} // verus!
