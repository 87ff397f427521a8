//! BAA audio archives: the AW wave banks they describe.
//!
//! A BAA block is framed by "AA_<" and ">_AA" and holds a stream of tagged
//! commands. Most are skipped; "ws  " points at a WSYS wave system whose
//! WINF table lists AW files and their waves, and "baac" points at nested
//! BAA blocks.

use vstd::prelude::*;
use crate::text::{
    spec_hex_upper, hex_upper_string, push_str, to_string, spec_utf8_lossy, utf8_lossy,
    spec_debug_quoted, debug_quoted, str_eq, spec_path_file_name, path_file_name,
};
use crate::utils::copy_range;

verus! {

/// One wave of an AW file.
#[derive(Clone, Copy)]
pub struct AwWaveInfo {
    pub index: usize,
    pub format: u8,
    pub sample_rate_bits: u32,
    pub stream_offset: u32,
    pub stream_size: u32,
    pub loop_flag_raw: i32,
    pub loop_start: i32,
    pub loop_end: i32,
    pub num_samples: i32,
}

/// An AW file as a BAA describes it.
pub struct AwFileInfo {
    pub aw_name: String,
    pub bank_id: u32,
    pub flags: u32,
    pub waves: Vec<AwWaveInfo>,
}

/// An AW file, as plain values.
pub struct AwFileModel {
    pub aw_name: Seq<char>,
    pub bank_id: u32,
    pub flags: u32,
    pub waves: Seq<AwWaveInfo>,
}

impl View for AwFileInfo {
    type V = AwFileModel;

    open spec fn view(&self) -> AwFileModel {
        AwFileModel {
            aw_name: self.aw_name@,
            bank_id: self.bank_id,
            flags: self.flags,
            waves: self.waves@,
        }
    }
}

/// The AW files of a BAA archive.
pub struct BaaArchive {
    pub aw_files: Vec<AwFileInfo>,
}

/// The views of a list of AW files.
pub open spec fn aw_files_view(v: Seq<AwFileInfo>) -> Seq<AwFileModel> {
    v.map_values(|a: AwFileInfo| a@)
}

impl View for BaaArchive {
    type V = Seq<AwFileModel>;

    open spec fn view(&self) -> Seq<AwFileModel> {
        aw_files_view(self.aw_files@)
    }
}

/// Four tag bytes.
pub open spec fn spec_tag(a: u8, b: u8, c: u8, d: u8) -> Seq<u8> {
    seq![a, b, c, d]
}

/// The message of a read past the end of the data.
pub open spec fn spec_oob(offset: nat, len: nat) -> Seq<char> {
    "Out-of-bounds read at 0x"@ + spec_hex_upper(offset) + " for 0x"@ + spec_hex_upper(len)
        + " bytes"@
}

/// A checked read of a big-endian word.
pub open spec fn spec_rd32(data: Seq<u8>, offset: nat) -> Result<u32, Seq<char>> {
    if offset + 4 <= data.len() {
        Ok(crate::utils::spec_read_u32_be(data, offset as int))
    } else {
        Err(spec_oob(offset, 4))
    }
}

/// Builds the message of a read past the end of the data.
fn oob_message(offset: usize, len: usize) -> (res: String)
    ensures
        res@ == spec_oob(offset as nat, len as nat),
{
    let mut m = to_string("Out-of-bounds read at 0x");
    let a = hex_upper_string(offset as u64);
    push_str(&mut m, a.as_str());
    push_str(&mut m, " for 0x");
    let b = hex_upper_string(len as u64);
    push_str(&mut m, b.as_str());
    push_str(&mut m, " bytes");
    m
}

/// Checks that `len` bytes can be read at `offset`.
fn ensure_bytes(data: &[u8], offset: usize, len: usize) -> (res: Result<(), String>)
    ensures
        match res {
            Ok(()) => offset + len <= data@.len(),
            Err(e) => offset + len > data@.len() && e@ == spec_oob(offset as nat, len as nat),
        },
{
    if offset <= data.len() && len <= data.len() - offset {
        Ok(())
    } else {
        Err(oob_message(offset, len))
    }
}

/// Reads a big-endian word, or reports a read past the end.
fn read_u32_be(data: &[u8], offset: usize) -> (res: Result<u32, String>)
    ensures
        match res {
            Ok(v) => spec_rd32(data@, offset as nat) == Ok::<u32, Seq<char>>(v),
            Err(e) => spec_rd32(data@, offset as nat) == Err::<u32, Seq<char>>(e@),
        },
{
    match ensure_bytes(data, offset, 4) {
        Ok(()) => Ok(crate::utils::read_u32_be(data, offset)),
        Err(e) => Err(e),
    }
}

/// Reads a big-endian word as a signed value.
fn read_i32_be(data: &[u8], offset: usize) -> (res: Result<i32, String>)
    ensures
        match res {
            Ok(v) => spec_rd32(data@, offset as nat) is Ok && v == spec_rd32(
                data@,
                offset as nat,
            )->Ok_0 as i32,
            Err(e) => spec_rd32(data@, offset as nat) == Err::<u32, Seq<char>>(e@),
        },
{
    match read_u32_be(data, offset) {
        Ok(v) => Ok(v as i32),
        Err(e) => Err(e),
    }
}

/// The first zero byte at or after `i` and before `stop`, or `stop`.
pub open spec fn spec_window_end(data: Seq<u8>, i: nat, stop: nat) -> nat
    decreases stop - i,
{
    if i >= stop || data[i as int] == 0 {
        i
    } else {
        spec_window_end(data, i + 1, stop)
    }
}

/// A name stored in a fixed window of `max_len` bytes, ending at the first
/// zero byte.
pub open spec fn spec_baa_cstring(data: Seq<u8>, offset: nat, max_len: nat) -> Result<
    Seq<char>,
    Seq<char>,
> {
    if offset + max_len > data.len() {
        Err(spec_oob(offset, max_len))
    } else {
        Ok(
            spec_utf8_lossy(
                data.subrange(
                    offset as int,
                    spec_window_end(data, offset, offset + max_len) as int,
                ),
            ),
        )
    }
}

/// Reads a name stored in a fixed window.
fn read_cstring(data: &[u8], offset: usize, max_len: usize) -> (res: Result<String, String>)
    ensures
        match res {
            Ok(s) => spec_baa_cstring(data@, offset as nat, max_len as nat) == Ok::<
                Seq<char>,
                Seq<char>,
            >(s@),
            Err(e) => spec_baa_cstring(data@, offset as nat, max_len as nat) == Err::<
                Seq<char>,
                Seq<char>,
            >(e@),
        },
{
    match ensure_bytes(data, offset, max_len) {
        Err(e) => Err(e),
        Ok(()) => {
            let dl = data.len();
            assert(offset + max_len <= dl);
            let stop = offset + max_len;
            let mut end = offset;
            while end < stop && data[end] != 0
                invariant
                    offset <= end <= stop,
                    stop == offset + max_len,
                    stop <= data@.len(),
                    spec_window_end(data@, end as nat, stop as nat) == spec_window_end(
                        data@,
                        offset as nat,
                        stop as nat,
                    ),
                decreases stop - end,
            {
                end = end + 1;
            }
            let bytes = copy_range(data, offset, end);
            Ok(utf8_lossy(bytes.as_slice()))
        },
    }
}

/// The wave stored at `wo` (32 bytes), with its position in the table.
pub open spec fn spec_wave_at(data: Seq<u8>, wo: nat, index: nat) -> AwWaveInfo {
    let rd = |k: int| crate::utils::spec_read_u32_be(data, wo + k);
    AwWaveInfo {
        index: index as usize,
        format: data[wo + 1int],
        sample_rate_bits: rd(4),
        stream_offset: rd(8),
        stream_size: rd(0x0c),
        loop_flag_raw: rd(0x10) as i32,
        loop_start: rd(0x14) as i32,
        loop_end: rd(0x18) as i32,
        num_samples: rd(0x1c) as i32,
    }
}

/// The `remaining` waves listed from `wro` on; each list word is an offset
/// from the WSYS start.
pub open spec fn spec_wsys_waves(data: Seq<u8>, wsys: nat, wro: nat, index: nat, remaining: nat) -> Result<
    Seq<AwWaveInfo>,
    Seq<char>,
>
    decreases remaining,
{
    if remaining == 0 {
        Ok(Seq::empty())
    } else {
        match spec_rd32(data, wro) {
            Err(e) => Err(e),
            Ok(rel) => if wro + 4 > usize::MAX {
                Err("Wave offset list overflow"@)
            } else if wsys + rel > usize::MAX {
                Err("Wave entry offset overflow"@)
            } else if wsys + rel + 0x20 > data.len() {
                Err(spec_oob((wsys + rel) as nat, 0x20))
            } else {
                match spec_wsys_waves(data, wsys, wro + 4, index + 1, (remaining - 1) as nat) {
                    Err(e) => Err(e),
                    Ok(rest) => Ok(seq![spec_wave_at(data, (wsys + rel) as nat, index)] + rest),
                }
            },
        }
    }
}

/// The AW file whose list word is at `ptr`, with the position of the next
/// list word: a name in a 0x70-byte window, then its wave table.
pub open spec fn spec_aw_entry(data: Seq<u8>, wsys: nat, bank: u32, flags: u32, ptr: nat) -> Result<
    (AwFileModel, nat),
    Seq<char>,
> {
    match spec_rd32(data, ptr) {
        Err(e) => Err(e),
        Ok(rel) => if ptr + 4 > usize::MAX {
            Err("AW list overflow"@)
        } else if wsys + rel > usize::MAX {
            Err("AW info offset overflow"@)
        } else {
            let aw = (wsys + rel) as nat;
            match spec_baa_cstring(data, aw, 0x70) {
                Err(e) => Err(e),
                Ok(name) => if aw + 0x70 > usize::MAX {
                    Err("AW wave table offset overflow"@)
                } else {
                    match spec_rd32(data, aw + 0x70) {
                        Err(e) => Err(e),
                        Ok(wc) => match spec_wsys_waves(data, wsys, aw + 0x74, 0, wc as nat) {
                            Err(e) => Err(e),
                            Ok(waves) => Ok(
                                (
                                    AwFileModel { aw_name: name, bank_id: bank, flags, waves },
                                    ptr + 4,
                                ),
                            ),
                        },
                    }
                },
            }
        },
    }
}

/// The `remaining` AW files listed from `ptr` on.
pub open spec fn spec_wsys_aws(
    data: Seq<u8>,
    wsys: nat,
    bank: u32,
    flags: u32,
    ptr: nat,
    remaining: nat,
) -> Result<Seq<AwFileModel>, Seq<char>>
    decreases remaining,
{
    if remaining == 0 {
        Ok(Seq::empty())
    } else {
        match spec_aw_entry(data, wsys, bank, flags, ptr) {
            Err(e) => Err(e),
            Ok((f, next)) => match spec_wsys_aws(data, wsys, bank, flags, next, (remaining - 1) as nat) {
                Err(e) => Err(e),
                Ok(rest) => Ok(seq![f] + rest),
            },
        }
    }
}

/// The AW files of the WSYS wave system at `wsys`: its magic, then the
/// WINF table its word at 0x10 points at.
pub open spec fn spec_parse_wsys(data: Seq<u8>, wsys: nat, bank: u32, flags: u32) -> Result<
    Seq<AwFileModel>,
    Seq<char>,
> {
    if wsys + 0x18 > data.len() {
        Err(spec_oob(wsys, 0x18))
    } else if data.subrange(wsys as int, wsys + 4int) != spec_tag(0x57, 0x53, 0x59, 0x53) {
        Err("Invalid WSYS magic at 0x"@ + spec_hex_upper(wsys))
    } else {
        let rel = crate::utils::spec_read_u32_be(data, wsys + 0x10int);
        if wsys + rel > usize::MAX {
            Err("WINF offset overflow"@)
        } else {
            let winf = (wsys + rel) as nat;
            if winf + 8 > data.len() {
                Err(spec_oob(winf as nat, 8))
            } else if data.subrange(winf as int, winf + 4int) != spec_tag(0x57, 0x49, 0x4e, 0x46) {
                Err("Invalid WINF magic at 0x"@ + spec_hex_upper(winf as nat))
            } else {
                spec_wsys_aws(
                    data,
                    wsys,
                    bank,
                    flags,
                    (winf + 8) as nat,
                    crate::utils::spec_read_u32_be(data, winf + 4int) as nat,
                )
            }
        }
    }
}

/// Whether four bytes at `at` are `a b c d`.
fn tag_at(data: &[u8], at: usize, a: u8, b: u8, c: u8, d: u8) -> (res: bool)
    requires
        at + 4 <= data@.len(),
    ensures
        res == (data@.subrange(at as int, at + 4) == spec_tag(a, b, c, d)),
{
    let r = data[at] == a && data[at + 1] == b && data[at + 2] == c && data[at + 3] == d;
    proof {
        let w = data@.subrange(at as int, at + 4);
        if r {
            assert(w =~= spec_tag(a, b, c, d));
        } else if w == spec_tag(a, b, c, d) {
            assert(w[0] == data@[at as int] && w[1] == data@[at + 1] && w[2] == data@[at + 2]
                && w[3] == data@[at + 3]);
        }
    }
    r
}

/// Prefixes a message to the uppercase hex of an offset.
fn at_hex(prefix: &str, offset: usize) -> (res: String)
    ensures
        res@ == prefix@ + spec_hex_upper(offset as nat),
{
    let mut m = to_string(prefix);
    let h = hex_upper_string(offset as u64);
    push_str(&mut m, h.as_str());
    m
}

/// Reads the wave table of one AW file.
fn parse_waves(data: &[u8], wsys: usize, start: usize, count: u32) -> (res: Result<Vec<AwWaveInfo>, String>)
    ensures
        match res {
            Ok(w) => spec_wsys_waves(data@, wsys as nat, start as nat, 0, count as nat) == Ok::<
                Seq<AwWaveInfo>,
                Seq<char>,
            >(w@),
            Err(e) => spec_wsys_waves(data@, wsys as nat, start as nat, 0, count as nat) == Err::<
                Seq<AwWaveInfo>,
                Seq<char>,
            >(e@),
        },
{
    let ghost total = spec_wsys_waves(data@, wsys as nat, start as nat, 0, count as nat);
    let mut waves: Vec<AwWaveInfo> = Vec::new();
    let mut wro = start;
    let mut index: usize = 0;
    let mut remaining = count;
    while remaining > 0
        invariant
            index as nat + remaining as nat == count as nat,
            total == spec_wsys_waves(data@, wsys as nat, start as nat, 0, count as nat),
            total == match spec_wsys_waves(
                data@,
                wsys as nat,
                wro as nat,
                index as nat,
                remaining as nat,
            ) {
                Err(e) => Err(e),
                Ok(rest) => Ok(waves@ + rest),
            },
        decreases remaining,
    {
        let rel = match read_u32_be(data, wro) {
            Ok(v) => v,
            Err(e) => {
                return Err(e);
            },
        };
        let next = match wro.checked_add(4) {
            Some(v) => v,
            None => {
                return Err(to_string("Wave offset list overflow"));
            },
        };
        let wo = match wsys.checked_add(rel as usize) {
            Some(v) => v,
            None => {
                return Err(to_string("Wave entry offset overflow"));
            },
        };
        match ensure_bytes(data, wo, 0x20) {
            Ok(()) => {},
            Err(e) => {
                return Err(e);
            },
        }
        let dl = data.len();
        let wave = AwWaveInfo {
            index,
            format: data[wo + 1],
            sample_rate_bits: crate::utils::read_u32_be(data, wo + 4),
            stream_offset: crate::utils::read_u32_be(data, wo + 8),
            stream_size: crate::utils::read_u32_be(data, wo + 0x0c),
            loop_flag_raw: crate::utils::read_u32_be(data, wo + 0x10) as i32,
            loop_start: crate::utils::read_u32_be(data, wo + 0x14) as i32,
            loop_end: crate::utils::read_u32_be(data, wo + 0x18) as i32,
            num_samples: crate::utils::read_u32_be(data, wo + 0x1c) as i32,
        };
        assert(wave == spec_wave_at(data@, wo as nat, index as nat));
        let ghost before = waves@;
        waves.push(wave);
        proof {
            match spec_wsys_waves(data@, wsys as nat, next as nat, (index + 1) as nat, (remaining - 1) as nat) {
                Ok(r) => {
                    assert(before + (seq![wave] + r) =~= waves@ + r);
                },
                Err(_) => {},
            }
        }
        wro = next;
        index = index + 1;
        remaining = remaining - 1;
    }
    assert(waves@ + Seq::<AwWaveInfo>::empty() =~= waves@);
    Ok(waves)
}

/// Reads the AW file whose list word is at `ptr`.
fn parse_aw_entry(data: &[u8], wsys: usize, bank_id: u32, flags: u32, ptr: usize) -> (res: Result<
    (AwFileInfo, usize),
    String,
>)
    ensures
        match res {
            Ok((f, next)) => spec_aw_entry(data@, wsys as nat, bank_id, flags, ptr as nat) == Ok::<
                (AwFileModel, nat),
                Seq<char>,
            >((f@, next as nat)),
            Err(e) => spec_aw_entry(data@, wsys as nat, bank_id, flags, ptr as nat) == Err::<
                (AwFileModel, nat),
                Seq<char>,
            >(e@),
        },
{
    let rel = match read_u32_be(data, ptr) {
        Ok(v) => v,
        Err(e) => {
            return Err(e);
        },
    };
    let next = match ptr.checked_add(4) {
        Some(v) => v,
        None => {
            return Err(to_string("AW list overflow"));
        },
    };
    let aw = match wsys.checked_add(rel as usize) {
        Some(v) => v,
        None => {
            return Err(to_string("AW info offset overflow"));
        },
    };
    let aw_name = match read_cstring(data, aw, 0x70) {
        Ok(s) => s,
        Err(e) => {
            return Err(e);
        },
    };
    let table = match aw.checked_add(0x70) {
        Some(v) => v,
        None => {
            return Err(to_string("AW wave table offset overflow"));
        },
    };
    let wave_count = match read_u32_be(data, table) {
        Ok(v) => v,
        Err(e) => {
            return Err(e);
        },
    };
    let dl = data.len();
    let waves = match parse_waves(data, wsys, table + 4, wave_count) {
        Ok(w) => w,
        Err(e) => {
            return Err(e);
        },
    };
    Ok((AwFileInfo { aw_name, bank_id, flags, waves }, next))
}

/// Reads the AW files of the WSYS wave system at `wsys`.
fn parse_wsys(data: &[u8], wsys: usize, bank_id: u32, flags: u32) -> (res: Result<Vec<AwFileInfo>, String>)
    ensures
        match res {
            Ok(v) => spec_parse_wsys(data@, wsys as nat, bank_id, flags) == Ok::<
                Seq<AwFileModel>,
                Seq<char>,
            >(aw_files_view(v@)),
            Err(e) => spec_parse_wsys(data@, wsys as nat, bank_id, flags) == Err::<
                Seq<AwFileModel>,
                Seq<char>,
            >(e@),
        },
{
    match ensure_bytes(data, wsys, 0x18) {
        Ok(()) => {},
        Err(e) => {
            return Err(e);
        },
    }
    let dl = data.len();
    if !tag_at(data, wsys, 0x57, 0x53, 0x59, 0x53) {
        return Err(at_hex("Invalid WSYS magic at 0x", wsys));
    }
    let rel = crate::utils::read_u32_be(data, wsys + 0x10);
    let winf = match wsys.checked_add(rel as usize) {
        Some(v) => v,
        None => {
            return Err(to_string("WINF offset overflow"));
        },
    };
    match ensure_bytes(data, winf, 8) {
        Ok(()) => {},
        Err(e) => {
            return Err(e);
        },
    }
    if !tag_at(data, winf, 0x57, 0x49, 0x4e, 0x46) {
        return Err(at_hex("Invalid WINF magic at 0x", winf));
    }
    let count = crate::utils::read_u32_be(data, winf + 4);
    let ghost total = spec_wsys_aws(data@, wsys as nat, bank_id, flags, (winf + 8) as nat, count as nat);
    let mut out: Vec<AwFileInfo> = Vec::new();
    let mut ptr = winf + 8;
    let mut remaining = count;
    assert(aw_files_view(out@) =~= Seq::<AwFileModel>::empty());
    while remaining > 0
        invariant
            total == spec_wsys_aws(data@, wsys as nat, bank_id, flags, (winf + 8) as nat, count as nat),
            spec_parse_wsys(data@, wsys as nat, bank_id, flags) == total,
            total == match spec_wsys_aws(data@, wsys as nat, bank_id, flags, ptr as nat, remaining as nat) {
                Err(e) => Err(e),
                Ok(rest) => Ok(aw_files_view(out@) + rest),
            },
        decreases remaining,
    {
        let (file, next) = match parse_aw_entry(data, wsys, bank_id, flags, ptr) {
            Ok(r) => r,
            Err(e) => {
                return Err(e);
            },
        };

        let ghost before = aw_files_view(out@);
        let ghost fv = file@;
        out.push(file);
        assert(aw_files_view(out@) =~= before.push(fv));
        proof {
            match spec_wsys_aws(data@, wsys as nat, bank_id, flags, next as nat, (remaining - 1) as nat) {
                Ok(r) => {
                    assert(before + (seq![fv] + r) =~= aw_files_view(out@) + r);
                },
                Err(_) => {},
            }
        }
        ptr = next;
        remaining = remaining - 1;
    }
    assert(aw_files_view(out@) + Seq::<AwFileModel>::empty() =~= aw_files_view(out@));
    Ok(out)
}

/// What a four-byte BAA command tag asks for.
#[derive(Clone, Copy)]
pub enum BaaChunk {
    /// ">_AA": the block ends.
    End,
    /// A command whose arguments are skipped, with their byte count.
    Skip(u8),
    /// "ws  ": a wave system.
    Wave,
    /// "baac": nested blocks.
    Nested,
    /// Anything else.
    Unknown,
}

/// The command a tag names.
pub open spec fn spec_chunk_kind(c: Seq<u8>) -> BaaChunk {
    if c == spec_tag(0x3e, 0x5f, 0x41, 0x41) {
        BaaChunk::End
    } else if c == spec_tag(0x62, 0x73, 0x74, 0x20) || c == spec_tag(0x62, 0x73, 0x74, 0x6e)
        || c == spec_tag(0x62, 0x73, 0x63, 0x20) || c == spec_tag(0x62, 0x6e, 0x6b, 0x20) {
        BaaChunk::Skip(8)
    } else if c == spec_tag(0x62, 0x73, 0x66, 0x74) || c == spec_tag(0x62, 0x66, 0x63, 0x61) {
        BaaChunk::Skip(4)
    } else if c == spec_tag(0x62, 0x6d, 0x73, 0x20) {
        BaaChunk::Skip(12)
    } else if c == spec_tag(0x77, 0x73, 0x20, 0x20) {
        BaaChunk::Wave
    } else if c == spec_tag(0x62, 0x61, 0x61, 0x63) {
        BaaChunk::Nested
    } else {
        BaaChunk::Unknown
    }
}

/// Classifies the tag at `at`.
fn classify_chunk(data: &[u8], at: usize) -> (k: BaaChunk)
    requires
        at + 4 <= data@.len(),
    ensures
        k == spec_chunk_kind(data@.subrange(at as int, at + 4)),
{
    if tag_at(data, at, 0x3e, 0x5f, 0x41, 0x41) {
        BaaChunk::End
    } else if tag_at(data, at, 0x62, 0x73, 0x74, 0x20) || tag_at(data, at, 0x62, 0x73, 0x74, 0x6e)
        || tag_at(data, at, 0x62, 0x73, 0x63, 0x20) || tag_at(data, at, 0x62, 0x6e, 0x6b, 0x20) {
        BaaChunk::Skip(8)
    } else if tag_at(data, at, 0x62, 0x73, 0x66, 0x74) || tag_at(data, at, 0x62, 0x66, 0x63, 0x61) {
        BaaChunk::Skip(4)
    } else if tag_at(data, at, 0x62, 0x6d, 0x73, 0x20) {
        BaaChunk::Skip(12)
    } else if tag_at(data, at, 0x77, 0x73, 0x20, 0x20) {
        BaaChunk::Wave
    } else if tag_at(data, at, 0x62, 0x61, 0x61, 0x63) {
        BaaChunk::Nested
    } else {
        BaaChunk::Unknown
    }
}

/// How many more levels of nesting are allowed below `depth`.
pub open spec fn spec_depth_left(depth: nat) -> nat {
    if depth <= 16 {
        (17 - depth) as nat
    } else {
        0
    }
}

/// The AW files of the BAA block at `base`, whose commands may not run
/// past `max`; blocks nest at most 16 deep.
pub open spec fn spec_baa_block(data: Seq<u8>, base: nat, max: nat, depth: nat) -> Result<
    Seq<AwFileModel>,
    Seq<char>,
>
    decreases spec_depth_left(depth), 3nat, 0int,
{
    if depth > 16 {
        Err("BAA nesting too deep"@)
    } else if base + 4 > data.len() || data.subrange(base as int, base + 4int) != spec_tag(
        0x41,
        0x41,
        0x5f,
        0x3c,
    ) {
        Err("Invalid nested BAA block at 0x"@ + spec_hex_upper(base))
    } else {
        spec_baa_cmds(data, base, max, depth, base + 4)
    }
}

/// A "ws  " command whose arguments start at `next`: bank id, WSYS offset
/// (from the block start) and flags; it gives the AW files of that wave
/// system and where the next command starts.
pub open spec fn spec_wave_cmd(data: Seq<u8>, base: nat, next: nat) -> Result<
    (Seq<AwFileModel>, nat),
    Seq<char>,
> {
    match (spec_rd32(data, next), spec_rd32(data, next + 4), spec_rd32(data, next + 8)) {
        (Err(e), _, _) => Err(e),
        (Ok(_), Err(e), _) => Err(e),
        (Ok(_), Ok(_), Err(e)) => Err(e),
        (Ok(bank), Ok(rel), Ok(flags)) => if next + 12 > usize::MAX {
            Err("BAA offset overflow"@)
        } else if base + rel > usize::MAX {
            Err("WSYS offset overflow"@)
        } else {
            match spec_parse_wsys(data, (base + rel) as nat, bank, flags) {
                Err(e) => Err(e),
                Ok(files) => Ok((files, next + 12)),
            }
        },
    }
}

/// A "baac" command whose arguments start at `next`: the start and end of
/// a list of nested blocks (from the block start); it gives their AW files
/// and where the next command starts.
pub open spec fn spec_nested_cmd(data: Seq<u8>, base: nat, depth: nat, next: nat) -> Result<
    (Seq<AwFileModel>, nat),
    Seq<char>,
>
    decreases spec_depth_left(depth), 1nat, 0int,
{
    match (spec_rd32(data, next), spec_rd32(data, next + 4)) {
        (Err(e), _) => Err(e),
        (Ok(_), Err(e)) => Err(e),
        (Ok(brel), Ok(erel)) => if next + 8 > usize::MAX {
            Err("BAA offset overflow"@)
        } else if base + brel > usize::MAX {
            Err("BAAC offset overflow"@)
        } else if base + erel > usize::MAX {
            Err("BAAC end overflow"@)
        } else {
            let bo = (base + brel) as nat;
            let be = (base + erel) as nat;
            if be > data.len() || bo >= be {
                Err("Invalid BAAC range"@)
            } else {
                match spec_rd32(data, bo) {
                    Err(e) => Err(e),
                    Ok(entries) => match spec_baac_children(
                        data,
                        bo,
                        be,
                        depth,
                        bo + 4,
                        entries as nat,
                    ) {
                        Err(e) => Err(e),
                        Ok(files) => Ok((files, next + 8)),
                    },
                }
            }
        },
    }
}

/// The AW files of the commands from `offset` on, up to ">_AA".
pub open spec fn spec_baa_cmds(data: Seq<u8>, base: nat, max: nat, depth: nat, offset: nat) -> Result<
    Seq<AwFileModel>,
    Seq<char>,
>
    decreases spec_depth_left(depth), 2nat, max - offset,
{
    if !(offset + 4 <= max && offset + 4 <= data.len()) {
        Err("BAA block ended without >_AA"@)
    } else {
        let next = offset + 4;
        let chunk = data.subrange(offset as int, offset + 4int);
        match spec_chunk_kind(chunk) {
            BaaChunk::End => Ok(Seq::empty()),
            BaaChunk::Skip(n) => if next + n > usize::MAX {
                Err("BAA offset overflow"@)
            } else if next + n > max {
                Err("BAA command stream overflow"@)
            } else {
                spec_baa_cmds(data, base, max, depth, (next + n) as nat)
            },
            BaaChunk::Wave => match spec_wave_cmd(data, base, next) {
                Err(e) => Err(e),
                Ok((files, after)) => if after > max {
                    Err("BAA command stream overflow"@)
                } else {
                    match spec_baa_cmds(data, base, max, depth, after) {
                        Err(e) => Err(e),
                        Ok(rest) => Ok(files + rest),
                    }
                },
            },
            BaaChunk::Nested => match spec_nested_cmd(data, base, depth, next) {
                Err(e) => Err(e),
                Ok((files, _)) => if next + 8 > max {
                    Err("BAA command stream overflow"@)
                } else {
                    match spec_baa_cmds(data, base, max, depth, next + 8) {
                        Err(e) => Err(e),
                        Ok(rest) => Ok(files + rest),
                    }
                },
            },
            BaaChunk::Unknown => Err(
                "Unsupported BAA chunk "@ + spec_debug_quoted(spec_utf8_lossy(chunk)) + " at 0x"@
                    + spec_hex_upper(offset),
            ),
        }
    }
}

/// The AW files of the `remaining` nested blocks listed from `lo` on; each
/// list word is an offset from the list start `bo`, and each block may not
/// run past `be`.
pub open spec fn spec_baac_children(
    data: Seq<u8>,
    bo: nat,
    be: nat,
    depth: nat,
    lo: nat,
    remaining: nat,
) -> Result<Seq<AwFileModel>, Seq<char>>
    decreases spec_depth_left(depth), 0nat, remaining as int,
{
    if remaining == 0 {
        Ok(Seq::empty())
    } else {
        match spec_rd32(data, lo) {
            Err(e) => Err(e),
            Ok(rel) => if lo + 4 > usize::MAX {
                Err("BAAC list overflow"@)
            } else if bo + rel > usize::MAX {
                Err("Nested BAA offset overflow"@)
            } else if depth + 1 > 16 {
                Err("BAA nesting too deep"@)
            } else {
                match spec_baa_block(data, (bo + rel) as nat, be, depth + 1) {
                    Err(e) => Err(e),
                    Ok(f) => match spec_baac_children(
                        data,
                        bo,
                        be,
                        depth,
                        lo + 4,
                        (remaining - 1) as nat,
                    ) {
                        Err(e) => Err(e),
                        Ok(rest) => Ok(f + rest),
                    },
                }
            },
        }
    }
}

/// Appends `b` to `a`.
fn append_files(a: &mut Vec<AwFileInfo>, b: Vec<AwFileInfo>)
    ensures
        aw_files_view(final(a)@) == aw_files_view(old(a)@) + aw_files_view(b@),
{
    let mut b = b;
    let ghost av = aw_files_view(a@);
    let ghost bv = aw_files_view(b@);
    a.append(&mut b);
    assert(aw_files_view(a@) =~= av + bv);
}

/// Reads the BAA block at `base`.
fn parse_baa_block(data: &[u8], base: usize, max: usize, depth: usize) -> (res: Result<
    Vec<AwFileInfo>,
    String,
>)
    ensures
        match res {
            Ok(v) => spec_baa_block(data@, base as nat, max as nat, depth as nat) == Ok::<
                Seq<AwFileModel>,
                Seq<char>,
            >(aw_files_view(v@)),
            Err(e) => spec_baa_block(data@, base as nat, max as nat, depth as nat) == Err::<
                Seq<AwFileModel>,
                Seq<char>,
            >(e@),
        },
    decreases spec_depth_left(depth as nat), 3nat,
{
    if depth > 16 {
        return Err(to_string("BAA nesting too deep"));
    }
    if base > data.len() || data.len() - base < 4 || !tag_at(data, base, 0x41, 0x41, 0x5f, 0x3c) {
        return Err(at_hex("Invalid nested BAA block at 0x", base));
    }
    let ghost total = spec_baa_cmds(data@, base as nat, max as nat, depth as nat, (base + 4) as nat);
    let mut out: Vec<AwFileInfo> = Vec::new();
    let mut offset = base + 4;
    assert(aw_files_view(out@) =~= Seq::<AwFileModel>::empty());
    loop
        invariant
            depth <= 16,
            total == spec_baa_cmds(data@, base as nat, max as nat, depth as nat, (base + 4) as nat),
            spec_baa_block(data@, base as nat, max as nat, depth as nat) == total,
            total == match spec_baa_cmds(data@, base as nat, max as nat, depth as nat, offset as nat) {
                Err(e) => Err(e),
                Ok(rest) => Ok(aw_files_view(out@) + rest),
            },
        decreases max - offset,
    {
        if offset > max || max - offset < 4 || offset > data.len() || data.len() - offset < 4 {
            return Err(to_string("BAA block ended without >_AA"));
        }
        let next = offset + 4;
        let ghost before = aw_files_view(out@);
        match classify_chunk(data, offset) {
            BaaChunk::End => {
                assert(before + Seq::<AwFileModel>::empty() =~= before);
                return Ok(out);
            },
            BaaChunk::Skip(n) => {
                let after = match next.checked_add(n as usize) {
                    Some(v) => v,
                    None => {
                        return Err(to_string("BAA offset overflow"));
                    },
                };
                if after > max {
                    return Err(to_string("BAA command stream overflow"));
                }
                offset = after;
            },
            BaaChunk::Wave => {
                let (files, after) = match wave_cmd(data, base, next) {
                    Ok(r) => r,
                    Err(e) => {
                        return Err(e);
                    },
                };
                if after > max {
                    return Err(to_string("BAA command stream overflow"));
                }
                let ghost fv = aw_files_view(files@);
                append_files(&mut out, files);
                proof {
                    match spec_baa_cmds(data@, base as nat, max as nat, depth as nat, after as nat) {
                        Ok(r) => {
                            assert(before + (fv + r) =~= aw_files_view(out@) + r);
                        },
                        Err(_) => {},
                    }
                }
                offset = after;
            },
            BaaChunk::Nested => {
                let (files, after) = match nested_cmd(data, base, depth, next) {
                    Ok(r) => r,
                    Err(e) => {
                        return Err(e);
                    },
                };
                if after > max {
                    return Err(to_string("BAA command stream overflow"));
                }
                let ghost fv = aw_files_view(files@);
                append_files(&mut out, files);
                proof {
                    match spec_baa_cmds(data@, base as nat, max as nat, depth as nat, after as nat) {
                        Ok(r) => {
                            assert(before + (fv + r) =~= aw_files_view(out@) + r);
                        },
                        Err(_) => {},
                    }
                }
                offset = after;
            },
            BaaChunk::Unknown => {
                let chunk = copy_range(data, offset, next);
                let name = utf8_lossy(chunk.as_slice());
                let mut m = to_string("Unsupported BAA chunk ");
                let q = debug_quoted(name.as_str());
                push_str(&mut m, q.as_str());
                push_str(&mut m, " at 0x");
                let h = hex_upper_string(offset as u64);
                push_str(&mut m, h.as_str());
                return Err(m);
            },
        }
    }
}

/// Reads the arguments of a "ws  " command and its wave system.
fn wave_cmd(data: &[u8], base: usize, next: usize) -> (res: Result<(Vec<AwFileInfo>, usize), String>)
    ensures
        match res {
            Ok((f, after)) => spec_wave_cmd(data@, base as nat, next as nat) == Ok::<
                (Seq<AwFileModel>, nat),
                Seq<char>,
            >((aw_files_view(f@), after as nat)),
            Err(e) => spec_wave_cmd(data@, base as nat, next as nat) == Err::<
                (Seq<AwFileModel>, nat),
                Seq<char>,
            >(e@),
        },
{
    let bank = match read_u32_be(data, next) {
        Ok(v) => v,
        Err(e) => {
            return Err(e);
        },
    };
    let dl = data.len();
    let rel = match read_u32_be(data, next + 4) {
        Ok(v) => v,
        Err(e) => {
            return Err(e);
        },
    };
    let flags = match read_u32_be(data, next + 8) {
        Ok(v) => v,
        Err(e) => {
            return Err(e);
        },
    };
    let after = match next.checked_add(12) {
        Some(v) => v,
        None => {
            return Err(to_string("BAA offset overflow"));
        },
    };
    let wsys = match base.checked_add(rel as usize) {
        Some(v) => v,
        None => {
            return Err(to_string("WSYS offset overflow"));
        },
    };
    match parse_wsys(data, wsys, bank, flags) {
        Ok(f) => Ok((f, after)),
        Err(e) => Err(e),
    }
}

/// Reads the arguments of a "baac" command and its nested blocks.
fn nested_cmd(data: &[u8], base: usize, depth: usize, next: usize) -> (res: Result<
    (Vec<AwFileInfo>, usize),
    String,
>)
    requires
        depth <= 16,
    ensures
        match res {
            Ok((f, after)) => spec_nested_cmd(data@, base as nat, depth as nat, next as nat) == Ok::<
                (Seq<AwFileModel>, nat),
                Seq<char>,
            >((aw_files_view(f@), after as nat)),
            Err(e) => spec_nested_cmd(data@, base as nat, depth as nat, next as nat) == Err::<
                (Seq<AwFileModel>, nat),
                Seq<char>,
            >(e@),
        },
    decreases spec_depth_left(depth as nat), 1nat,
{
    let brel = match read_u32_be(data, next) {
        Ok(v) => v,
        Err(e) => {
            return Err(e);
        },
    };
    let dl = data.len();
    let erel = match read_u32_be(data, next + 4) {
        Ok(v) => v,
        Err(e) => {
            return Err(e);
        },
    };
    let after = match next.checked_add(8) {
        Some(v) => v,
        None => {
            return Err(to_string("BAA offset overflow"));
        },
    };
    let bo = match base.checked_add(brel as usize) {
        Some(v) => v,
        None => {
            return Err(to_string("BAAC offset overflow"));
        },
    };
    let be = match base.checked_add(erel as usize) {
        Some(v) => v,
        None => {
            return Err(to_string("BAAC end overflow"));
        },
    };
    if be > data.len() || bo >= be {
        return Err(to_string("Invalid BAAC range"));
    }
    let entries = match read_u32_be(data, bo) {
        Ok(v) => v,
        Err(e) => {
            return Err(e);
        },
    };
    match parse_baac_children(data, bo, be, depth, bo + 4, entries) {
        Ok(f) => Ok((f, after)),
        Err(e) => Err(e),
    }
}

/// Reads the nested blocks listed from `lo` on.
fn parse_baac_children(
    data: &[u8],
    bo: usize,
    be: usize,
    depth: usize,
    lo: usize,
    count: u32,
) -> (res: Result<Vec<AwFileInfo>, String>)
    requires
        depth <= 16,
    ensures
        match res {
            Ok(v) => spec_baac_children(data@, bo as nat, be as nat, depth as nat, lo as nat, count as nat)
                == Ok::<Seq<AwFileModel>, Seq<char>>(aw_files_view(v@)),
            Err(e) => spec_baac_children(data@, bo as nat, be as nat, depth as nat, lo as nat, count as nat)
                == Err::<Seq<AwFileModel>, Seq<char>>(e@),
        },
    decreases spec_depth_left(depth as nat), 0nat,
{
    let ghost total = spec_baac_children(data@, bo as nat, be as nat, depth as nat, lo as nat, count as nat);
    let mut out: Vec<AwFileInfo> = Vec::new();
    let mut ptr = lo;
    let mut remaining = count;
    assert(aw_files_view(out@) =~= Seq::<AwFileModel>::empty());
    while remaining > 0
        invariant
            depth <= 16,
            total == spec_baac_children(data@, bo as nat, be as nat, depth as nat, lo as nat, count as nat),
            total == match spec_baac_children(data@, bo as nat, be as nat, depth as nat, ptr as nat, remaining as nat) {
                Err(e) => Err(e),
                Ok(rest) => Ok(aw_files_view(out@) + rest),
            },
        decreases remaining,
    {
        let rel = match read_u32_be(data, ptr) {
            Ok(v) => v,
            Err(e) => {
                return Err(e);
            },
        };
        let next = match ptr.checked_add(4) {
            Some(v) => v,
            None => {
                return Err(to_string("BAAC list overflow"));
            },
        };
        let child = match bo.checked_add(rel as usize) {
            Some(v) => v,
            None => {
                return Err(to_string("Nested BAA offset overflow"));
            },
        };
        if depth + 1 > 16 {
            return Err(to_string("BAA nesting too deep"));
        }
        let files = match parse_baa_block(data, child, be, depth + 1) {
            Ok(f) => f,
            Err(e) => {
                return Err(e);
            },
        };
        let ghost before = aw_files_view(out@);
        let ghost fv = aw_files_view(files@);
        append_files(&mut out, files);
        proof {
            match spec_baac_children(data@, bo as nat, be as nat, depth as nat, next as nat, (remaining - 1) as nat) {
                Ok(r) => {
                    assert(before + (fv + r) =~= aw_files_view(out@) + r);
                },
                Err(_) => {},
            }
        }
        ptr = next;
        remaining = remaining - 1;
    }
    assert(aw_files_view(out@) + Seq::<AwFileModel>::empty() =~= aw_files_view(out@));
    Ok(out)
}

/// What parsing a BAA archive gives: its AW files, or why it fails.
pub open spec fn spec_parse_baa(data: Seq<u8>) -> Result<Seq<AwFileModel>, Seq<char>> {
    if data.len() < 4 || data.subrange(0, 4) != spec_tag(0x41, 0x41, 0x5f, 0x3c) {
        Err("Invalid BAA header"@)
    } else {
        spec_baa_block(data, 0, data.len(), 0)
    }
}

impl BaaArchive {
    /// Parses a BAA archive into the AW files it describes.
    pub fn parse(data: &[u8]) -> (res: Result<BaaArchive, String>)
        ensures
            match res {
                Ok(b) => spec_parse_baa(data@) == Ok::<Seq<AwFileModel>, Seq<char>>(b@),
                Err(e) => spec_parse_baa(data@) == Err::<Seq<AwFileModel>, Seq<char>>(e@),
            },
    {
        if data.len() < 4 || !tag_at(data, 0, 0x41, 0x41, 0x5f, 0x3c) {
            return Err(to_string("Invalid BAA header"));
        }
        match parse_baa_block(data, 0, data.len(), 0) {
            Ok(files) => Ok(BaaArchive { aw_files: files }),
            Err(e) => Err(e),
        }
    }
}

/// Whether an AW file answers to `name`: its full name, or the last
/// component of it as a path.
pub open spec fn spec_aw_matches(f: AwFileModel, name: Seq<char>) -> bool {
    f.aw_name == name || spec_path_file_name(f.aw_name) == Some(name)
}

/// The first AW file at or after `from` that answers to `name`.
pub open spec fn spec_first_match(files: Seq<AwFileModel>, name: Seq<char>, from: nat) -> Option<nat>
    decreases files.len() - from,
{
    if from >= files.len() {
        None
    } else if spec_aw_matches(files[from as int], name) {
        Some(from)
    } else {
        spec_first_match(files, name, from + 1)
    }
}

/// The position of the one AW file that answers to `name`, or why there is
/// none.
pub open spec fn spec_find_aw(files: Seq<AwFileModel>, name: Seq<char>) -> Result<nat, Seq<char>> {
    match spec_first_match(files, name, 0) {
        None => Err("AW not found in BAA: "@ + name),
        Some(k) => match spec_first_match(files, name, k + 1) {
            Some(_) => Err("AW name is ambiguous in BAA: "@ + name),
            None => Ok(k),
        },
    }
}

/// Whether an AW file answers to a name.
fn aw_matches(f: &AwFileInfo, name: &str) -> (res: bool)
    ensures
        res == spec_aw_matches(f@, name@),
{
    if str_eq(f.aw_name.as_str(), name) {
        return true;
    }
    match path_file_name(f.aw_name.as_str()) {
        Some(n) => str_eq(n.as_str(), name),
        None => false,
    }
}

/// The first AW file at or after `from` that answers to `name`.
fn first_match(files: &Vec<AwFileInfo>, name: &str, from: usize) -> (res: Option<usize>)
    ensures
        match res {
            Some(k) => k < files@.len() && spec_first_match(aw_files_view(files@), name@, from as nat)
                == Some(k as nat),
            None => spec_first_match(aw_files_view(files@), name@, from as nat) is None,
        },
{
    let ghost fv = aw_files_view(files@);
    let mut k = from;
    while k < files.len()
        invariant
            from <= k,
            fv == aw_files_view(files@),
            spec_first_match(fv, name@, from as nat) == spec_first_match(fv, name@, k as nat),
        decreases files@.len() - k,
    {
        assert(fv[k as int] == files@[k as int]@);
        if aw_matches(&files[k], name) {
            return Some(k);
        }
        k = k + 1;
    }
    None
}

impl BaaArchive {
    /// The one AW file that answers to `aw_name`, by full name or by its last
    /// path component.
    pub fn find_aw_by_name(&self, aw_name: &str) -> (res: Result<&AwFileInfo, String>)
        ensures
            match res {
                Ok(f) => spec_find_aw(self@, aw_name@) is Ok && f@ == self@[spec_find_aw(
                    self@,
                    aw_name@,
                )->Ok_0 as int],
                Err(e) => spec_find_aw(self@, aw_name@) == Err::<nat, Seq<char>>(e@),
            },
    {
        match first_match(&self.aw_files, aw_name, 0) {
            None => {
                let mut m = to_string("AW not found in BAA: ");
                push_str(&mut m, aw_name);
                Err(m)
            },
            Some(k) => {
                let dl = self.aw_files.len();
                match first_match(&self.aw_files, aw_name, k + 1) {
                    Some(_) => {
                        let mut m = to_string("AW name is ambiguous in BAA: ");
                        push_str(&mut m, aw_name);
                        Err(m)
                    },
                    None => {
                        assert(self@[k as int] == self.aw_files@[k as int]@);
                        Ok(&self.aw_files[k])
                    },
                }
            },
        }
    }
}

} // verus!
