//! BMG message files: parsing and writing.
//!
//! A BMG file is a 32-byte header followed by framed sections. The INF1
//! section lists each message's text offset and attribute bytes, DAT1 holds
//! the zero-terminated message texts with their inline escape sequences, and
//! MID1 holds each message's 24-bit id and 8-bit sub-id. Any other section is
//! carried through unchanged.

use vstd::prelude::*;
use crate::utils::{
    read_u16_be, read_u32_be, spec_read_u16_be, spec_read_u32_be, spec_u16_be_bytes,
    spec_u32_be_bytes, copy_range, extend_bytes, low16, low32, add32, spec_u32_of, spec_u16_of,
    spec_zeros, push_u32_be, push_u16_be, push_zeros,
};
use crate::text::{to_string, str_eq};

verus! {

/// What a message is, as plain values.
pub struct MessageModel {
    pub id: u32,
    pub subid: u8,
    pub attributes: Seq<u8>,
    pub text: Seq<Seq<u8>>,
}

/// What an extra section is, as plain values.
pub struct SectionModel {
    pub magic: Seq<u8>,
    pub data: Seq<u8>,
}

/// What a whole BMG file is, as plain values.
pub struct BmgModel {
    pub encoding: Seq<char>,
    pub messages: Seq<MessageModel>,
    pub attribute_length: u16,
    pub additional_sections: Seq<SectionModel>,
}

/// One message: its (id, sub-id) pair, its attribute bytes and its text as
/// a list of parts (plain runs and escape sequences).
pub struct BmgMessage {
    pub id: (u32, u8),
    pub attributes: Vec<u8>,
    pub text: Vec<Vec<u8>>,
}

/// A section the parser does not interpret.
pub struct BmgSection {
    pub magic: [u8; 4],
    pub data: Vec<u8>,
}

/// A parsed BMG file.
pub struct Bmg {
    pub encoding: String,
    pub messages: Vec<BmgMessage>,
    pub attribute_length: u16,
    pub additional_sections: Vec<BmgSection>,
}

/// The byte sequences of a list of byte vectors.
pub open spec fn parts_view(parts: Seq<Vec<u8>>) -> Seq<Seq<u8>> {
    parts.map_values(|p: Vec<u8>| p@)
}

impl View for BmgMessage {
    type V = MessageModel;

    open spec fn view(&self) -> MessageModel {
        MessageModel {
            id: self.id.0,
            subid: self.id.1,
            attributes: self.attributes@,
            text: parts_view(self.text@),
        }
    }
}

impl View for BmgSection {
    type V = SectionModel;

    open spec fn view(&self) -> SectionModel {
        SectionModel { magic: self.magic@, data: self.data@ }
    }
}

impl View for Bmg {
    type V = BmgModel;

    open spec fn view(&self) -> BmgModel {
        BmgModel {
            encoding: self.encoding@,
            messages: self.messages@.map_values(|m: BmgMessage| m@),
            attribute_length: self.attribute_length,
            additional_sections: self.additional_sections@.map_values(|s: BmgSection| s@),
        }
    }
}

/// The byte that opens an escape sequence in message text.
pub open spec fn spec_escape_byte() -> u8 {
    0x1a
}

/// Scans message text from `offset`, with the plain run `current` pending
/// and `parts` finished: plain bytes gather into runs, an escape byte is
/// followed by a length byte counting the whole escape, and a zero byte
/// ends the message (closing the pending run, even an empty one).
pub open spec fn spec_scan_text(
    dat1: Seq<u8>,
    offset: nat,
    current: Seq<u8>,
    parts: Seq<Seq<u8>>,
) -> Result<Seq<Seq<u8>>, Seq<char>>
    decreases dat1.len() - offset,
{
    if offset >= dat1.len() {
        Ok(parts)
    } else {
        let b = dat1[offset as int];
        if b == 0 {
            Ok(parts.push(current))
        } else if b == spec_escape_byte() {
            let before = if current.len() > 0 { parts.push(current) } else { parts };
            let lpos = offset + 1;
            if lpos >= dat1.len() {
                Err("Escape sequence truncated"@)
            } else {
                let arg_len = dat1[lpos as int] as nat;
                if arg_len < 2 || arg_len - 1 > dat1.len() - lpos {
                    Err("Escape data truncated"@)
                } else {
                    let escape = seq![spec_escape_byte()] + dat1.subrange(
                        lpos as int,
                        lpos + arg_len - 1,
                    );
                    spec_scan_text(dat1, offset + arg_len, Seq::empty(), before.push(escape))
                }
            }
        } else {
            spec_scan_text(dat1, offset + 1, current.push(b), parts)
        }
    }
}

/// The text parts of the message whose text starts at `start` in DAT1; a
/// start past the end gives one empty part.
pub open spec fn spec_parse_text(dat1: Seq<u8>, start: nat) -> Result<Seq<Seq<u8>>, Seq<char>> {
    if start >= dat1.len() {
        Ok(seq![Seq::<u8>::empty()])
    } else {
        spec_scan_text(dat1, start, Seq::empty(), Seq::empty())
    }
}

/// Reads the text parts of one message from DAT1.
fn parse_message_text(dat1: &[u8], start: usize) -> (res: Result<Vec<Vec<u8>>, String>)
    ensures
        match res {
            Ok(t) => spec_parse_text(dat1@, start as nat) == Ok::<Seq<Seq<u8>>, Seq<char>>(
                parts_view(t@),
            ),
            Err(e) => spec_parse_text(dat1@, start as nat) == Err::<Seq<Seq<u8>>, Seq<char>>(e@),
        },
{
    if start >= dat1.len() {
        let mut one: Vec<Vec<u8>> = Vec::new();
        one.push(Vec::new());
        assert(parts_view(one@) =~= seq![Seq::<u8>::empty()]);
        return Ok(one);
    }
    let mut parts: Vec<Vec<u8>> = Vec::new();
    let mut current: Vec<u8> = Vec::new();
    let mut offset: usize = start;
    assert(parts_view(parts@) =~= Seq::<Seq<u8>>::empty());
    while offset < dat1.len()
        invariant
            offset <= dat1@.len(),
            start < dat1@.len(),
            spec_scan_text(dat1@, offset as nat, current@, parts_view(parts@)) == spec_scan_text(
                dat1@,
                start as nat,
                Seq::empty(),
                Seq::empty(),
            ),
        decreases dat1@.len() - offset,
    {
        let b = dat1[offset];
        if b == 0 {
            let ghost pv = parts_view(parts@);
            parts.push(current);
            assert(parts_view(parts@) =~= pv.push(current@));
            return Ok(parts);
        } else if b == 0x1a {
            if current.len() > 0 {
                let ghost pv = parts_view(parts@);
                let ghost cv = current@;
                parts.push(current);
                current = Vec::new();
                assert(parts_view(parts@) =~= pv.push(cv));
            }
            let lpos = offset + 1;
            if lpos >= dat1.len() {
                return Err(to_string("Escape sequence truncated"));
            }
            let arg_len = dat1[lpos] as usize;
            if arg_len < 2 || arg_len - 1 > dat1.len() - lpos {
                return Err(to_string("Escape data truncated"));
            }
            let mut escape: Vec<u8> = Vec::new();
            escape.push(0x1au8);
            let body = copy_range(dat1, lpos, lpos + (arg_len - 1));
            extend_bytes(&mut escape, body.as_slice());
            let ghost pv = parts_view(parts@);
            parts.push(escape);
            assert(parts_view(parts@) =~= pv.push(escape@));
            current = Vec::new();
            offset = offset + arg_len;
        } else {
            current.push(b);
            offset = offset + 1;
        }
    }
    Ok(parts)
}

/// The big-endian 24-bit value stored at `offset`.
pub open spec fn spec_read_u24_be(data: Seq<u8>, offset: int) -> u32 {
    (data[offset] as int * 65536 + data[offset + 1] as int * 256 + data[offset + 2] as int) as u32
}

/// The (id, sub-id) pair of message `i` in MID1; a message whose four-byte
/// entry is not wholly present gets (0, 0).
pub open spec fn spec_mid_entry(mid1: Seq<u8>, i: nat) -> (u32, u8) {
    let at = 8 + 4 * i;
    if at + 4 <= mid1.len() {
        (spec_read_u24_be(mid1, at as int), mid1[at + 3int])
    } else {
        (0u32, 0u8)
    }
}

/// The messages `i..count`, whose INF1 entries start at `offset` and are
/// `4 + attr_len` bytes each; the first failing entry decides the error.
pub open spec fn spec_parse_entries(
    inf1: Seq<u8>,
    dat1: Seq<u8>,
    mid1: Seq<u8>,
    attr_len: nat,
    i: nat,
    count: nat,
    offset: nat,
) -> Result<Seq<MessageModel>, Seq<char>>
    decreases count - i,
{
    if i >= count {
        Ok(Seq::empty())
    } else if offset + 4 > inf1.len() {
        Err("INF1 entry out of bounds"@)
    } else if offset + 4 + attr_len > inf1.len() {
        Err("INF1 attributes out of bounds"@)
    } else {
        let dat_offset = spec_read_u32_be(inf1, offset as int);
        match spec_parse_text(dat1, dat_offset as nat) {
            Err(e) => Err(e),
            Ok(text) => {
                let ids = spec_mid_entry(mid1, i);
                let msg = MessageModel {
                    id: ids.0,
                    subid: ids.1,
                    attributes: inf1.subrange(offset + 4int, offset + 4int + attr_len),
                    text,
                };
                match spec_parse_entries(
                    inf1,
                    dat1,
                    mid1,
                    attr_len,
                    i + 1,
                    count,
                    offset + 4 + attr_len,
                ) {
                    Err(e) => Err(e),
                    Ok(rest) => Ok(seq![msg] + rest),
                }
            },
        }
    }
}

/// The messages and attribute length described by INF1, DAT1 and MID1.
pub open spec fn spec_parse_messages(inf1: Seq<u8>, dat1: Seq<u8>, mid1: Seq<u8>) -> Result<
    (Seq<MessageModel>, u16),
    Seq<char>,
> {
    if inf1.len() < 8 {
        Err("INF1 too small"@)
    } else {
        let count = spec_read_u16_be(inf1, 0);
        let attribute_length = spec_read_u16_be(inf1, 2);
        let attr_len: nat = if attribute_length >= 4 { (attribute_length - 4) as nat } else { 0 };
        match spec_parse_entries(inf1, dat1, mid1, attr_len, 0, count as nat, 8) {
            Err(e) => Err(e),
            Ok(msgs) => Ok((msgs, attribute_length)),
        }
    }
}

/// Reads a big-endian 24-bit value, or nothing where three bytes are not
/// there.
fn read_u24_be(data: &[u8], offset: usize) -> (res: Option<u32>)
    ensures
        res == (if offset + 3 <= data@.len() {
            Some(spec_read_u24_be(data@, offset as int))
        } else {
            None::<u32>
        }),
{
    if offset > data.len() || data.len() - offset < 3 {
        return None;
    }
    Some((data[offset] as u32) * 65536 + (data[offset + 1] as u32) * 256 + (data[offset + 2] as u32))
}

/// The views of a list of messages.
pub open spec fn messages_view(msgs: Seq<BmgMessage>) -> Seq<MessageModel> {
    msgs.map_values(|m: BmgMessage| m@)
}

/// Reads the messages of INF1, their texts from DAT1 and their ids from
/// MID1, with the attribute length of INF1's header.
fn parse_messages(inf1: &[u8], dat1: &[u8], mid1: &[u8]) -> (res: Result<(Vec<BmgMessage>, u16), String>)
    ensures
        match res {
            Ok((msgs, al)) => spec_parse_messages(inf1@, dat1@, mid1@) == Ok::<
                (Seq<MessageModel>, u16),
                Seq<char>,
            >((messages_view(msgs@), al)),
            Err(e) => spec_parse_messages(inf1@, dat1@, mid1@) == Err::<
                (Seq<MessageModel>, u16),
                Seq<char>,
            >(e@),
        },
{
    if inf1.len() < 8 {
        return Err(to_string("INF1 too small"));
    }
    let message_count = read_u16_be(inf1, 0) as usize;
    let attribute_length = read_u16_be(inf1, 2);
    let attr_len: usize = if attribute_length >= 4 { (attribute_length - 4) as usize } else { 0 };
    let ghost total = spec_parse_entries(inf1@, dat1@, mid1@, attr_len as nat, 0, message_count as nat, 8);
    assert(spec_parse_messages(inf1@, dat1@, mid1@) == match total {
        Err(e) => Err(e),
        Ok(m) => Ok((m, attribute_length)),
    });
    let mut messages: Vec<BmgMessage> = Vec::new();
    let mut offset: usize = 8;
    let mut i: usize = 0;
    assert(messages_view(messages@) =~= Seq::<MessageModel>::empty());
    while i < message_count
        invariant
            i <= message_count,
            message_count <= 0xffff,
            attr_len <= 0xffff,
            offset <= inf1@.len() + 0,
            spec_parse_messages(inf1@, dat1@, mid1@) == match total {
                Err(e) => Err(e),
                Ok(m) => Ok((m, attribute_length)),
            },
            total == match spec_parse_entries(
                inf1@,
                dat1@,
                mid1@,
                attr_len as nat,
                i as nat,
                message_count as nat,
                offset as nat,
            ) {
                Err(e) => Err(e),
                Ok(rest) => Ok(messages_view(messages@) + rest),
            },
        decreases message_count - i,
    {
        if offset > inf1.len() || inf1.len() - offset < 4 {
            return Err(to_string("INF1 entry out of bounds"));
        }
        let dat_offset = read_u32_be(inf1, offset) as usize;
        if inf1.len() - offset - 4 < attr_len {
            return Err(to_string("INF1 attributes out of bounds"));
        }
        let attributes = copy_range(inf1, offset + 4, offset + 4 + attr_len);
        let text = match parse_message_text(dat1, dat_offset) {
            Ok(t) => t,
            Err(e) => {
                return Err(e);
            },
        };
        let msg_offset = 8 + i * 4;
        let (id, subid) = if mid1.len() >= msg_offset + 4 {
            let id = match read_u24_be(mid1, msg_offset) {
                Some(v) => v,
                None => 0,
            };
            (id, mid1[msg_offset + 3])
        } else {
            (0u32, 0u8)
        };
        let msg = BmgMessage { id: (id, subid), attributes, text };
        let ghost before = messages_view(messages@);
        let ghost mv = msg@;
        messages.push(msg);
        assert(messages_view(messages@) =~= before.push(mv));
        proof {
            let rest = spec_parse_entries(
                inf1@,
                dat1@,
                mid1@,
                attr_len as nat,
                (i + 1) as nat,
                message_count as nat,
                (offset + 4 + attr_len) as nat,
            );
            match rest {
                Ok(r) => {
                    assert(before + (seq![mv] + r) =~= before.push(mv) + r);
                },
                Err(_) => {},
            }
        }
        offset = offset + 4 + attr_len;
        i = i + 1;
    }
    assert(messages_view(messages@) + Seq::<MessageModel>::empty() =~= messages_view(messages@));
    Ok((messages, attribute_length))
}

/// The eight magic bytes "MESGbmg1".
pub open spec fn spec_magic_bmg() -> Seq<u8> {
    seq![0x4du8, 0x45, 0x53, 0x47, 0x62, 0x6d, 0x67, 0x31]
}

/// "INF1".
pub open spec fn spec_magic_inf1() -> Seq<u8> {
    seq![0x49u8, 0x4e, 0x46, 0x31]
}

/// "DAT1".
pub open spec fn spec_magic_dat1() -> Seq<u8> {
    seq![0x44u8, 0x41, 0x54, 0x31]
}

/// "MID1".
pub open spec fn spec_magic_mid1() -> Seq<u8> {
    seq![0x4du8, 0x49, 0x44, 0x31]
}

/// Whether a section magic names one of the three sections the parser
/// interprets.
pub open spec fn spec_is_core_magic(m: Seq<u8>) -> bool {
    m == spec_magic_inf1() || m == spec_magic_dat1() || m == spec_magic_mid1()
}

/// The name of the text encoding stored in the header; an unknown value
/// reads as Shift-JIS.
pub open spec fn spec_encoding_name(v: u32) -> Seq<char> {
    if v == 0 {
        "legacy-bmg"@
    } else if v == 0x0100_0000 {
        "windows-1252"@
    } else if v == 0x0200_0000 {
        "utf-16be"@
    } else if v == 0x0300_0000 {
        "shift-jis"@
    } else if v == 0x0400_0000 {
        "utf-8"@
    } else {
        "shift-jis"@
    }
}

/// Reads `count` framed sections from `offset` on: four magic bytes, a
/// big-endian size that counts the eight header bytes, then the data; a
/// section that runs past the end keeps what is there.
pub open spec fn spec_read_sections(data: Seq<u8>, offset: nat, count: nat) -> Result<
    Seq<SectionModel>,
    Seq<char>,
>
    decreases count,
{
    if count == 0 {
        Ok(Seq::empty())
    } else if offset + 8 > data.len() {
        Err("Section header out of bounds"@)
    } else {
        let size = spec_read_u32_be(data, offset + 4int) as nat;
        if size < 8 {
            Err("Section size too small"@)
        } else {
            let start = offset + 8;
            let avail = (data.len() - start) as nat;
            let n: nat = if (size - 8) as nat > avail { avail } else { (size - 8) as nat };
            let sec = SectionModel {
                magic: data.subrange(offset as int, offset + 4int),
                data: data.subrange(start as int, start + n as int),
            };
            match spec_read_sections(data, start + n, (count - 1) as nat) {
                Err(e) => Err(e),
                Ok(rest) => Ok(seq![sec] + rest),
            }
        }
    }
}

/// The data of the last section named `magic`.
pub open spec fn spec_last_section(secs: Seq<SectionModel>, magic: Seq<u8>) -> Option<Seq<u8>>
    decreases secs.len(),
{
    if secs.len() == 0 {
        None
    } else if secs.last().magic == magic {
        Some(secs.last().data)
    } else {
        spec_last_section(secs.drop_last(), magic)
    }
}

/// The sections other than INF1, DAT1 and MID1, in file order.
pub open spec fn spec_extra_sections(secs: Seq<SectionModel>) -> Seq<SectionModel>
    decreases secs.len(),
{
    if secs.len() == 0 {
        Seq::empty()
    } else if spec_is_core_magic(secs.last().magic) {
        spec_extra_sections(secs.drop_last())
    } else {
        spec_extra_sections(secs.drop_last()).push(secs.last())
    }
}

/// What parsing `data` as a BMG file gives: the model, or the message of
/// the first check that fails.
pub open spec fn spec_parse_bmg(data: Seq<u8>) -> Result<BmgModel, Seq<char>> {
    if data.len() < 32 {
        Err("BMG data too short"@)
    } else if data.subrange(0, 8) != spec_magic_bmg() {
        Err("Invalid BMG magic"@)
    } else {
        let count = spec_read_u32_be(data, 12);
        let encoding = spec_encoding_name(spec_read_u32_be(data, 16));
        match spec_read_sections(data, 32, count as nat) {
            Err(e) => Err(e),
            Ok(secs) => if secs.len() < 3 {
                Err("BMG must have at least 3 sections"@)
            } else {
                match (
                    spec_last_section(secs, spec_magic_inf1()),
                    spec_last_section(secs, spec_magic_dat1()),
                    spec_last_section(secs, spec_magic_mid1()),
                ) {
                    (None, _, _) => Err("Missing INF1 section"@),
                    (Some(_), None, _) => Err("Missing DAT1 section"@),
                    (Some(_), Some(_), None) => Err("Missing MID1 section"@),
                    (Some(inf1), Some(dat1), Some(mid1)) => match spec_parse_messages(inf1, dat1, mid1) {
                        Err(e) => Err(e),
                        Ok((msgs, al)) => Ok(
                            BmgModel {
                                encoding,
                                messages: msgs,
                                attribute_length: al,
                                additional_sections: spec_extra_sections(secs),
                            },
                        ),
                    },
                }
            },
        }
    }
}

/// Whether four magic bytes are `a b c d`.
fn magic_is(m: &[u8; 4], a: u8, b: u8, c: u8, d: u8) -> (res: bool)
    ensures
        res == (m@ == seq![a, b, c, d]),
{
    let r = m[0] == a && m[1] == b && m[2] == c && m[3] == d;
    if r {
        assert(m@ =~= seq![a, b, c, d]);
    } else {
        proof {
            if m@ == seq![a, b, c, d] {
                assert(m@[0] == a && m@[1] == b && m@[2] == c && m@[3] == d);
            }
        }
    }
    r
}

/// The views of a list of sections.
pub open spec fn sections_view(secs: Seq<BmgSection>) -> Seq<SectionModel> {
    secs.map_values(|s: BmgSection| s@)
}

/// Reads `count` framed sections starting at byte 32.
fn read_sections(data: &[u8], count: u32) -> (res: Result<Vec<BmgSection>, String>)
    ensures
        match res {
            Ok(secs) => spec_read_sections(data@, 32, count as nat) == Ok::<Seq<SectionModel>, Seq<char>>(
                sections_view(secs@),
            ),
            Err(e) => spec_read_sections(data@, 32, count as nat) == Err::<Seq<SectionModel>, Seq<char>>(
                e@,
            ),
        },
{
    let ghost total = spec_read_sections(data@, 32, count as nat);
    let mut secs: Vec<BmgSection> = Vec::new();
    let mut offset: usize = 32;
    let mut i: u32 = 0;
    assert(sections_view(secs@) =~= Seq::<SectionModel>::empty());
    while i < count
        invariant
            i <= count,
            total == spec_read_sections(data@, 32, count as nat),
            total == match spec_read_sections(data@, offset as nat, (count - i) as nat) {
                Err(e) => Err(e),
                Ok(rest) => Ok(sections_view(secs@) + rest),
            },
        decreases count - i,
    {
        if offset > data.len() || data.len() - offset < 8 {
            return Err(to_string("Section header out of bounds"));
        }
        let magic: [u8; 4] = [data[offset], data[offset + 1], data[offset + 2], data[offset + 3]];
        let size = read_u32_be(data, offset + 4) as usize;
        if size < 8 {
            return Err(to_string("Section size too small"));
        }
        let start = offset + 8;
        let avail = data.len() - start;
        let n = if size - 8 > avail { avail } else { size - 8 };
        let sec_data = copy_range(data, start, start + n);
        let sec = BmgSection { magic, data: sec_data };
        assert(magic@ =~= data@.subrange(offset as int, offset + 4));
        let ghost before = sections_view(secs@);
        let ghost sv = sec@;
        secs.push(sec);
        assert(sections_view(secs@) =~= before.push(sv));
        proof {
            match spec_read_sections(data@, (start + n) as nat, (count - i - 1) as nat) {
                Ok(r) => {
                    assert(before + (seq![sv] + r) =~= before.push(sv) + r);
                },
                Err(_) => {},
            }
        }
        offset = start + n;
        i = i + 1;
    }
    assert(sections_view(secs@) + Seq::<SectionModel>::empty() =~= sections_view(secs@));
    Ok(secs)
}

impl Bmg {
    /// Parses a BMG file.
    pub fn parse(data: &[u8]) -> (res: Result<Bmg, String>)
        ensures
            match res {
                Ok(b) => spec_parse_bmg(data@) == Ok::<BmgModel, Seq<char>>(b@),
                Err(e) => spec_parse_bmg(data@) == Err::<BmgModel, Seq<char>>(e@),
            },
    {
        if data.len() < 32 {
            return Err(to_string("BMG data too short"));
        }
        let good_magic = data[0] == 0x4d && data[1] == 0x45 && data[2] == 0x53 && data[3] == 0x47
            && data[4] == 0x62 && data[5] == 0x6d && data[6] == 0x67 && data[7] == 0x31;
        if !good_magic {
            proof {
                if data@.subrange(0, 8) == spec_magic_bmg() {
                    assert(data@.subrange(0, 8)[0] == data@[0]);
                    assert(data@.subrange(0, 8)[1] == data@[1]);
                    assert(data@.subrange(0, 8)[2] == data@[2]);
                    assert(data@.subrange(0, 8)[3] == data@[3]);
                    assert(data@.subrange(0, 8)[4] == data@[4]);
                    assert(data@.subrange(0, 8)[5] == data@[5]);
                    assert(data@.subrange(0, 8)[6] == data@[6]);
                    assert(data@.subrange(0, 8)[7] == data@[7]);
                }
            }
            return Err(to_string("Invalid BMG magic"));
        }
        assert(data@.subrange(0, 8) =~= spec_magic_bmg());
        let section_count = read_u32_be(data, 12);
        let encoding_val = read_u32_be(data, 16);
        let encoding = if encoding_val == 0 {
            to_string("legacy-bmg")
        } else if encoding_val == 0x0100_0000 {
            to_string("windows-1252")
        } else if encoding_val == 0x0200_0000 {
            to_string("utf-16be")
        } else if encoding_val == 0x0300_0000 {
            to_string("shift-jis")
        } else if encoding_val == 0x0400_0000 {
            to_string("utf-8")
        } else {
            to_string("shift-jis")
        };
        let sections = match read_sections(data, section_count) {
            Ok(s) => s,
            Err(e) => {
                return Err(e);
            },
        };
        if sections.len() < 3 {
            return Err(to_string("BMG must have at least 3 sections"));
        }
        let ghost secs = sections_view(sections@);
        let mut inf1_idx: Option<usize> = None;
        let mut dat1_idx: Option<usize> = None;
        let mut mid1_idx: Option<usize> = None;
        let mut additional: Vec<BmgSection> = Vec::new();
        let mut k: usize = 0;
        assert(secs.take(0) =~= Seq::<SectionModel>::empty());
        assert(sections_view(additional@) =~= Seq::<SectionModel>::empty());
        while k < sections.len()
            invariant
                k <= sections@.len(),
                secs == sections_view(sections@),
                spec_last_section(secs.take(k as int), spec_magic_inf1()) == match inf1_idx {
                    Some(j) => Some(secs[j as int].data),
                    None => None::<Seq<u8>>,
                },
                spec_last_section(secs.take(k as int), spec_magic_dat1()) == match dat1_idx {
                    Some(j) => Some(secs[j as int].data),
                    None => None::<Seq<u8>>,
                },
                spec_last_section(secs.take(k as int), spec_magic_mid1()) == match mid1_idx {
                    Some(j) => Some(secs[j as int].data),
                    None => None::<Seq<u8>>,
                },
                inf1_idx matches Some(j) ==> j < k,
                dat1_idx matches Some(j) ==> j < k,
                mid1_idx matches Some(j) ==> j < k,
                sections_view(additional@) == spec_extra_sections(secs.take(k as int)),
            decreases sections@.len() - k,
        {
            let m = &sections[k].magic;
            let is_inf = magic_is(m, 0x49, 0x4e, 0x46, 0x31);
            let is_dat = magic_is(m, 0x44, 0x41, 0x54, 0x31);
            let is_mid = magic_is(m, 0x4d, 0x49, 0x44, 0x31);
            let ghost prefix = secs.take(k as int);
            assert(secs.take(k + 1).drop_last() =~= prefix);
            assert(secs.take(k + 1).last() == secs[k as int]);
            assert(secs[k as int] == sections@[k as int]@);
            if is_inf {
                inf1_idx = Some(k);
            } else if is_dat {
                dat1_idx = Some(k);
            } else if is_mid {
                mid1_idx = Some(k);
            } else {
                let copy = BmgSection { magic: sections[k].magic, data: copy_range(sections[k].data.as_slice(), 0, sections[k].data.len()) };
                assert(sections[k as int].data@.subrange(0, sections[k as int].data@.len() as int) =~= sections[k as int].data@);
                let ghost before = sections_view(additional@);
                additional.push(copy);
                assert(sections_view(additional@) =~= before.push(secs[k as int]));
            }
            k = k + 1;
        }
        assert(secs.take(k as int) =~= secs);
        let inf1 = match inf1_idx {
            Some(j) => sections[j].data.as_slice(),
            None => {
                return Err(to_string("Missing INF1 section"));
            },
        };
        let dat1 = match dat1_idx {
            Some(j) => sections[j].data.as_slice(),
            None => {
                return Err(to_string("Missing DAT1 section"));
            },
        };
        let mid1 = match mid1_idx {
            Some(j) => sections[j].data.as_slice(),
            None => {
                return Err(to_string("Missing MID1 section"));
            },
        };
        let (messages, attribute_length) = match parse_messages(inf1, dat1, mid1) {
            Ok(r) => r,
            Err(e) => {
                return Err(e);
            },
        };
        let res = Bmg { encoding, messages, attribute_length, additional_sections: additional };
        assert(res@.messages == messages_view(res.messages@));
        Ok(res)
    }
}

/// The bytes of a list of parts, one after the other.
pub open spec fn spec_flat(parts: Seq<Seq<u8>>) -> Seq<u8>
    decreases parts.len(),
{
    if parts.len() == 0 {
        Seq::empty()
    } else {
        spec_flat(parts.drop_last()) + parts.last()
    }
}

/// The DAT1 offset of the text of the message that follows `prefix`: DAT1
/// opens with one zero byte and each text is followed by a zero byte.
pub open spec fn spec_dat_pos(prefix: Seq<MessageModel>) -> nat
    decreases prefix.len(),
{
    if prefix.len() == 0 {
        1
    } else {
        spec_dat_pos(prefix.drop_last()) + spec_flat(prefix.last().text).len() + 1
    }
}

/// The INF1 entries of `msgs`: each message's text offset and attributes.
pub open spec fn spec_inf_entries(msgs: Seq<MessageModel>) -> Seq<u8>
    decreases msgs.len(),
{
    if msgs.len() == 0 {
        Seq::empty()
    } else {
        spec_inf_entries(msgs.drop_last()) + spec_u32_be_bytes(
            spec_u32_of(spec_dat_pos(msgs.drop_last())),
        ) + msgs.last().attributes
    }
}

/// The DAT1 texts of `msgs`, each followed by a zero byte.
pub open spec fn spec_dat_entries(msgs: Seq<MessageModel>) -> Seq<u8>
    decreases msgs.len(),
{
    if msgs.len() == 0 {
        Seq::empty()
    } else {
        spec_dat_entries(msgs.drop_last()) + spec_flat(msgs.last().text).push(0u8)
    }
}

/// The MID1 entry of a message: the low 24 bits of its id, big-endian,
/// then its sub-id.
pub open spec fn spec_id_bytes(m: MessageModel) -> Seq<u8> {
    seq![((m.id / 65536) % 256) as u8, ((m.id / 256) % 256) as u8, (m.id % 256) as u8, m.subid]
}

/// The MID1 entries of `msgs`.
pub open spec fn spec_mid_entries(msgs: Seq<MessageModel>) -> Seq<u8>
    decreases msgs.len(),
{
    if msgs.len() == 0 {
        Seq::empty()
    } else {
        spec_mid_entries(msgs.drop_last()) + spec_id_bytes(msgs.last())
    }
}

/// The INF1 section data of a file.
pub open spec fn spec_inf1_bytes(b: BmgModel) -> Seq<u8> {
    spec_u16_be_bytes(spec_u16_of(b.messages.len())) + spec_u16_be_bytes(b.attribute_length)
        + spec_zeros(4) + spec_inf_entries(b.messages)
}

/// The DAT1 section data of a file.
pub open spec fn spec_dat1_bytes(b: BmgModel) -> Seq<u8> {
    seq![0u8] + spec_dat_entries(b.messages)
}

/// The MID1 section data of a file.
pub open spec fn spec_mid1_bytes(b: BmgModel) -> Seq<u8> {
    spec_u16_be_bytes(spec_u16_of(b.messages.len())) + spec_zeros(6) + spec_mid_entries(b.messages)
}

/// A framed section: magic, size counting the eight header bytes, data.
pub open spec fn spec_section_bytes(magic: Seq<u8>, data: Seq<u8>) -> Seq<u8> {
    magic + spec_u32_be_bytes(spec_u32_of(data.len() + 8)) + data
}

/// The framed extra sections, in order.
pub open spec fn spec_extra_bytes(secs: Seq<SectionModel>) -> Seq<u8>
    decreases secs.len(),
{
    if secs.len() == 0 {
        Seq::empty()
    } else {
        spec_extra_bytes(secs.drop_last()) + spec_section_bytes(secs.last().magic, secs.last().data)
    }
}

/// Everything after the 32-byte header: INF1, DAT1, MID1, then the extra
/// sections.
pub open spec fn spec_bmg_body(b: BmgModel) -> Seq<u8> {
    spec_section_bytes(spec_magic_inf1(), spec_inf1_bytes(b)) + spec_section_bytes(
        spec_magic_dat1(),
        spec_dat1_bytes(b),
    ) + spec_section_bytes(spec_magic_mid1(), spec_mid1_bytes(b)) + spec_extra_bytes(
        b.additional_sections,
    )
}

/// The header value of an encoding name; "latin-1" is written as
/// Windows-1252 and an unknown name as Shift-JIS.
pub open spec fn spec_encoding_value(name: Seq<char>) -> u32 {
    if name == "legacy-bmg"@ {
        0
    } else if name == "windows-1252"@ || name == "latin-1"@ {
        0x0100_0000
    } else if name == "utf-16be"@ {
        0x0200_0000
    } else if name == "shift-jis"@ {
        0x0300_0000
    } else if name == "utf-8"@ {
        0x0400_0000
    } else {
        0x0300_0000
    }
}

/// The bytes a file is written as: magic, file size, section count,
/// encoding, twelve zero bytes, then the sections.
pub open spec fn spec_bmg_bytes(b: BmgModel) -> Seq<u8> {
    let body = spec_bmg_body(b);
    spec_magic_bmg() + spec_u32_be_bytes(spec_u32_of(32 + body.len())) + spec_u32_be_bytes(
        spec_u32_of(3 + b.additional_sections.len()),
    ) + spec_u32_be_bytes(spec_encoding_value(b.encoding)) + spec_zeros(12) + body
}

/// One more part extends the flattened bytes by that part.
proof fn lemma_flat_take(p: Seq<Seq<u8>>, j: int)
    requires
        0 <= j < p.len(),
    ensures
        spec_flat(p.take(j + 1)) == spec_flat(p.take(j)) + p[j],
{
    assert(p.take(j + 1).drop_last() =~= p.take(j));
}

/// Appends the bytes of every part of a text.
fn push_flat(out: &mut Vec<u8>, text: &Vec<Vec<u8>>)
    ensures
        final(out)@ == old(out)@ + spec_flat(parts_view(text@)),
{
    let ghost pv = parts_view(text@);
    let mut j: usize = 0;
    assert(pv.take(0) =~= Seq::<Seq<u8>>::empty());
    while j < text.len()
        invariant
            j <= text@.len(),
            pv == parts_view(text@),
            out@ == old(out)@ + spec_flat(pv.take(j as int)),
        decreases text@.len() - j,
    {
        extend_bytes(out, text[j].as_slice());
        proof {
            lemma_flat_take(pv, j as int);
        }
        assert(out@ =~= old(out)@ + spec_flat(pv.take(j + 1)));
        j = j + 1;
    }
    assert(pv.take(j as int) =~= pv);
}

/// `start` advanced by the flattened length of a text, modulo 2^32.
fn advance_by_text(start: u32, text: &Vec<Vec<u8>>) -> (r: u32)
    ensures
        r == (start + spec_flat(parts_view(text@)).len()) % 0x1_0000_0000int,
{
    let ghost pv = parts_view(text@);
    let mut pos = start;
    let mut j: usize = 0;
    assert(pv.take(0) =~= Seq::<Seq<u8>>::empty());
    while j < text.len()
        invariant
            j <= text@.len(),
            pv == parts_view(text@),
            pos == (start + spec_flat(pv.take(j as int)).len()) % 0x1_0000_0000int,
        decreases text@.len() - j,
    {
        let n = low32(text[j].len());
        proof {
            lemma_flat_take(pv, j as int);
            vstd::arithmetic::div_mod::lemma_add_mod_noop(
                start + spec_flat(pv.take(j as int)).len(),
                text@[j as int]@.len() as int,
                0x1_0000_0000int,
            );
        }
        pos = add32(pos, n);
        j = j + 1;
    }
    assert(pv.take(j as int) =~= pv);
    pos
}

/// One more message extends the writers' sums by that message.
proof fn lemma_msgs_take(m: Seq<MessageModel>, k: int)
    requires
        0 <= k < m.len(),
    ensures
        m.take(k + 1).drop_last() == m.take(k),
        m.take(k + 1).last() == m[k],
{
    assert(m.take(k + 1).drop_last() =~= m.take(k));
}

/// The next text offset, modulo 2^32, from the current one.
proof fn lemma_next_pos(d: int, f: int)
    requires
        0 <= d,
        0 <= f,
    ensures
        (((d % 0x1_0000_0000int) + f) % 0x1_0000_0000int + 1) % 0x1_0000_0000int == (d + f + 1)
            % 0x1_0000_0000int,
{
    vstd::arithmetic::div_mod::lemma_add_mod_noop(d, f, 0x1_0000_0000int);
    vstd::arithmetic::div_mod::lemma_small_mod(f as nat % 0x1_0000_0000nat, 0x1_0000_0000);
    vstd::arithmetic::div_mod::lemma_add_mod_noop(d + f, 1, 0x1_0000_0000int);
    vstd::arithmetic::div_mod::lemma_add_mod_noop(d % 0x1_0000_0000int, f, 0x1_0000_0000int);
    vstd::arithmetic::div_mod::lemma_mod_twice(d, 0x1_0000_0000int);
}

/// Appends the INF1 section data.
fn write_inf1(out: &mut Vec<u8>, bmg: &Bmg)
    ensures
        final(out)@ == old(out)@ + spec_inf1_bytes(bmg@),
{
    let ghost msgs = bmg@.messages;
    push_u16_be(out, low16(bmg.messages.len()));
    push_u16_be(out, bmg.attribute_length);
    push_zeros(out, 4);
    let ghost head = out@;
    let mut pos: u32 = 1;
    let mut k: usize = 0;
    assert(msgs.take(0) =~= Seq::<MessageModel>::empty());
    while k < bmg.messages.len()
        invariant
            k <= bmg.messages@.len(),
            msgs == bmg@.messages,
            out@ == head + spec_inf_entries(msgs.take(k as int)),
            pos == spec_dat_pos(msgs.take(k as int)) as int % 0x1_0000_0000int,
        decreases bmg.messages@.len() - k,
    {
        let msg = &bmg.messages[k];
        assert(msgs[k as int] == msg@);
        proof {
            lemma_msgs_take(msgs, k as int);
        }
        push_u32_be(out, pos);
        extend_bytes(out, msg.attributes.as_slice());
        assert(out@ =~= head + spec_inf_entries(msgs.take(k + 1)));
        let p1 = advance_by_text(pos, &msg.text);
        proof {
            lemma_next_pos(spec_dat_pos(msgs.take(k as int)) as int, spec_flat(msg@.text).len() as int);
        }
        pos = add32(p1, 1);
        k = k + 1;
    }
    assert(msgs.take(k as int) =~= msgs);
}

/// Appends the DAT1 section data.
fn write_dat1(out: &mut Vec<u8>, bmg: &Bmg)
    ensures
        final(out)@ == old(out)@ + spec_dat1_bytes(bmg@),
{
    let ghost msgs = bmg@.messages;
    out.push(0u8);
    let ghost head = out@;
    let mut k: usize = 0;
    assert(msgs.take(0) =~= Seq::<MessageModel>::empty());
    while k < bmg.messages.len()
        invariant
            k <= bmg.messages@.len(),
            msgs == bmg@.messages,
            out@ == head + spec_dat_entries(msgs.take(k as int)),
        decreases bmg.messages@.len() - k,
    {
        let msg = &bmg.messages[k];
        assert(msgs[k as int] == msg@);
        proof {
            lemma_msgs_take(msgs, k as int);
        }
        push_flat(out, &msg.text);
        out.push(0u8);
        assert(out@ =~= head + spec_dat_entries(msgs.take(k + 1)));
        k = k + 1;
    }
    assert(msgs.take(k as int) =~= msgs);
    assert(out@ =~= old(out)@ + spec_dat1_bytes(bmg@));
}

/// Appends the MID1 section data.
fn write_mid1(out: &mut Vec<u8>, bmg: &Bmg)
    ensures
        final(out)@ == old(out)@ + spec_mid1_bytes(bmg@),
{
    let ghost msgs = bmg@.messages;
    push_u16_be(out, low16(bmg.messages.len()));
    push_zeros(out, 6);
    let ghost head = out@;
    let mut k: usize = 0;
    assert(msgs.take(0) =~= Seq::<MessageModel>::empty());
    while k < bmg.messages.len()
        invariant
            k <= bmg.messages@.len(),
            msgs == bmg@.messages,
            out@ == head + spec_mid_entries(msgs.take(k as int)),
        decreases bmg.messages@.len() - k,
    {
        let msg = &bmg.messages[k];
        assert(msgs[k as int] == msg@);
        proof {
            lemma_msgs_take(msgs, k as int);
        }
        let (id, subid) = msg.id;
        out.push(((id / 65536) % 256) as u8);
        out.push(((id / 256) % 256) as u8);
        out.push((id % 256) as u8);
        out.push(subid);
        assert(out@ =~= head + spec_mid_entries(msgs.take(k + 1)));
        k = k + 1;
    }
    assert(msgs.take(k as int) =~= msgs);
}

/// Appends a framed section.
fn write_section(out: &mut Vec<u8>, magic: &[u8; 4], data: &[u8])
    ensures
        final(out)@ == old(out)@ + spec_section_bytes(magic@, data@),
{
    out.push(magic[0]);
    out.push(magic[1]);
    out.push(magic[2]);
    out.push(magic[3]);
    let n = add32(low32(data.len()), 8);
    proof {
        vstd::arithmetic::div_mod::lemma_add_mod_noop(data@.len() as int, 8, 0x1_0000_0000int);
        vstd::arithmetic::div_mod::lemma_small_mod(8, 0x1_0000_0000);
    }
    push_u32_be(out, n);
    extend_bytes(out, data);
    assert(magic@ =~= seq![magic@[0], magic@[1], magic@[2], magic@[3]]);
    assert(out@ =~= old(out)@ + spec_section_bytes(magic@, data@));
}

/// The header value of an encoding name.
fn encoding_value(name: &str) -> (v: u32)
    ensures
        v == spec_encoding_value(name@),
{
    if str_eq(name, "legacy-bmg") {
        0
    } else if str_eq(name, "windows-1252") || str_eq(name, "latin-1") {
        0x0100_0000
    } else if str_eq(name, "utf-16be") {
        0x0200_0000
    } else if str_eq(name, "shift-jis") {
        0x0300_0000
    } else if str_eq(name, "utf-8") {
        0x0400_0000
    } else {
        0x0300_0000
    }
}

impl Bmg {
    /// Writes the file: header, INF1, DAT1, MID1, then the extra sections in
    /// order. Writing cannot fail.
    pub fn to_bytes(&self) -> (res: Result<Vec<u8>, String>)
        ensures
            match res {
                Ok(v) => v@ == spec_bmg_bytes(self@),
                Err(_) => false,
            },
    {
        let ghost b = self@;
        let mut out: Vec<u8> = Vec::new();
        out.push(0x4d);
        out.push(0x45);
        out.push(0x53);
        out.push(0x47);
        out.push(0x62);
        out.push(0x6d);
        out.push(0x67);
        out.push(0x31);
        assert(out@ =~= spec_magic_bmg());
        push_u32_be(&mut out, 0);
        let count = add32(low32(self.additional_sections.len()), 3);
        proof {
            vstd::arithmetic::div_mod::lemma_add_mod_noop(
                self.additional_sections@.len() as int,
                3,
                0x1_0000_0000int,
            );
            vstd::arithmetic::div_mod::lemma_small_mod(3, 0x1_0000_0000);
        }
        push_u32_be(&mut out, count);
        push_u32_be(&mut out, encoding_value(self.encoding.as_str()));
        push_zeros(&mut out, 12);
        let ghost head = out@;
        assert(head.len() == 32);
        let mut inf: Vec<u8> = Vec::new();
        write_inf1(&mut inf, self);
        let mut dat: Vec<u8> = Vec::new();
        write_dat1(&mut dat, self);
        let mut mid: Vec<u8> = Vec::new();
        write_mid1(&mut mid, self);
        let inf_magic: [u8; 4] = [0x49, 0x4e, 0x46, 0x31];
        let dat_magic: [u8; 4] = [0x44, 0x41, 0x54, 0x31];
        let mid_magic: [u8; 4] = [0x4d, 0x49, 0x44, 0x31];
        write_section(&mut out, &inf_magic, inf.as_slice());
        write_section(&mut out, &dat_magic, dat.as_slice());
        write_section(&mut out, &mid_magic, mid.as_slice());
        assert(inf_magic@ =~= spec_magic_inf1());
        assert(dat_magic@ =~= spec_magic_dat1());
        assert(mid_magic@ =~= spec_magic_mid1());
        let ghost core = out@;
        let ghost secs = b.additional_sections;
        let mut k: usize = 0;
        assert(secs.take(0) =~= Seq::<SectionModel>::empty());
        while k < self.additional_sections.len()
            invariant
                k <= self.additional_sections@.len(),
                secs == self@.additional_sections,
                out@ == core + spec_extra_bytes(secs.take(k as int)),
            decreases self.additional_sections@.len() - k,
        {
            let sec = &self.additional_sections[k];
            assert(secs[k as int] == sec@);
            assert(secs.take(k + 1).drop_last() =~= secs.take(k as int));
            write_section(&mut out, &sec.magic, sec.data.as_slice());
            assert(out@ =~= core + spec_extra_bytes(secs.take(k + 1)));
            k = k + 1;
        }
        assert(secs.take(k as int) =~= secs);
        assert(out@ =~= head + spec_bmg_body(b));
        let size = low32(out.len());
        out.set(8, (size / 16777216) as u8);
        out.set(9, ((size / 65536) % 256) as u8);
        out.set(10, ((size / 256) % 256) as u8);
        out.set(11, (size % 256) as u8);
        assert(out@ =~= spec_bmg_bytes(b));
        Ok(out)
    }
}

} // verus!
