//! The GZ2E disc wrapper of Twilight Princess.
//!
//! A GZ2E image opens with the magic "GZ2E" and the revision "01". When the
//! disc header's FST offset is plausible the image is a plain ISO and is
//! copied as it is; block-compressed images are not supported. The reading
//! and copying happen outside this crate; these are the checks.

use vstd::prelude::*;
use crate::utils::{read_u32_be, spec_read_u32_be};
use crate::text::{to_string, push_str, utf8_strict};

verus! {

/// "GZ2E".
pub open spec fn spec_magic_gz2e() -> Seq<u8> {
    seq![0x47u8, 0x5a, 0x32, 0x45]
}

/// Whether data starts with the GZ2E magic.
pub open spec fn spec_is_gz2e(data: Seq<u8>) -> bool {
    data.len() >= 4 && data.subrange(0, 4) == spec_magic_gz2e()
}

/// Returns true when the first four bytes are the GZ2E magic.
pub fn is_gz2e(data: &[u8]) -> (res: bool)
    ensures
        res == spec_is_gz2e(data@),
{
    if data.len() < 4 {
        return false;
    }
    let r = data[0] == 0x47 && data[1] == 0x5a && data[2] == 0x32 && data[3] == 0x45;
    proof {
        if r {
            assert(data@.subrange(0, 4) =~= spec_magic_gz2e());
        } else if data@.subrange(0, 4) == spec_magic_gz2e() {
            assert(data@.subrange(0, 4)[0] == data@[0] && data@.subrange(0, 4)[1] == data@[1]
                && data@.subrange(0, 4)[2] == data@[2] && data@.subrange(0, 4)[3] == data@[3]);
        }
    }
    r
}

/// How the revision field (bytes 4 and 5) reads: its characters when it is
/// UTF-8, else "??".
pub open spec fn spec_revision_text(header: Seq<u8>) -> Seq<char> {
    let b = header.subrange(4, 6);
    if vstd::utf8::valid_utf8(b) {
        vstd::utf8::decode_utf8(b)
    } else {
        "??"@
    }
}

/// The verdict on a 32-byte GZ2E header: the magic must be there and the
/// revision must read "01".
pub open spec fn spec_check_gz2e_header(header: Seq<u8>) -> Result<(), Seq<char>> {
    if !spec_is_gz2e(header) {
        Err("Invalid GZ2E magic"@)
    } else if spec_revision_text(header) != "01"@ {
        Err("Unsupported GZ2E revision: "@ + spec_revision_text(header))
    } else {
        Ok(())
    }
}

/// Checks a GZ2E header.
pub fn check_gz2e_header(header: &[u8]) -> (res: Result<(), String>)
    requires
        header@.len() >= 6,
    ensures
        match res {
            Ok(()) => spec_check_gz2e_header(header@) == Ok::<(), Seq<char>>(()),
            Err(e) => spec_check_gz2e_header(header@) == Err::<(), Seq<char>>(e@),
        },
{
    if !is_gz2e(header) {
        return Err(to_string("Invalid GZ2E magic"));
    }
    let rev_bytes = crate::utils::copy_range(header, 4, 6);
    let rev = match utf8_strict(rev_bytes.as_slice()) {
        Some(s) => s,
        None => to_string("??"),
    };
    if !crate::text::str_eq(rev.as_str(), "01") {
        let mut msg = to_string("Unsupported GZ2E revision: ");
        push_str(&mut msg, rev.as_str());
        return Err(msg);
    }
    Ok(())
}

/// The FST offset of the disc header block (read at 0x400): the word at
/// 0x24 of the block.
pub open spec fn spec_fst_offset(disc_info: Seq<u8>) -> u32 {
    spec_read_u32_be(disc_info, 0x24)
}

/// What to do with a GZ2E image once its disc header block is read: copy it
/// as it is when the FST offset is plausible, else report that block
/// compression is not supported.
pub open spec fn spec_gz2e_plan(disc_info: Seq<u8>) -> Result<(), Seq<char>> {
    let fst = spec_fst_offset(disc_info);
    if fst > 0x1000 && fst < 0x1000_0000 {
        Ok(())
    } else {
        Err(
            "This GZ2E format is not yet fully supported. Please decompress manually using Dolphin or wiimm tools."@,
        )
    }
}

/// Decides from the disc header block whether the image is copied as it is
/// (`Ok`) or cannot be handled.
pub fn gz2e_plan(disc_info: &[u8]) -> (res: Result<(), String>)
    requires
        disc_info@.len() >= 0x28,
    ensures
        match res {
            Ok(()) => spec_gz2e_plan(disc_info@) == Ok::<(), Seq<char>>(()),
            Err(e) => spec_gz2e_plan(disc_info@) == Err::<(), Seq<char>>(e@),
        },
{
    let fst = read_u32_be(disc_info, 0x24);
    if fst > 0x1000 && fst < 0x1000_0000 {
        Ok(())
    } else {
        Err(decompress_gz2e_blocks())
    }
}

/// Block-compressed GZ2E images are not supported.
fn decompress_gz2e_blocks() -> (e: String)
    ensures
        e@ == "This GZ2E format is not yet fully supported. Please decompress manually using Dolphin or wiimm tools."@,
{
    to_string(
        "This GZ2E format is not yet fully supported. Please decompress manually using Dolphin or wiimm tools.",
    )
}

} // verus!
