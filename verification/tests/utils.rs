use tpmt::utils::{
    bytes_to_hex, hex_to_bytes, read_u16_be, read_u32_be, read_u8_at, write_u16_be, write_u32_be,
};

// Verifies big-endian u16 reads so binary parsers decode the high byte first.
#[test]
fn mod_read_u16_be_decodes_big_endian_values() {
    assert_eq!(read_u16_be(&[0x12, 0x34], 0), 0x1234);
}

// Verifies big-endian u32 reads so larger headers are interpreted correctly.
#[test]
fn mod_read_u32_be_decodes_big_endian_values() {
    assert_eq!(read_u32_be(&[0x12, 0x34, 0x56, 0x78], 0), 0x12345678);
}

// Verifies byte lookups stay bounds-safe instead of panicking on missing data.
#[test]
fn read_u8_at_returns_none_when_offset_is_out_of_bounds() {
    assert_eq!(read_u8_at(&[0xAA], 1), None);
}

// Verifies byte-to-hex formatting preserves ordering and lowercase output.
#[test]
fn bytes_to_hex_formats_all_bytes_in_order() {
    assert_eq!(bytes_to_hex(&[0x0A, 0xFF]), "0aff");
}

// Verifies slice writers preserve the exact big-endian byte order used by file formats.
#[test]
fn write_u16_be_and_u32_be_write_big_endian_values() {
    let mut u16_buf = [0u8; 2];
    let mut u32_buf = [0u8; 4];
    write_u16_be(&mut u16_buf, 0, 0x1234);
    write_u32_be(&mut u32_buf, 0, 0x12345678);
    assert_eq!(u16_buf, [0x12, 0x34]);
    assert_eq!(u32_buf, [0x12, 0x34, 0x56, 0x78]);
}

// Verifies odd-length hex is tolerated by padding the leading nibble.
#[test]
fn mod_hex_to_bytes_pads_odd_length_input() {
    assert_eq!(hex_to_bytes("abc"), Ok(vec![0x0A, 0xBC]));
}

// Verifies invalid hex is surfaced as an error instead of being silently skipped.
#[test]
fn hex_to_bytes_reports_invalid_digits() {
    assert!(hex_to_bytes("zz").is_err());
}

// Verifies big-endian reads preserve parser byte order.
#[test]
fn utils_read_u16_be_decodes_big_endian_values() {
    assert_eq!(read_u16_be(&[0x12, 0x34], 0), 0x1234);
}

// Verifies the 32-bit reader matches the file format headers used elsewhere.
#[test]
fn utils_read_u32_be_decodes_big_endian_values() {
    assert_eq!(read_u32_be(&[0x12, 0x34, 0x56, 0x78], 0), 0x12345678);
}

// Verifies out-of-bounds byte access stays safe for truncated data.
#[test]
fn read_u8_at_returns_none_out_of_bounds() {
    assert_eq!(read_u8_at(&[0xAA], 1), None);
}

// Verifies hex formatting preserves byte order and lowercase output.
#[test]
fn bytes_to_hex_formats_all_bytes() {
    assert_eq!(bytes_to_hex(&[0x0A, 0xFF]), "0aff");
}

// Verifies odd-length hex is accepted by padding the leading nibble.
#[test]
fn utils_hex_to_bytes_pads_odd_length_input() {
    assert_eq!(hex_to_bytes("abc"), Ok(vec![0x0A, 0xBC]));
}

// Verifies invalid hex digits still fail loudly instead of being ignored.
#[test]
fn hex_to_bytes_rejects_invalid_digits() {
    assert!(hex_to_bytes("zz").is_err());
}

#[test]
fn read_u8_at_returns_the_byte_in_bounds() {
    assert_eq!(read_u8_at(&[0xAA, 0xBB], 1), Some(0xBB));
}

#[test]
fn write_u32_be_leaves_too_short_slices_alone() {
    let mut buf = [1u8, 2, 3];
    write_u32_be(&mut buf, 0, 0xdeadbeef);
    assert_eq!(buf, [1, 2, 3]);
}

#[test]
fn write_u16_be_writes_at_an_offset() {
    let mut buf = [0u8; 4];
    write_u16_be(&mut buf, 2, 0xabcd);
    assert_eq!(buf, [0, 0, 0xab, 0xcd]);
}

#[test]
fn hex_to_bytes_reports_the_position_of_a_bad_digit() {
    assert_eq!(
        hex_to_bytes("12zz"),
        Err("Invalid hex '12zz' at pos 2: invalid digit found in string".to_string())
    );
}

#[test]
fn hex_roundtrip_on_concrete_bytes() {
    let bytes = vec![0x00, 0x7f, 0x80, 0xff, 0x12];
    assert_eq!(hex_to_bytes(&bytes_to_hex(&bytes)), Ok(bytes));
}

#[test]
fn hex_to_bytes_of_empty_text_is_empty() {
    assert_eq!(hex_to_bytes(""), Ok(vec![]));
}

#[test]
fn sha1_hex_formats_bytes() {
    assert_eq!(tpmt::utils::sha1_hex(b"abc"), "a9993e364706816aba3e25717850c26c9cd0d89d");
}
