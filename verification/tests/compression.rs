use tpmt::formats::compression::gz2e::{check_gz2e_header, gz2e_plan, is_gz2e};
use tpmt::formats::compression::yaz0::{yaz0_compress, yaz0_decompress};

// Verifies the GZ2E header check only accepts the documented wrapper magic.
#[test]
fn is_gz2e_recognizes_the_wrapper_magic() {
    assert!(is_gz2e(b"GZ2E"));
}

// Verifies invalid GZ2E magic is rejected before any copy or decode work begins.
#[test]
fn decompress_gz2e_rejects_invalid_magic() {
    let header = vec![0u8; 32];
    assert!(check_gz2e_header(&header).is_err());
}

// Verifies passthrough GZ2E ISOs are accepted for copying when the FST offset looks valid.
#[test]
fn decompress_gz2e_copies_passthrough_isos() {
    let mut bytes = vec![0u8; 0x440];
    bytes[0..4].copy_from_slice(b"GZ2E");
    bytes[4..6].copy_from_slice(b"01");
    bytes[0x420..0x424].copy_from_slice(&0x1800u32.to_be_bytes());
    bytes[0x424..0x428].copy_from_slice(&0x2000u32.to_be_bytes());
    bytes[0x428..0x42c].copy_from_slice(&0x2000u32.to_be_bytes());
    assert_eq!(check_gz2e_header(&bytes[0..32]), Ok(()));
    assert_eq!(gz2e_plan(&bytes[0x400..0x440]), Ok(()));
}

// Verifies compression and decompression round-trip repeated data without corruption.
#[test]
fn yaz0_roundtrip_preserves_input_bytes() {
    let input = b"ABABABABABABABAB".to_vec();
    let compressed = yaz0_compress(&input).expect("compress");
    assert_eq!(yaz0_decompress(&compressed), Some(input));
}

// Verifies non-Yaz0 input is rejected before the decoder touches payload bytes.
#[test]
fn yaz0_decompress_rejects_wrong_magic() {
    assert_eq!(yaz0_decompress(b"NOTYAZ0"), None);
}

#[test]
fn gz2e_rejects_other_revisions() {
    let mut header = vec![0u8; 32];
    header[0..4].copy_from_slice(b"GZ2E");
    header[4..6].copy_from_slice(b"02");
    assert_eq!(
        check_gz2e_header(&header),
        Err("Unsupported GZ2E revision: 02".to_string())
    );
}

#[test]
fn gz2e_reports_undecodable_revisions() {
    let mut header = vec![0u8; 32];
    header[0..4].copy_from_slice(b"GZ2E");
    header[4] = 0xff;
    header[5] = 0xfe;
    assert_eq!(
        check_gz2e_header(&header),
        Err("Unsupported GZ2E revision: ??".to_string())
    );
}

#[test]
fn gz2e_plan_rejects_block_compressed_images() {
    let info = vec![0u8; 0x40];
    assert!(gz2e_plan(&info).unwrap_err().contains("not yet fully supported"));
}

#[test]
fn is_gz2e_rejects_short_or_other_data() {
    assert!(!is_gz2e(b"GZ2"));
    assert!(!is_gz2e(b"GZ3E"));
}

#[test]
fn yaz0_roundtrip_on_varied_data() {
    let mut input = Vec::new();
    for i in 0..1000u32 {
        input.push((i * 7 % 13) as u8);
    }
    let compressed = yaz0_compress(&input).unwrap();
    assert_eq!(&compressed[0..4], b"Yaz0");
    assert_eq!(yaz0_decompress(&compressed), Some(input));
}

#[test]
fn yaz0_compress_of_empty_input_is_a_header() {
    let compressed = yaz0_compress(&[]).unwrap();
    assert_eq!(&compressed[0..8], b"Yaz0\0\0\0\0");
    assert_eq!(yaz0_decompress(&compressed), Some(vec![]));
}
