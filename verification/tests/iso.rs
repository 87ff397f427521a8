use tpmt::formats::iso::iso::{find_iso_file, iso_relative_path, parse_fst, strip_files_root, IsoFileEntry};
use tpmt::formats::iso::iso_rebuild::{
    align_up, choose_replacement, dol_size_from_header, order_by_offset, patch_disc_header,
    patch_fst_entry, plan_layout,
};
use tpmt::formats::iso::rebuild_plan::{apploader_full_size, plan_rebuild};
use tpmt::utils::read_u32_be;

/// A disc image holding one file at 0x1200, with its FST at 0x1000.
fn single_file_image(file_name: &str, file_bytes: &[u8]) -> Vec<u8> {
    let fst_offset = 0x1000usize;
    let file_offset = 0x1200usize;
    let mut name_bytes = file_name.as_bytes().to_vec();
    name_bytes.push(0);
    let fst_size = 24 + name_bytes.len();
    let mut bytes = vec![0u8; file_offset + file_bytes.len()];
    bytes[0x424..0x428].copy_from_slice(&(fst_offset as u32).to_be_bytes());
    bytes[0x428..0x42C].copy_from_slice(&(fst_size as u32).to_be_bytes());
    bytes[fst_offset..fst_offset + 12].copy_from_slice(&[1, 0, 0, 0, 0, 0, 0, 0, 0, 0, 0, 2]);
    bytes[fst_offset + 12..fst_offset + 20].copy_from_slice(&[0, 0, 0, 0, 0, 0, 0x12, 0]);
    bytes[fst_offset + 20..fst_offset + 24].copy_from_slice(&(file_bytes.len() as u32).to_be_bytes());
    bytes[fst_offset + 24..fst_offset + 24 + name_bytes.len()].copy_from_slice(&name_bytes);
    bytes[file_offset..].copy_from_slice(file_bytes);
    bytes
}

fn files_of(image: &[u8]) -> Vec<IsoFileEntry> {
    let fst_offset = read_u32_be(image, 0x424) as usize;
    let fst_size = read_u32_be(image, 0x428) as usize;
    parse_fst(&image[fst_offset..fst_offset + fst_size]).unwrap()
}

// Verifies a minimal FST can be parsed into a single file entry.
#[test]
fn parse_iso_files_extracts_one_file() {
    let image = single_file_image("a.txt", b"DATA");
    let files = files_of(&image);
    assert_eq!(files[0].path, "files/a.txt");
    assert_eq!(files[0].offset, 0x1200);
    assert_eq!(files[0].size, 4);
    assert_eq!(files[0].fst_index, 1);
}

// Verifies file reads use the parsed FST offset and size instead of guessing.
#[test]
fn read_iso_file_bytes_returns_the_expected_payload() {
    let image = single_file_image("a.txt", b"DATA");
    let files = files_of(&image);
    let k = find_iso_file(&files, "a.txt").unwrap();
    let start = files[k].offset as usize;
    assert_eq!(&image[start..start + files[k].size as usize], b"DATA");
}

// Verifies per-file hashing is keyed by the relative ISO path expected by the build system.
#[test]
fn build_iso_hash_map_uses_relative_paths() {
    let image = single_file_image("a.txt", b"DATA");
    let files = files_of(&image);
    assert_eq!(iso_relative_path(&files[0].path), Ok("a.txt".to_string()));
}

#[test]
fn find_iso_file_names_missing_paths() {
    let files = files_of(&single_file_image("a.txt", b"DATA"));
    assert_eq!(find_iso_file(&files, "b.txt"), Err("File not found in ISO: b.txt".to_string()));
}

#[test]
fn iso_relative_path_rejects_other_roots() {
    assert_eq!(iso_relative_path("sys/main.dol"), Err("Unexpected ISO file root".to_string()));
    assert_eq!(strip_files_root("files/res/a.arc"), Some("res/a.arc".to_string()));
    assert_eq!(strip_files_root("file"), None);
}

#[test]
fn parse_fst_walks_nested_directories() {
    // root (3 entries): dir "d" holding file "f", 7 bytes at 0x40.
    let mut fst = Vec::new();
    fst.extend_from_slice(&[1, 0, 0, 0, 0, 0, 0, 0, 0, 0, 0, 3]);
    fst.extend_from_slice(&[1, 0, 0, 0, 0, 0, 0, 0, 0, 0, 0, 3]);
    fst.extend_from_slice(&[0, 0, 0, 2, 0, 0, 0, 0x40, 0, 0, 0, 7]);
    fst.extend_from_slice(b"d\0f\0");
    let files = parse_fst(&fst).unwrap();
    assert_eq!(files.len(), 1);
    assert_eq!(files[0].path, "files/d/f");
    assert_eq!(files[0].offset, 0x40);
    assert_eq!(files[0].size, 7);
    assert_eq!(files[0].fst_index, 2);
}

#[test]
fn parse_fst_reports_each_error() {
    assert_eq!(parse_fst(&[0u8; 4]).err(), Some("Invalid FST size".to_string()));
    assert_eq!(parse_fst(&[0u8; 12]).err(), Some("FST root is not a directory".to_string()));
    assert_eq!(
        parse_fst(&[1, 0, 0, 0, 0, 0, 0, 0, 0, 0, 0, 9]).err(),
        Some("Invalid FST entry count".to_string())
    );
}

#[test]
fn align_up_rounds_to_the_next_multiple() {
    assert_eq!(align_up(0x2A21, 4), 0x2A24);
    assert_eq!(align_up(0x2A24, 4), 0x2A24);
    assert_eq!(align_up(0x2561, 0x100), 0x2600);
}

#[test]
fn plan_layout_places_everything_in_order() {
    let layout = plan_layout(0x100, 0x300, 0x20, &[3, 5]);
    assert_eq!(layout.dol_offset, 0x2600);
    assert_eq!(layout.fst_offset, 0x2A00);
    assert_eq!(layout.file_offsets, vec![0x2A20, 0x2A24]);
    assert_eq!(layout.end, 0x2A2C);
    // Nothing overlaps.
    assert!(layout.dol_offset + 0x300 <= layout.fst_offset);
    assert!(layout.fst_offset + 0x20 <= layout.file_offsets[0]);
    assert!(layout.file_offsets[0] + 3 <= layout.file_offsets[1]);
}

#[test]
fn dol_size_is_the_furthest_section_end() {
    let mut header = vec![0u8; 0xD8];
    header[0..4].copy_from_slice(&0x100u32.to_be_bytes());
    header[0x90..0x94].copy_from_slice(&0x200u32.to_be_bytes());
    header[0x1C..0x20].copy_from_slice(&0x400u32.to_be_bytes());
    header[0xAC..0xB0].copy_from_slice(&0x10u32.to_be_bytes());
    assert_eq!(dol_size_from_header(&header), 0x410);
}

fn entry(path: &str, offset: u64) -> IsoFileEntry {
    IsoFileEntry { path: path.to_string(), offset, size: 1, fst_index: 0 }
}

#[test]
fn order_by_offset_is_stable() {
    let files = vec![entry("a", 0x30), entry("b", 0x10), entry("c", 0x30), entry("d", 0x20)];
    assert_eq!(order_by_offset(&files), vec![1, 3, 0, 2]);
}

#[test]
fn choose_replacement_matches_whole_paths_only() {
    let keys = vec!["x/a.txt".to_string(), "a.txt".to_string()];
    assert_eq!(choose_replacement("a.txt", "files/a.txt", &keys), Some(1));
    assert_eq!(choose_replacement("a.txt", "files/a.txt", &["files/a.txt".to_string()]), Some(0));
    assert_eq!(choose_replacement("q/a.txt", "files/q/a.txt", &["other/dir/a.txt".to_string()]), None);
    let arcs = vec!["res/A/R00_00.arc".to_string()];
    assert_eq!(choose_replacement("res/B/R00_00.arc", "files/res/B/R00_00.arc", &arcs), None);
    assert_eq!(choose_replacement("q/a.txt", "files/q/a.txt", &["b.txt".to_string()]), None);
}

#[test]
fn patch_fst_entry_rewrites_offset_and_size() {
    let mut fst = vec![0u8; 24];
    patch_fst_entry(&mut fst, 1, 0x1234, 5);
    assert_eq!(&fst[16..24], &[0, 0, 0x12, 0x34, 0, 0, 0, 5]);
    let before = fst.clone();
    patch_fst_entry(&mut fst, 2, 1, 1);
    assert_eq!(fst, before);
}

#[test]
fn patch_disc_header_writes_the_four_fields() {
    let mut sys = vec![0u8; 0x430];
    patch_disc_header(&mut sys, 0x2600, 0x2A00, 0x20);
    assert_eq!(read_u32_be(&sys, 0x420), 0x2600);
    assert_eq!(read_u32_be(&sys, 0x424), 0x2A00);
    assert_eq!(read_u32_be(&sys, 0x428), 0x20);
    assert_eq!(read_u32_be(&sys, 0x42C), 0x20);
}

/// A disc image as a rebuild reads it: DOL at 0x2460, FST at 0x2800, one
/// file at 0x2A00.
fn rebuild_image(file_name: &str, file_bytes: &[u8]) -> Vec<u8> {
    let (dol_offset, fst_offset, file_offset) = (0x2460usize, 0x2800usize, 0x2A00usize);
    let mut name_bytes = file_name.as_bytes().to_vec();
    name_bytes.push(0);
    let fst_size = 24 + name_bytes.len();
    let mut bytes = vec![0u8; file_offset + file_bytes.len()];
    bytes[0x420..0x424].copy_from_slice(&(dol_offset as u32).to_be_bytes());
    bytes[0x424..0x428].copy_from_slice(&(fst_offset as u32).to_be_bytes());
    bytes[0x428..0x42C].copy_from_slice(&(fst_size as u32).to_be_bytes());
    bytes[0x42C..0x430].copy_from_slice(&(fst_size as u32).to_be_bytes());
    bytes[fst_offset..fst_offset + 12].copy_from_slice(&[1, 0, 0, 0, 0, 0, 0, 0, 0, 0, 0, 2]);
    bytes[fst_offset + 12..fst_offset + 20].copy_from_slice(&[0, 0, 0, 0, 0, 0, 0x2A, 0]);
    bytes[fst_offset + 20..fst_offset + 24].copy_from_slice(&(file_bytes.len() as u32).to_be_bytes());
    bytes[fst_offset + 24..fst_offset + 24 + name_bytes.len()].copy_from_slice(&name_bytes);
    bytes[file_offset..].copy_from_slice(file_bytes);
    bytes
}

// Verifies ISO rebuild swaps in replacement bytes for matching files.
#[test]
fn rebuild_iso_with_files_applies_replacements() {
    let source = rebuild_image("a.txt", b"OLD");
    let fst_offset = read_u32_be(&source, 0x424) as usize;
    let fst_size = read_u32_be(&source, 0x428) as usize;
    let fst = source[fst_offset..fst_offset + fst_size].to_vec();
    let files = parse_fst(&fst).unwrap();
    let apploader_full = apploader_full_size(&source[0x2440..0x2460]);
    let dol_offset = read_u32_be(&source, 0x420) as usize;
    let dol_size = dol_size_from_header(&source[dol_offset..dol_offset + 0xD8]);
    let keys = vec!["a.txt".to_string()];
    let plan = plan_rebuild(source[..0x2440].to_vec(), apploader_full, dol_size, fst, &files, &keys, &[3]);

    assert_eq!(apploader_full, 0x20);
    assert_eq!(plan.dol_offset, 0x2500);
    assert_eq!(plan.fst_offset, 0x2600);
    assert_eq!(plan.writes.len(), 1);
    assert_eq!(plan.writes[0].replacement, Some(0));
    assert_eq!(plan.writes[0].offset, 0x2620);
    assert_eq!(plan.writes[0].size, 3);
    assert_eq!(plan.end, 0x2624);
    assert_eq!(read_u32_be(&plan.sys, 0x420), 0x2500);
    assert_eq!(read_u32_be(&plan.sys, 0x424), 0x2600);
    assert_eq!(read_u32_be(&plan.fst, 16), 0x2620);
    assert_eq!(read_u32_be(&plan.fst, 20), 3);

    // Carrying out the plan.
    let mut out = plan.sys.clone();
    out.resize(plan.end as usize, 0);
    let fo = plan.fst_offset as usize;
    out[fo..fo + plan.fst.len()].copy_from_slice(&plan.fst);
    for w in &plan.writes {
        let data: Vec<u8> = match w.replacement {
            Some(_) => b"NEW".to_vec(),
            None => {
                let f = &files[w.file];
                source[f.offset as usize..(f.offset + f.size) as usize].to_vec()
            }
        };
        out[w.offset as usize..w.offset as usize + data.len()].copy_from_slice(&data);
    }
    assert!(out.windows(3).any(|w| w == b"NEW"));
    let rebuilt = parse_fst(&out[fo..fo + plan.fst.len()]).unwrap();
    let at = rebuilt[0].offset as usize;
    assert_eq!(&out[at..at + rebuilt[0].size as usize], b"NEW");
}

#[test]
fn plan_rebuild_keeps_unreplaced_files() {
    let source = rebuild_image("a.txt", b"OLD");
    let fst = source[0x2800..0x2800 + 30].to_vec();
    let files = parse_fst(&fst).unwrap();
    let plan = plan_rebuild(source[..0x2440].to_vec(), 0x20, 0, fst, &files, &[], &[]);
    assert_eq!(plan.writes[0].replacement, None);
    assert_eq!(plan.writes[0].size, 3);
}
