use bintool::error::{Bin2HexError, MismatchError};
use bintool::hex_codec::HexSegments;
use bintool::bin_format::CalSegDescriptor;
use bintool::container::SegmentSlot;
use bintool::patch::{apply_hex_to_bin, apply_writes, is_epk, plan_patch, PatchReport, SegmentWrite};

fn put_u16(buf: &mut Vec<u8>, at: usize, v: u16) {
    buf[at..at + 2].copy_from_slice(&v.to_le_bytes());
}

fn put_u32(buf: &mut Vec<u8>, at: usize, v: u32) {
    buf[at..at + 4].copy_from_slice(&v.to_le_bytes());
}

fn put_text(buf: &mut Vec<u8>, at: usize, s: &str) {
    buf[at..at + s.len()].copy_from_slice(s.as_bytes());
}

fn calseg(index: u16, addr: u32, name: &str, payload: &[u8]) -> Vec<u8> {
    let mut d = vec![0u8; 256];
    put_u16(&mut d, 0, index);
    put_u16(&mut d, 2, payload.len() as u16);
    put_u32(&mut d, 4, addr);
    put_text(&mut d, 136, name);
    d.extend_from_slice(payload);
    d
}

const EPK: &[u8] = b"EPK_2024_11_01\0\0";
const EPK_ADDR: u32 = 0x8000_0000;
const PARAMS_ADDR: u32 = 0x8001_0000;
const CURVES_ADDR: u32 = 0x8002_0000;

/// A container with one event and three segments; returns it with the
/// payload offset of each segment.
fn container() -> (Vec<u8>, [usize; 3]) {
    let mut f = vec![0u8; 256];
    put_text(&mut f, 0, "XCPLITE__BINARY");
    put_u16(&mut f, 16, 0x0203);
    put_u16(&mut f, 18, 1);
    put_u16(&mut f, 20, 3);
    put_text(&mut f, 150, "EPK_2024_11_01");
    let mut ev = vec![0u8; 256];
    put_text(&mut ev, 137, "task");
    f.extend(ev);
    let at0 = f.len() + 256;
    f.extend(calseg(0, EPK_ADDR, "epk", EPK));
    let at1 = f.len() + 256;
    f.extend(calseg(1, PARAMS_ADDR, "params", &[0u8; 8]));
    let at2 = f.len() + 256;
    f.extend(calseg(2, CURVES_ADDR, "curves", &[0xAAu8; 12]));
    (f, [at0, at1, at2])
}

#[test]
fn identity_mismatch_leaves_file_unchanged() {
    let (mut f, _) = container();
    let before = f.clone();
    let mut hex = HexSegments::new();
    let mut epk = EPK.to_vec();
    epk[3] ^= 1;
    hex.insert(EPK_ADDR, epk);
    hex.insert(PARAMS_ADDR, vec![1; 8]);
    let r = apply_hex_to_bin(&mut f, &hex);
    assert!(matches!(r, Err(Bin2HexError::SegmentMismatch(MismatchError::IdentityContent))));
    assert_eq!(f, before);
}

#[test]
fn identity_size_mismatch_leaves_file_unchanged() {
    let (mut f, _) = container();
    let before = f.clone();
    let mut hex = HexSegments::new();
    let mut epk = EPK.to_vec();
    epk.push(0);
    hex.insert(EPK_ADDR, epk);
    let r = apply_hex_to_bin(&mut f, &hex);
    assert!(matches!(
        r,
        Err(Bin2HexError::SegmentMismatch(MismatchError::IdentitySize { bin_size: 16, hex_len: 17 }))
    ));
    assert_eq!(f, before);
}

#[test]
fn short_coverage_leaves_file_unchanged() {
    let (mut f, _) = container();
    let before = f.clone();
    let mut hex = HexSegments::new();
    hex.insert(EPK_ADDR, EPK.to_vec());
    hex.insert(PARAMS_ADDR, vec![1; 8]);
    hex.insert(CURVES_ADDR, vec![2; 11]);
    let r = apply_hex_to_bin(&mut f, &hex);
    assert!(matches!(
        r,
        Err(Bin2HexError::SegmentMismatch(MismatchError::ShortCoverage { segment: 2, hex_len: 11, bin_size: 12 }))
    ));
    assert_eq!(f, before);
}

#[test]
fn patches_two_of_three_segments() {
    let (mut f, [at0, at1, at2]) = container();
    let before = f.clone();
    let mut hex = HexSegments::new();
    hex.insert(EPK_ADDR, EPK.to_vec());
    hex.insert(PARAMS_ADDR, vec![1, 2, 3, 4, 5, 6, 7, 8]);
    let r = apply_hex_to_bin(&mut f, &hex).unwrap();
    assert_eq!(r, PatchReport { updated: 2, total: 3 });
    assert_eq!(&f[at0..at0 + 16], EPK);
    assert_eq!(&f[at1..at1 + 8], &[1, 2, 3, 4, 5, 6, 7, 8]);
    assert_eq!(&f[at2..at2 + 12], &[0xAA; 12]);
    assert_eq!(&f[..at1], &before[..at1]);
    assert_eq!(&f[at1 + 8..], &before[at1 + 8..]);
}

#[test]
fn excess_hex_bytes_are_not_written() {
    let (mut f, [_, at1, _]) = container();
    let before = f.clone();
    let mut hex = HexSegments::new();
    hex.insert(PARAMS_ADDR, vec![9; 20]);
    let r = apply_hex_to_bin(&mut f, &hex).unwrap();
    assert_eq!(r, PatchReport { updated: 1, total: 3 });
    assert_eq!(&f[at1..at1 + 8], &[9; 8]);
    assert_eq!(&f[at1 + 8..], &before[at1 + 8..]);
}

#[test]
fn unaddressed_map_changes_nothing() {
    let (mut f, _) = container();
    let before = f.clone();
    let mut hex = HexSegments::new();
    hex.insert(0x1234, vec![1, 2, 3]);
    let r = apply_hex_to_bin(&mut f, &hex).unwrap();
    assert_eq!(r, PatchReport { updated: 0, total: 3 });
    assert_eq!(f, before);
}

#[test]
fn malformed_container_is_not_patched() {
    let (mut f, _) = container();
    f[0] = b'Y';
    let before = f.clone();
    let mut hex = HexSegments::new();
    hex.insert(PARAMS_ADDR, vec![1; 8]);
    assert!(matches!(apply_hex_to_bin(&mut f, &hex), Err(Bin2HexError::InvalidFormat(_))));
    assert_eq!(f, before);
    let mut short = f[..300].to_vec();
    assert!(matches!(apply_hex_to_bin(&mut short, &hex), Err(Bin2HexError::InvalidFormat(_))));
}

#[test]
fn truncated_container_is_not_patched() {
    let (f, _) = container();
    let mut short = f[..f.len() - 1].to_vec();
    let before = short.clone();
    let mut hex = HexSegments::new();
    hex.insert(PARAMS_ADDR, vec![1; 8]);
    assert!(matches!(apply_hex_to_bin(&mut short, &hex), Err(Bin2HexError::UnexpectedEof { .. })));
    assert_eq!(short, before);
}

#[test]
fn identity_name_is_trimmed() {
    assert!(is_epk("epk"));
    assert!(is_epk("  epk\t"));
    assert!(is_epk("\u{3000}epk\n"));
    assert!(!is_epk("epk2"));
    assert!(!is_epk("e pk"));
    assert!(!is_epk(""));
    assert!(!is_epk("EPK"));
}

fn slot(index: u16, addr: u32, name: &str, size: u16, data_pos: usize) -> SegmentSlot {
    SegmentSlot { desc: CalSegDescriptor { index, size, addr, name: String::from(name) }, data_pos }
}

#[test]
fn plan_lists_writes_in_table_order() {
    let slots = vec![slot(0, EPK_ADDR, "epk", 16, 1000), slot(1, PARAMS_ADDR, "params", 4, 2000), slot(2, CURVES_ADDR, "c", 2, 3000)];
    let mut hex = HexSegments::new();
    hex.insert(CURVES_ADDR, vec![7, 8, 9]);
    hex.insert(EPK_ADDR, EPK.to_vec());
    let w = plan_patch(&slots, EPK, &hex).unwrap();
    assert_eq!(w.len(), 2);
    assert_eq!((w[0].offset, w[0].data.clone()), (1000, EPK.to_vec()));
    assert_eq!((w[1].offset, w[1].data.clone()), (3000, vec![7, 8]));
}

#[test]
fn plan_refuses_identity_mismatch() {
    let slots = vec![slot(0, EPK_ADDR, " epk ", 16, 1000), slot(1, PARAMS_ADDR, "params", 4, 2000)];
    let mut hex = HexSegments::new();
    hex.insert(EPK_ADDR, b"EPK_2024_11_02\0\0".to_vec());
    hex.insert(PARAMS_ADDR, vec![1; 4]);
    assert!(matches!(plan_patch(&slots, EPK, &hex), Err(MismatchError::IdentityContent)));
}

#[test]
fn plan_checks_identity_only_for_first_segment() {
    let slots = vec![slot(0, PARAMS_ADDR, "params", 4, 2000), slot(1, EPK_ADDR, "epk", 16, 1000)];
    let mut hex = HexSegments::new();
    hex.insert(EPK_ADDR, vec![0; 16]);
    let w = plan_patch(&slots, &[1, 2, 3, 4], &hex).unwrap();
    assert_eq!(w.len(), 1);
    assert_eq!(w[0].offset, 1000);
}

#[test]
fn plan_refuses_short_coverage() {
    let slots = vec![slot(0, PARAMS_ADDR, "params", 4, 2000)];
    let mut hex = HexSegments::new();
    hex.insert(PARAMS_ADDR, vec![1; 3]);
    assert!(matches!(
        plan_patch(&slots, &[], &hex),
        Err(MismatchError::ShortCoverage { segment: 0, hex_len: 3, bin_size: 4 })
    ));
}

#[test]
fn writes_land_at_their_offsets() {
    let mut image = vec![0u8; 8];
    let writes = vec![SegmentWrite { offset: 1, data: vec![1, 2] }, SegmentWrite { offset: 6, data: vec![3, 4] }];
    apply_writes(&mut image, &writes);
    assert_eq!(image, vec![0, 1, 2, 0, 0, 0, 3, 4]);
}
