use bintool::bin_format::{BinHeader, BinLayout, CalSegDescriptor, EventDescriptor};
use bintool::container::{first_segment_pos, next_slot, read_bin_file};
use bintool::error::{Bin2HexError, FormatError};

const SIG: &[u8] = b"XCPLITE__BINARY";

fn put_u16(buf: &mut Vec<u8>, at: usize, v: u16) {
    buf[at..at + 2].copy_from_slice(&v.to_le_bytes());
}

fn put_u32(buf: &mut Vec<u8>, at: usize, v: u32) {
    buf[at..at + 4].copy_from_slice(&v.to_le_bytes());
}

fn put_text(buf: &mut Vec<u8>, at: usize, s: &str) {
    buf[at..at + s.len()].copy_from_slice(s.as_bytes());
}

fn extended_header(version: u16, events: u16, calsegs: u16, epk: &str) -> Vec<u8> {
    let mut h = vec![0u8; 256];
    put_text(&mut h, 0, "XCPLITE__BINARY");
    put_u16(&mut h, 16, version);
    put_u16(&mut h, 18, events);
    put_u16(&mut h, 20, calsegs);
    put_text(&mut h, 150, epk);
    h
}

fn extended_event(id: u16, index: u16, cycle: u32, priority: u8, name: &str) -> Vec<u8> {
    let mut e = vec![0u8; 256];
    put_u16(&mut e, 0, id);
    put_u16(&mut e, 2, index);
    put_u32(&mut e, 4, cycle);
    e[8] = priority;
    put_text(&mut e, 137, name);
    e
}

fn extended_calseg(index: u16, addr: u32, name: &str, payload: &[u8]) -> Vec<u8> {
    let mut d = vec![0u8; 256];
    put_u16(&mut d, 0, index);
    put_u16(&mut d, 2, payload.len() as u16);
    put_u32(&mut d, 4, addr);
    put_text(&mut d, 136, name);
    d.extend_from_slice(payload);
    d
}

fn sample_container() -> Vec<u8> {
    let mut f = extended_header(0x0203, 2, 2, "EPK_1234");
    f.extend(extended_event(7, 0, 10_000_000, 0, "task_10ms"));
    f.extend(extended_event(8, 1, 0, 2, "mainloop"));
    f.extend(extended_calseg(0, 0x8000_0000, "epk", b"EPK_1234"));
    f.extend(extended_calseg(1, 0x8001_0000, "params", &[1, 2, 3, 4, 5, 6, 7, 8, 9, 10, 11, 12]));
    f
}

#[test]
fn test_struct_sizes() {
    assert_eq!(BinLayout::Extended.header_size(), 256);
    assert_eq!(BinLayout::Extended.event_size(), 256);
    assert_eq!(BinLayout::Extended.calseg_size(), 256);
}

#[test]
fn compact_record_sizes() {
    assert_eq!(BinLayout::Compact.header_size(), 58);
    assert_eq!(BinLayout::Compact.event_size(), 28);
    assert_eq!(BinLayout::Compact.calseg_size(), 24);
}

#[test]
fn reads_every_record_and_payload() {
    let data = sample_container();
    let f = read_bin_file(&data).unwrap();
    assert_eq!(f.layout, BinLayout::Extended);
    assert_eq!(f.header.signature, "XCPLITE__BINARY");
    assert_eq!(f.header.version, 0x0203);
    assert_eq!(f.header.event_count, 2);
    assert_eq!(f.header.calseg_count, 2);
    assert_eq!(f.header.epk, "EPK_1234");
    assert_eq!(f.events.len(), 2);
    assert_eq!(f.events[0].id, 7);
    assert_eq!(f.events[0].cycle_time_ns, 10_000_000);
    assert_eq!(f.events[0].name, "task_10ms");
    assert_eq!(f.events[1].index, 1);
    assert_eq!(f.events[1].priority, 2);
    assert_eq!(f.events[1].name, "mainloop");
    assert_eq!(f.calsegs.len(), 2);
    assert_eq!(f.calsegs[0].0.name, "epk");
    assert_eq!(f.calsegs[0].0.addr, 0x8000_0000);
    assert_eq!(f.calsegs[0].1, b"EPK_1234".to_vec());
    assert_eq!(f.calsegs[1].0.index, 1);
    assert_eq!(f.calsegs[1].0.size, 12);
    assert_eq!(f.calsegs[1].0.addr, 0x8001_0000);
    assert_eq!(f.calsegs[1].1, vec![1, 2, 3, 4, 5, 6, 7, 8, 9, 10, 11, 12]);
}

#[test]
fn reading_twice_gives_the_same_records() {
    let data = sample_container();
    let a = read_bin_file(&data).unwrap();
    let b = read_bin_file(&data).unwrap();
    assert_eq!(format!("{:?}", a), format!("{:?}", b));
}

#[test]
fn text_stops_at_first_nul() {
    let mut data = extended_header(0x0203, 0, 0, "ABC");
    data[154] = b'X';
    let h = BinHeader::read_from(BinLayout::Extended, &data, 0).unwrap();
    assert_eq!(h.epk, "ABC");
}

#[test]
fn invalid_text_bytes_are_replaced() {
    let mut data = extended_header(0x0203, 0, 0, "A");
    data[151] = 0xFF;
    let h = BinHeader::read_from(BinLayout::Extended, &data, 0).unwrap();
    assert_eq!(h.epk, "A\u{FFFD}");
}

#[test]
fn rejects_bad_signature() {
    let mut data = sample_container();
    data[3] = b'x';
    match read_bin_file(&data) {
        Err(Bin2HexError::InvalidFormat(FormatError::BadSignature { signature })) => {
            assert_eq!(&signature.to_le_bytes(), b"XCPxITE__BINARY\0");
        }
        other => panic!("unexpected result {:?}", other),
    }
}

#[test]
fn rejects_signature_without_terminator() {
    let mut data = sample_container();
    data[15] = b'!';
    assert!(matches!(read_bin_file(&data), Err(Bin2HexError::InvalidFormat(FormatError::BadSignature { .. }))));
}

#[test]
fn rejects_other_extended_version() {
    let mut data = sample_container();
    put_u16(&mut data, 16, 0x0204);
    assert!(matches!(
        read_bin_file(&data),
        Err(Bin2HexError::InvalidFormat(FormatError::UnsupportedVersion { found: 0x0204, expected: 0x0203 }))
    ));
}

#[test]
fn short_file_is_unexpected_eof() {
    assert!(matches!(read_bin_file(&[0u8; 10]), Err(Bin2HexError::UnexpectedEof { offset: 0 })));
    let data = sample_container();
    assert!(matches!(read_bin_file(&data[..200]), Err(Bin2HexError::UnexpectedEof { offset: 0 })));
}

#[test]
fn truncated_event_reports_its_offset() {
    let data = sample_container();
    assert!(matches!(read_bin_file(&data[..600]), Err(Bin2HexError::UnexpectedEof { offset: 512 })));
}

#[test]
fn truncated_descriptor_reports_its_offset() {
    let data = sample_container();
    assert!(matches!(read_bin_file(&data[..800]), Err(Bin2HexError::UnexpectedEof { offset: 768 })));
}

#[test]
fn truncated_payload_reports_its_offset() {
    let data = sample_container();
    let end = data.len() - 1;
    // second descriptor at 768 + 256 + 8 = 1032, payload at 1288
    assert!(matches!(read_bin_file(&data[..end]), Err(Bin2HexError::UnexpectedEof { offset: 1288 })));
}

fn compact_container(version: u16) -> Vec<u8> {
    let mut h = vec![0u8; 58];
    h[..15].copy_from_slice(SIG);
    put_u16(&mut h, 16, version);
    put_text(&mut h, 18, "build-7");
    put_u16(&mut h, 50, 1);
    put_u16(&mut h, 52, 1);
    let mut ev = vec![0u8; 28];
    put_u16(&mut ev, 0, 3);
    put_u16(&mut ev, 2, 4);
    put_u32(&mut ev, 4, 500);
    ev[8] = 1;
    put_text(&mut ev, 9, "fast");
    h.extend(ev);
    let mut d = vec![0u8; 24];
    put_u16(&mut d, 0, 0);
    put_u16(&mut d, 2, 4);
    put_u32(&mut d, 4, 0x2000);
    put_text(&mut d, 8, "cal");
    h.extend(d);
    h.extend_from_slice(&[9, 8, 7, 6]);
    h
}

#[test]
fn reads_compact_layout() {
    let data = compact_container(0x0100);
    let f = read_bin_file(&data).unwrap();
    assert_eq!(f.layout, BinLayout::Compact);
    assert_eq!(f.header.epk, "build-7");
    assert!(!f.header.version_mismatch(BinLayout::Compact));
    assert_eq!(f.events[0].id, 3);
    assert_eq!(f.events[0].index, 4);
    assert_eq!(f.events[0].cycle_time_ns, 500);
    assert_eq!(f.events[0].priority, 1);
    assert_eq!(f.events[0].name, "fast");
    assert_eq!(f.calsegs[0].0.name, "cal");
    assert_eq!(f.calsegs[0].0.addr, 0x2000);
    assert_eq!(f.calsegs[0].1, vec![9, 8, 7, 6]);
}

#[test]
fn compact_version_mismatch_is_only_reported() {
    let data = compact_container(0x0105);
    let f = read_bin_file(&data).unwrap();
    assert_eq!(f.header.version, 0x0105);
    assert!(f.header.version_mismatch(BinLayout::Compact));
}

#[test]
fn layout_follows_major_version() {
    assert_eq!(BinLayout::from_version(0x0203), BinLayout::Extended);
    assert_eq!(BinLayout::from_version(0x0100), BinLayout::Compact);
    assert!(matches!(BinLayout::detect(&[0u8; 17]), Err(Bin2HexError::UnexpectedEof { offset: 0 })));
    assert_eq!(BinLayout::detect(&sample_container()).unwrap(), BinLayout::Extended);
}

#[test]
fn descriptors_read_at_offset() {
    let data = sample_container();
    let e = EventDescriptor::read_from(BinLayout::Extended, &data, 256).unwrap();
    assert_eq!(e.name, "task_10ms");
    let c = CalSegDescriptor::read_from(BinLayout::Extended, &data, 768).unwrap();
    assert_eq!(c.size, 8);
    assert!(matches!(
        CalSegDescriptor::read_from(BinLayout::Extended, &data, data.len() - 10),
        Err(Bin2HexError::UnexpectedEof { .. })
    ));
}

#[test]
fn segment_name_ends_at_first_nul() {
    let mut f = extended_header(0x0203, 0, 1, "E");
    let mut d = extended_calseg(0, 0x100, "epk", &[1, 2, 3, 4]);
    put_text(&mut d, 140, "xyz");
    f.extend(d);
    let file = read_bin_file(&f).unwrap();
    assert_eq!(file.calsegs[0].0.name, "epk");
}

#[test]
fn slots_follow_descriptors() {
    let data = sample_container();
    let first = first_segment_pos(BinLayout::Extended, 2);
    assert_eq!(first, 768);
    let d0 = CalSegDescriptor::read_from(BinLayout::Extended, &data, first).unwrap();
    let (slot, next) = next_slot(BinLayout::Extended, first, d0, data.len()).unwrap();
    assert_eq!(slot.data_pos, 1024);
    assert_eq!(next, 1032);
    let d1 = CalSegDescriptor::read_from(BinLayout::Extended, &data, next).unwrap();
    assert!(matches!(
        next_slot(BinLayout::Extended, next, d1, data.len() - 1),
        Err(Bin2HexError::UnexpectedEof { offset: 1288 })
    ));
}
