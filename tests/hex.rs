use bintool::bin_format::CalSegDescriptor;
use bintool::error::Bin2HexError;
use bintool::hex_codec::{decode_hex_records, decode_hex_text, encode_hex_records, encode_hex_text, HexRecord, HexSegments};

fn seg(addr: u32, data: Vec<u8>) -> (CalSegDescriptor, Vec<u8>) {
    (CalSegDescriptor { index: 0, size: data.len() as u16, addr, name: String::from("s") }, data)
}

fn data(offset: u16, value: Vec<u8>) -> HexRecord {
    HexRecord::Data { offset, value }
}

fn pattern(n: usize, seed: u8) -> Vec<u8> {
    (0..n).map(|i| (i as u8).wrapping_mul(31).wrapping_add(seed)).collect()
}

#[test]
fn chunks_of_thirty_two_bytes() {
    let payload = pattern(40, 1);
    let recs = encode_hex_records(&[seg(0x8000_0000, payload.clone())]);
    assert_eq!(
        recs,
        vec![
            HexRecord::ExtendedLinearAddress(0x8000),
            data(0x0000, payload[..32].to_vec()),
            data(0x0020, payload[32..].to_vec()),
            HexRecord::EndOfFile,
        ]
    );
}

#[test]
fn exact_hex_text() {
    let text = encode_hex_text(&[seg(0x0000_1000, vec![0xDE, 0xAD, 0xBE, 0xEF])]).unwrap();
    assert_eq!(text, ":020000040000FA\n:04100000DEADBEEFB4\n:00000001FF\n");
}

#[test]
fn new_extended_address_when_upper_half_differs() {
    let recs = encode_hex_records(&[seg(0x0001_0000, vec![1, 2]), seg(0x0002_0000, vec![3])]);
    assert_eq!(
        recs,
        vec![
            HexRecord::ExtendedLinearAddress(0x0001),
            data(0x0000, vec![1, 2]),
            HexRecord::ExtendedLinearAddress(0x0002),
            data(0x0000, vec![3]),
            HexRecord::EndOfFile,
        ]
    );
}

#[test]
fn no_new_extended_address_when_upper_half_equal() {
    let recs = encode_hex_records(&[seg(0x0001_0000, vec![1, 2]), seg(0x0001_4000, vec![3])]);
    assert_eq!(
        recs,
        vec![
            HexRecord::ExtendedLinearAddress(0x0001),
            data(0x0000, vec![1, 2]),
            data(0x4000, vec![3]),
            HexRecord::EndOfFile,
        ]
    );
}

#[test]
fn extended_address_when_crossing_a_page_inside_a_segment() {
    let payload = pattern(64, 5);
    let recs = encode_hex_records(&[seg(0x0000_FFE0, payload.clone())]);
    assert_eq!(
        recs,
        vec![
            HexRecord::ExtendedLinearAddress(0x0000),
            data(0xFFE0, payload[..32].to_vec()),
            HexRecord::ExtendedLinearAddress(0x0001),
            data(0x0000, payload[32..].to_vec()),
            HexRecord::EndOfFile,
        ]
    );
}

#[test]
fn empty_segment_produces_no_records() {
    let recs = encode_hex_records(&[seg(0x1000, vec![])]);
    assert_eq!(recs, vec![HexRecord::EndOfFile]);
    let text = encode_hex_text(&[seg(0x1000, vec![])]).unwrap();
    let back = decode_hex_text(&text).unwrap();
    assert_eq!(back.len(), 0);
}

#[test]
fn empty_segment_among_others() {
    let a = encode_hex_records(&[seg(0x1000, vec![1]), seg(0x5000, vec![]), seg(0x9000, vec![2])]);
    let b = encode_hex_records(&[seg(0x1000, vec![1]), seg(0x9000, vec![2])]);
    assert_eq!(a, b);
}

#[test]
fn round_trip_through_text() {
    for size in [0usize, 1, 31, 32, 33, 64, 100, 257] {
        let segs = vec![
            seg(0x8000_0000, pattern(size, 3)),
            seg(0x8001_0000, pattern(size + 7, 9)),
            seg(0x0000_2000, pattern(size / 2, 1)),
        ];
        let text = encode_hex_text(&segs).unwrap();
        let back = decode_hex_text(&text).unwrap();
        let mut expected = 0;
        for (d, payload) in &segs {
            if payload.is_empty() {
                assert!(back.get(d.addr).is_none());
            } else {
                expected += 1;
                assert_eq!(back.get(d.addr), Some(payload));
            }
        }
        assert_eq!(back.len(), expected);
    }
}

#[test]
fn records_within_gap_join_a_segment() {
    let recs = vec![
        HexRecord::ExtendedLinearAddress(0),
        data(0x1000, vec![1; 16]),
        data(0x1100, vec![2; 4]),
        data(0x1300, vec![3; 4]),
        HexRecord::EndOfFile,
    ];
    let m = decode_hex_records(&recs);
    assert_eq!(m.len(), 2);
    let first = m.get(0x1000).unwrap();
    assert_eq!(first.len(), 0x104);
    assert_eq!(&first[..16], &[1; 16]);
    assert!(first[16..0x100].iter().all(|b| *b == 0));
    assert_eq!(&first[0x100..], &[2; 4]);
    assert_eq!(m.get(0x1300).unwrap(), &vec![3; 4]);
}

#[test]
fn gap_limit_is_exclusive() {
    let recs = vec![data(0x1000, vec![1; 16]), data(0x1110, vec![2])];
    let m = decode_hex_records(&recs);
    assert_eq!(m.len(), 2);
    let recs = vec![data(0x1000, vec![1; 16]), data(0x110F, vec![2])];
    let m = decode_hex_records(&recs);
    assert_eq!(m.len(), 1);
    assert_eq!(m.get(0x1000).unwrap().len(), 0x110);
}

#[test]
fn overlapping_records_overwrite() {
    let recs = vec![data(0x10, vec![1, 2, 3, 4]), data(0x12, vec![9, 9, 9, 9])];
    let m = decode_hex_records(&recs);
    assert_eq!(m.get(0x10).unwrap(), &vec![1, 2, 9, 9, 9, 9]);
}

#[test]
fn lowest_base_wins_among_candidates() {
    let recs = vec![
        data(0x2000, vec![7]),
        data(0x1000, vec![1; 16]),
        data(0x1010, vec![0; 0xFF0]),
        data(0x2001, vec![8]),
    ];
    let m = decode_hex_records(&recs);
    assert_eq!(m.get(0x2000).unwrap(), &vec![7]);
    let low = m.get(0x1000).unwrap();
    assert_eq!(low.len(), 0x1002);
    assert_eq!(low[0x1001], 8);
}

#[test]
fn extended_address_sets_upper_half() {
    let recs = vec![
        HexRecord::ExtendedLinearAddress(0x8001),
        data(0x0010, vec![5]),
        HexRecord::ExtendedSegmentAddress(0x1234),
        HexRecord::StartLinearAddress(0),
        data(0x0011, vec![6]),
    ];
    let m = decode_hex_records(&recs);
    assert_eq!(m.get(0x8001_0010).unwrap(), &vec![5, 6]);
}

#[test]
fn malformed_text_is_a_read_error() {
    assert!(matches!(decode_hex_text(":0400000001020304F0\n"), Err(Bin2HexError::IntelHexRead(_))));
    assert!(matches!(decode_hex_text("0400000001020304F2\n"), Err(Bin2HexError::IntelHexRead(_))));
}

#[test]
fn parses_hex_text() {
    let m = decode_hex_text(":020000040001F9\n:0400100001020304E2\n:00000001FF\n").unwrap();
    assert_eq!(m.get(0x0001_0010).unwrap(), &vec![1, 2, 3, 4]);
}

#[test]
fn segment_map_insert_and_get() {
    let mut m = HexSegments::new();
    assert_eq!(m.len(), 0);
    m.insert(5, vec![1]);
    m.insert(9, vec![2]);
    m.insert(5, vec![3]);
    assert_eq!(m.len(), 2);
    assert_eq!(m.get(5).unwrap(), &vec![3]);
    assert_eq!(m.get(9).unwrap(), &vec![2]);
    assert!(m.get(7).is_none());
}
