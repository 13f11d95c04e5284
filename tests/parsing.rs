use bintool::cfa_expr::{decode_sleb128, decode_uleb128, parse_simple_cfa_expression};
use bintool::cfa_reader::{CfaEntry, SimpleCfaReader};
use bintool::text::{parse_dec_i64, parse_hex_u64, token_bounds};

fn chars(s: &str) -> Vec<char> {
    s.chars().collect()
}

#[test]
fn tokens_split_on_whitespace() {
    let c = chars("  ab\tc  def ");
    assert_eq!(token_bounds(&c, 5), vec![(2, 4), (5, 6), (8, 11)]);
    assert_eq!(token_bounds(&c, 2), vec![(2, 4), (5, 6)]);
    assert!(token_bounds(&chars("   "), 2).is_empty());
}

#[test]
fn hex_literals() {
    let c = chars("205c +ff 10000000000000000 ffffffffffffffff 12g -1 +");
    let t = token_bounds(&c, 7);
    let v: Vec<Option<u64>> = t.iter().map(|&(a, b)| parse_hex_u64(&c, a, b)).collect();
    assert_eq!(v, vec![Some(0x205c), Some(0xff), None, Some(u64::MAX), None, None, None]);
}

#[test]
fn decimal_literals() {
    let c = chars("96 -24 +7 9223372036854775807 9223372036854775808 -9223372036854775808 - 1a");
    let t = token_bounds(&c, 8);
    let v: Vec<Option<i64>> = t.iter().map(|&(a, b)| parse_dec_i64(&c, a, b)).collect();
    assert_eq!(v, vec![Some(96), Some(-24), Some(7), Some(i64::MAX), None, Some(i64::MIN), None, None]);
}

#[test]
fn readelf_rows() {
    let r = SimpleCfaReader::new(String::from("demo"));
    assert_eq!(
        r.parse_cfa_line("000000000000205c x29+96   u     c-96  c-88"),
        Some(CfaEntry { pc_start: 0x205c, pc_end: 0x2060, cfa_offset: 96 })
    );
    assert_eq!(r.parse_cfa_line("0000000000002054 sp+0     u     u     u"), None);
    assert_eq!(r.parse_cfa_line("x29+16"), None);
    assert_eq!(r.parse_cfa_line("zzzz x29+16"), None);
    assert_eq!(r.parse_cfa_line("2000 x29+abc"), None);
    assert_eq!(r.parse_cfa_line("ffffffffffffffff x29+8"), None);
}

#[test]
fn readelf_output_loads_merged_table() {
    let mut r = SimpleCfaReader::new(String::from("demo"));
    let out = "   LOC           CFA      x19   x20\n\
               0000000000002060 x29+32   u     u\n\
               0000000000002054 x29+96   u     u\n\
               0000000000002058 x29+96   u     u\n\
               0000000000002100 sp+16    u     u\n";
    r.load_readelf_output(out);
    assert!(r.has_cfa_entries());
    assert_eq!(r.get_cfa_offset_for_pc(0x2054), Some(96));
    assert_eq!(r.get_cfa_offset_for_pc(0x205b), Some(96));
    assert_eq!(r.get_cfa_offset_for_pc(0x205c), None);
    assert_eq!(r.get_cfa_offset_for_pc(0x2062), Some(32));
    assert_eq!(r.get_cfa_offset_for_pc(0x2100), None);
}

#[test]
fn nm_output_functions() {
    let r = SimpleCfaReader::new(String::from("demo"));
    let out = "0000000000001000 T _start\n\
               0000000000001040 T main\n\
               0000000000001100 t helper\n\
               0000000000001200 T task.cold\n\
               0000000000001300 T task\n\
                                U printf\n\
               0000000000001400 T foo\n";
    let fs = r.parse_functions(out);
    let v: Vec<(&str, u64, u64)> = fs.iter().map(|f| (f.name.as_str(), f.pc_start, f.pc_end)).collect();
    assert_eq!(v, vec![("main", 0x1040, 0x1300), ("task", 0x1300, 0x1400), ("foo", 0x1400, 0x1401)]);
}

#[test]
fn uleb128_values() {
    assert_eq!(decode_uleb128(&[0x02]), Some((2, 1)));
    assert_eq!(decode_uleb128(&[0xE5, 0x8E, 0x26, 0xFF]), Some((624485, 3)));
    assert_eq!(decode_uleb128(&[0x80, 0x80]), None);
    assert_eq!(decode_uleb128(&[]), None);
    let max = [0xFF, 0xFF, 0xFF, 0xFF, 0xFF, 0xFF, 0xFF, 0xFF, 0xFF, 0x01];
    assert_eq!(decode_uleb128(&max), Some((u64::MAX, 10)));
    let wide = [0x80, 0x80, 0x80, 0x80, 0x80, 0x80, 0x80, 0x80, 0x80, 0x7F];
    assert_eq!(decode_uleb128(&wide), Some((1u64 << 63, 10)));
    let long = [0x80, 0x80, 0x80, 0x80, 0x80, 0x80, 0x80, 0x80, 0x80, 0x80, 0x01];
    assert_eq!(decode_uleb128(&long), None);
}

#[test]
fn sleb128_values() {
    assert_eq!(decode_sleb128(&[0x02]), Some((2, 1)));
    assert_eq!(decode_sleb128(&[0x7E]), Some((-2, 1)));
    assert_eq!(decode_sleb128(&[0xC0, 0xBB, 0x78]), Some((-123456, 3)));
    assert_eq!(decode_sleb128(&[0x68]), Some((-24, 1)));
    assert_eq!(decode_sleb128(&[]), Some((0, 0)));
    assert_eq!(decode_sleb128(&[0xFF]), Some((-1, 1)));
    let min = [0x80, 0x80, 0x80, 0x80, 0x80, 0x80, 0x80, 0x80, 0x80, 0x7F];
    assert_eq!(decode_sleb128(&min), Some((i64::MIN, 10)));
    let long = [0x80, 0x80, 0x80, 0x80, 0x80, 0x80, 0x80, 0x80, 0x80, 0x80, 0x01];
    assert_eq!(decode_sleb128(&long), None);
}

#[test]
fn frame_base_expressions() {
    assert_eq!(parse_simple_cfa_expression(&[]), None);
    assert_eq!(parse_simple_cfa_expression(&[0x9c]), Some(0));
    assert_eq!(parse_simple_cfa_expression(&[0x9c, 0x23, 0x10]), Some(16));
    assert_eq!(parse_simple_cfa_expression(&[0x9c, 0x22]), None);
    assert_eq!(parse_simple_cfa_expression(&[0x9c, 0x23, 0x80]), None);
    assert_eq!(parse_simple_cfa_expression(&[0x91, 0x68]), Some(-24));
    assert_eq!(parse_simple_cfa_expression(&[0x50]), None);
}

#[test]
fn nm_output_with_crlf_line_endings() {
    let r = SimpleCfaReader::new(String::from("demo"));
    let fs = r.parse_functions("0000000000001040 T main\r\n0000000000001300 T task\r\n");
    let v: Vec<(&str, u64, u64)> = fs.iter().map(|f| (f.name.as_str(), f.pc_start, f.pc_end)).collect();
    assert_eq!(v, vec![("main", 0x1040, 0x1300), ("task", 0x1300, 0x1301)]);
}
