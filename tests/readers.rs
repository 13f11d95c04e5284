use bintool::cfa_reader::{CfaEntry, FunctionInfo, SimpleCfaReader};
use bintool::dwarf_reader::{functions_from_symbols, sort_functions, SimpleDwarfReader, SymbolInfo};

fn entry(pc_start: u64, pc_end: u64, cfa_offset: i64) -> CfaEntry {
    CfaEntry { pc_start, pc_end, cfa_offset }
}

fn loaded() -> SimpleCfaReader {
    let mut r = SimpleCfaReader::new(String::from("build/demo"));
    r.load_cfa_entries(vec![
        entry(0x2060, 0x2064, 32),
        entry(0x2054, 0x2058, 96),
        entry(0x2058, 0x205c, 96),
        entry(0x205c, 0x2060, 96),
        entry(0x2100, 0x2104, 16),
    ]);
    r
}

#[test]
fn cfa_reader_starts_empty() {
    let r = SimpleCfaReader::new(String::from("build/demo"));
    assert!(!r.has_cfa_entries());
    assert_eq!(r.executable_path(), "build/demo");
}

#[test]
fn cfa_lookup_by_pc() {
    let r = loaded();
    assert!(r.has_cfa_entries());
    assert_eq!(r.get_cfa_offset_for_pc(0x2054), Some(96));
    assert_eq!(r.get_cfa_offset_for_pc(0x205f), Some(96));
    assert_eq!(r.get_cfa_offset_for_pc(0x2060), Some(32));
    assert_eq!(r.get_cfa_offset_for_pc(0x2064), None);
    assert_eq!(r.get_cfa_offset_for_pc(0x2102), Some(16));
    assert_eq!(r.get_cfa_offset_for_pc(0x1000), None);
}

#[test]
fn cfa_lookup_by_function_uses_midpoint() {
    let r = loaded();
    let f = FunctionInfo { name: String::from("foo"), pc_start: 0x2050, pc_end: 0x2064 };
    assert_eq!(r.get_cfa_offset_for_function(&f), Some(96));
    let g = FunctionInfo { name: String::from("bar"), pc_start: 0x20f0, pc_end: 0x2110 };
    assert_eq!(r.get_cfa_offset_for_function(&g), Some(16));
}

#[test]
fn cfa_find_function_by_name_or_part() {
    let r = loaded();
    let fs = vec![
        FunctionInfo { name: String::from("main"), pc_start: 0x1000, pc_end: 0x1100 },
        FunctionInfo { name: String::from("task_fast"), pc_start: 0x1100, pc_end: 0x1200 },
        FunctionInfo { name: String::from("task"), pc_start: 0x1200, pc_end: 0x1300 },
    ];
    let f = r.find_function(&fs, "task").unwrap();
    assert_eq!(f.name, "task_fast");
    assert_eq!(f.pc_start, 0x1100);
    assert_eq!(r.find_function(&fs, "main").unwrap().pc_end, 0x1100);
    assert!(r.find_function(&fs, "missing").is_none());
}

fn sym(is_text: bool, name: Option<&str>, address: u64, size: u64) -> SymbolInfo {
    SymbolInfo { is_text, name: name.map(String::from), address, size }
}

#[test]
fn functions_from_text_symbols() {
    let syms = vec![
        sym(true, Some("task"), 0x3000, 0x40),
        sym(false, Some("counter"), 0x9000, 4),
        sym(true, Some("_start"), 0x1000, 0x10),
        sym(true, None, 0x1100, 0x10),
        sym(true, Some(""), 0x1200, 0x10),
        sym(true, Some("main"), 0x2000, 0x80),
        sym(true, Some("edge"), u64::MAX - 1, 8),
    ];
    let fs = sort_functions(&functions_from_symbols(&syms));
    let names: Vec<&str> = fs.iter().map(|f| f.name.as_str()).collect();
    assert_eq!(names, vec!["main", "task", "edge"]);
    assert_eq!(fs[0].pc_start, 0x2000);
    assert_eq!(fs[0].pc_end, 0x2080);
    assert_eq!(fs[0].compilation_unit, "unknown");
    assert_eq!(fs[2].pc_end, u64::MAX);
}

#[test]
fn sorting_keeps_order_of_equal_starts() {
    let syms = vec![sym(true, Some("b"), 0x10, 1), sym(true, Some("a"), 0x10, 2), sym(true, Some("c"), 0x8, 1)];
    let fs = sort_functions(&functions_from_symbols(&syms));
    let names: Vec<&str> = fs.iter().map(|f| f.name.as_str()).collect();
    assert_eq!(names, vec!["c", "b", "a"]);
}

#[test]
fn dwarf_reader_rejects_non_object_data() {
    let r = SimpleDwarfReader::new(vec![1, 2, 3, 4]);
    assert_eq!(r.file_data(), &vec![1, 2, 3, 4]);
    assert!(r.parse_functions_from_symbols().is_err());
    assert!(r.find_function("main").is_err());
}
