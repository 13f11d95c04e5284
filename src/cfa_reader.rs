//! CFA offsets of an executable's functions, from the frame table that
//! `readelf -wF` lists and the symbols that `nm -n` lists. Running those
//! tools is up to the caller; this module keeps and queries what they
//! report.
use vstd::prelude::*;
use vstd::string::*;

use crate::text::{dec_i64, hex_u64, parse_dec_i64, parse_hex_u64, token_bounds, tokens};

verus! {

/// A function and the addresses it spans.
#[derive(Debug, Clone)]
pub struct FunctionInfo {
    pub name: String,
    pub pc_start: u64,
    pub pc_end: u64,
}

/// A range of code addresses with the CFA offset that holds there.
#[derive(Debug, Clone, Copy, PartialEq, Eq, Structural)]
pub struct CfaEntry {
    pub pc_start: u64,
    pub pc_end: u64,
    pub cfa_offset: i64,
}

impl FunctionInfo {
    /// A field-by-field copy.
    pub fn copy(&self) -> (r: FunctionInfo)
        ensures
            r.name@ == self.name@,
            r.pc_start == self.pc_start,
            r.pc_end == self.pc_end,
    {
        FunctionInfo { name: self.name.clone(), pc_start: self.pc_start, pc_end: self.pc_end }
    }
}

/// Where a stable insertion places `e` in `s`: after every entry that
/// does not start later than it.
pub open spec fn insert_pos(s: Seq<CfaEntry>, e: CfaEntry) -> int
    decreases s.len(),
{
    if s.len() == 0 || s.last().pc_start <= e.pc_start {
        s.len() as int
    } else {
        insert_pos(s.drop_last(), e)
    }
}

/// `s` sorted by start address; entries with equal starts keep their order.
pub open spec fn sort_by_start(s: Seq<CfaEntry>) -> Seq<CfaEntry>
    decreases s.len(),
{
    if s.len() == 0 {
        seq![]
    } else {
        let t = sort_by_start(s.drop_last());
        t.insert(insert_pos(t, s.last()), s.last())
    }
}

/// `s` with each entry that continues the previous one (it starts where
/// that one ends, with the same offset) folded into it.
pub open spec fn merge_adjacent(s: Seq<CfaEntry>) -> Seq<CfaEntry>
    decreases s.len(),
{
    if s.len() == 0 {
        seq![]
    } else {
        let t = merge_adjacent(s.drop_last());
        let e = s.last();
        if t.len() > 0 && t.last().cfa_offset == e.cfa_offset && t.last().pc_end == e.pc_start {
            t.update(t.len() - 1, CfaEntry { pc_end: e.pc_end, ..t.last() })
        } else {
            t.push(e)
        }
    }
}

/// The offset of the first entry whose range holds `pc`.
pub open spec fn cfa_at(s: Seq<CfaEntry>, pc: u64) -> Option<i64>
    decreases s.len(),
{
    if s.len() == 0 {
        None
    } else if s[0].pc_start <= pc < s[0].pc_end {
        Some(s[0].cfa_offset)
    } else {
        cfa_at(s.drop_first(), pc)
    }
}

/// `needle` occurs in `hay`.
pub open spec fn contains(hay: Seq<char>, needle: Seq<char>) -> bool {
    exists|i: int| 0 <= i && i + needle.len() <= hay.len() && #[trigger] hay.subrange(i, i + needle.len()) == needle
}

/// The function `f` answers to the query `name`: its name is `name` or
/// holds it.
pub open spec fn answers_to(f: FunctionInfo, name: Seq<char>) -> bool {
    f.name@ == name || contains(f.name@, name)
}

/// The index of the first function that answers to `name`, or -1.
pub open spec fn first_answer(fs: Seq<FunctionInfo>, name: Seq<char>) -> int
    decreases fs.len(),
{
    if fs.len() == 0 {
        -1
    } else if answers_to(fs[0], name) {
        0
    } else {
        let k = first_answer(fs.drop_first(), name);
        if k < 0 {
            -1
        } else {
            k + 1
        }
    }
}

fn sort_entries(v: &Vec<CfaEntry>) -> (r: Vec<CfaEntry>)
    ensures
        r@ == sort_by_start(v@),
{
    let mut out: Vec<CfaEntry> = Vec::new();
    let mut i: usize = 0;
    while i < v.len()
        invariant
            i <= v@.len(),
            out@ == sort_by_start(v@.take(i as int)),
        decreases v@.len() - i,
    {
        assert(v@.take(i + 1).drop_last() =~= v@.take(i as int));
        let e = v[i];
        let mut j: usize = out.len();
        assert(out@.take(j as int) =~= out@);
        while j > 0 && out[j - 1].pc_start > e.pc_start
            invariant
                j <= out@.len(),
                insert_pos(out@, e) == insert_pos(out@.take(j as int), e),
            decreases j,
        {
            assert(out@.take(j as int).drop_last() =~= out@.take(j - 1));
            j = j - 1;
        }
        if j > 0 {
            assert(out@.take(j as int).last() == out@[j - 1]);
        }
        out.insert(j, e);
        i = i + 1;
    }
    assert(v@.take(v@.len() as int) =~= v@);
    out
}

fn merge_entries(v: &Vec<CfaEntry>) -> (r: Vec<CfaEntry>)
    ensures
        r@ == merge_adjacent(v@),
{
    let mut out: Vec<CfaEntry> = Vec::new();
    let mut i: usize = 0;
    while i < v.len()
        invariant
            i <= v@.len(),
            out@ == merge_adjacent(v@.take(i as int)),
        decreases v@.len() - i,
    {
        assert(v@.take(i + 1).drop_last() =~= v@.take(i as int));
        let e = v[i];
        let n = out.len();
        if n > 0 && out[n - 1].cfa_offset == e.cfa_offset && out[n - 1].pc_end == e.pc_start {
            let last = out[n - 1];
            out.set(n - 1, CfaEntry { pc_end: e.pc_end, ..last });
        } else {
            out.push(e);
        }
        i = i + 1;
    }
    assert(v@.take(v@.len() as int) =~= v@);
    out
}

/// The characters of `s`.
pub(crate) fn chars_of(s: &str) -> (r: Vec<char>)
    ensures
        r@ == s@,
{
    let n = s.unicode_len();
    let mut out: Vec<char> = Vec::new();
    let mut i: usize = 0;
    while i < n
        invariant
            n == s@.len(),
            i <= n,
            out@ == s@.take(i as int),
        decreases n - i,
    {
        out.push(s.get_char(i));
        i = i + 1;
        assert(out@ =~= s@.take(i as int));
    }
    assert(s@.take(n as int) =~= s@);
    out
}

/// Whether `needle` occurs in `hay`.
pub(crate) fn contains_chars(hay: &Vec<char>, needle: &Vec<char>) -> (r: bool)
    ensures
        r == contains(hay@, needle@),
{
    if needle.len() == 0 {
        assert(hay@.subrange(0int, 0int + needle@.len()) =~= needle@);
        return true;
    }
    if needle.len() > hay.len() {
        return false;
    }
    assert(hay@.len() == hay.len());
    let last = hay.len() - needle.len();
    let mut i: usize = 0;
    while i <= last
        invariant
            last == hay@.len() - needle@.len(),
            needle@.len() > 0,
            hay@.len() <= usize::MAX,
            i <= last + 1,
            forall|k: int| 0 <= k < i ==> #[trigger] hay@.subrange(k, k + needle@.len()) != needle@,
        decreases last + 1 - i,
    {
        let mut j: usize = 0;
        while j < needle.len() && hay[i + j] == needle[j]
            invariant
                i <= last,
                last == hay@.len() - needle@.len(),
                hay@.len() <= usize::MAX,
                j <= needle@.len(),
                forall|t: int| 0 <= t < j ==> hay@[i + t] == needle@[t],
            decreases needle@.len() - j,
        {
            j = j + 1;
        }
        if j == needle.len() {
            assert(hay@.subrange(i as int, i + needle@.len()) =~= needle@);
            return true;
        }
        assert(hay@.subrange(i as int, i + needle@.len())[j as int] != needle@[j as int]);
        i = i + 1;
    }
    assert forall|k: int| 0 <= k && k + needle@.len() <= hay@.len() implies #[trigger] hay@.subrange(
        k,
        k + needle@.len(),
    ) != needle@ by {
        assert(k < i);
    }
    false
}

/// Whether a function named `name` answers to the query `query`: its name
/// is the query or holds it.
pub(crate) fn name_answers(name: &str, query: &str) -> (r: bool)
    ensures
        r == (name@ == query@ || contains(name@, query@)),
{
    let h = chars_of(name);
    let q = chars_of(query);
    let r = contains_chars(&h, &q);
    proof {
        if name@ == query@ {
            assert(h@.subrange(0int, 0int + q@.len()) =~= q@);
        }
    }
    r
}

fn find_in(functions: &[FunctionInfo], name: &str) -> (r: Option<FunctionInfo>)
    ensures
        first_answer(functions@, name@) < 0 ==> r is None,
        first_answer(functions@, name@) >= 0 ==> r is Some && ({
            let f = functions@[first_answer(functions@, name@)];
            &&& r->0.name@ == f.name@
            &&& r->0.pc_start == f.pc_start
            &&& r->0.pc_end == f.pc_end
        }),
{
    let mut i: usize = 0;
    assert(functions@.skip(0) =~= functions@);
    while i < functions.len()
        invariant
            i <= functions@.len(),
            first_answer(functions@, name@) == if first_answer(functions@.skip(i as int), name@) < 0 {
                -1
            } else {
                first_answer(functions@.skip(i as int), name@) + i
            },
        decreases functions@.len() - i,
    {
        assert(functions@.skip(i as int).drop_first() =~= functions@.skip(i + 1));
        assert(functions@.skip(i as int)[0] == functions@[i as int]);
        if name_answers(functions[i].name.as_str(), name) {
            return Some(functions[i].copy());
        }
        i = i + 1;
    }
    None
}

/// The index of the first newline in `s`, or `s.len()`.
pub open spec fn line_end(s: Seq<char>) -> int
    decreases s.len(),
{
    if s.len() == 0 || s[0] == '\n' {
        0
    } else {
        1 + line_end(s.drop_first())
    }
}

/// The lines of `text`, as `str::lines` splits it: at each `\n` or
/// `\r\n`, without the line endings; the final line ending is optional,
/// and a last line without one keeps a trailing `\r`.
pub open spec fn lines_of(text: Seq<char>) -> Seq<Seq<char>>
    decreases text.len(),
{
    let k = line_end(text);
    if text.len() == 0 || k < 0 || k > text.len() {
        seq![]
    } else {
        let raw = text.take(k);
        if k == text.len() {
            seq![raw]
        } else {
            let line = if raw.len() > 0 && raw.last() == '\r' { raw.drop_last() } else { raw };
            seq![line] + lines_of(text.skip(k + 1))
        }
    }
}

/// Relies on str::lines: the text's lines, split at `\n` or `\r\n`,
/// without their line endings; the final line ending is optional.
#[verifier::external_body]
pub(crate) fn text_lines(text: &str) -> (r: Vec<String>)
    ensures
        r@.map_values(|l: String| l@) == lines_of(text@),
{
    text.lines().map(String::from).collect()
}

/// The register-and-offset column of a frame table row for the frame pointer.
pub open spec fn fp_marker() -> Seq<char> {
    seq!['x', '2', '9', '+']
}

/// The first index from `i` on where `needle` occurs in `hay`, or -1.
pub open spec fn find_from(hay: Seq<char>, needle: Seq<char>, i: int) -> int
    decreases hay.len() + 1 - i,
{
    if i < 0 || i + needle.len() > hay.len() {
        -1
    } else if hay.subrange(i, i + needle.len()) == needle {
        i
    } else {
        find_from(hay, needle, i + 1)
    }
}

/// The frame table entry that a line of `readelf -wF` output describes:
/// a row whose CFA column reads `x29+<offset>`, taken to cover the one
/// four-byte instruction at the row's address.
pub open spec fn cfa_line_entry(line: Seq<char>) -> Option<CfaEntry> {
    let t = tokens(line);
    if !contains(line, fp_marker()) || t.len() < 2 {
        None
    } else {
        match hex_u64(t[0]) {
            None => None,
            Some(pc) => {
                let p = find_from(t[1], fp_marker(), 0);
                if p < 0 || pc > u64::MAX - 4 {
                    None
                } else {
                    match dec_i64(t[1].skip(p + 4)) {
                        Some(off) => Some(CfaEntry { pc_start: pc, pc_end: (pc + 4) as u64, cfa_offset: off }),
                        None => None,
                    }
                }
            },
        }
    }
}

/// The entries that the lines `lines` describe, in order.
pub open spec fn cfa_entries_of(lines: Seq<Seq<char>>) -> Seq<CfaEntry>
    decreases lines.len(),
{
    if lines.len() == 0 {
        seq![]
    } else {
        let rest = cfa_entries_of(lines.drop_last());
        match cfa_line_entry(lines.last()) {
            Some(e) => rest.push(e),
            None => rest,
        }
    }
}

/// The function that a line of `nm -n` output lists, as name and address:
/// a text symbol (`T`) whose name neither starts with `_` nor holds a `.`.
pub open spec fn nm_line_function(line: Seq<char>) -> Option<(Seq<char>, u64)> {
    let t = tokens(line);
    if t.len() < 3 || t[1] != seq!['T'] {
        None
    } else {
        match hex_u64(t[0]) {
            None => None,
            Some(addr) => if t[2][0] == '_' || contains(t[2], seq!['.']) {
                None
            } else {
                Some((t[2], addr))
            },
        }
    }
}

/// The functions that the lines `lines` list, each ending one byte after
/// its start.
pub open spec fn nm_functions_of(lines: Seq<Seq<char>>) -> Seq<(Seq<char>, u64, u64)>
    decreases lines.len(),
{
    if lines.len() == 0 {
        seq![]
    } else {
        let rest = nm_functions_of(lines.drop_last());
        match nm_line_function(lines.last()) {
            Some(f) => rest.push((f.0, f.1, if f.1 == u64::MAX { u64::MAX } else { (f.1 + 1) as u64 })),
            None => rest,
        }
    }
}

/// `fs` with each function ending where the next one starts.
pub open spec fn linked_ends(fs: Seq<(Seq<char>, u64, u64)>) -> Seq<(Seq<char>, u64, u64)> {
    Seq::new(fs.len(), |i: int| if i + 1 < fs.len() { (fs[i].0, fs[i].1, fs[i + 1].1) } else { fs[i] })
}

pub open spec fn function_views(fs: Seq<FunctionInfo>) -> Seq<(Seq<char>, u64, u64)> {
    fs.map_values(|f: FunctionInfo| (f.name@, f.pc_start, f.pc_end))
}

fn find_marker(hay: &Vec<char>, from: usize, to: usize) -> (r: Option<usize>)
    requires
        from <= to <= hay@.len(),
    ensures
        match r {
            Some(p) => p >= from && find_from(hay@.subrange(from as int, to as int), fp_marker(), 0) == p - from
                && p + 4 <= to,
            None => find_from(hay@.subrange(from as int, to as int), fp_marker(), 0) == -1,
        },
{
    let ghost t = hay@.subrange(from as int, to as int);
    let mut i: usize = from;
    while to - i >= 4
        invariant
            from <= i <= to,
            to <= hay@.len(),
            t == hay@.subrange(from as int, to as int),
            find_from(t, fp_marker(), 0) == find_from(t, fp_marker(), i - from),
        decreases to - i,
    {
        if hay[i] == 'x' && hay[i + 1] == '2' && hay[i + 2] == '9' && hay[i + 3] == '+' {
            assert(t.subrange(i - from, i - from + 4) =~= fp_marker());
            return Some(i);
        }
        assert(t.subrange(i - from, i - from + 4) != fp_marker()) by {
            if t.subrange(i - from, i - from + 4) == fp_marker() {
                assert(t.subrange(i - from, i - from + 4)[0] == hay@[i as int]);
                assert(t.subrange(i - from, i - from + 4)[1] == hay@[i + 1]);
                assert(t.subrange(i - from, i - from + 4)[2] == hay@[i + 2]);
                assert(t.subrange(i - from, i - from + 4)[3] == hay@[i + 3]);
            }
        }
        i = i + 1;
    }
    None
}

/// Reads CFA offsets of one executable.
pub struct SimpleCfaReader {
    executable_path: String,
    cfa_cache: Option<Vec<CfaEntry>>,
}

impl SimpleCfaReader {
    /// The executable this reader is about.
    pub closed spec fn path(&self) -> Seq<char> {
        self.executable_path@
    }

    /// The frame table, once it has been loaded.
    pub closed spec fn entries(&self) -> Option<Seq<CfaEntry>> {
        match self.cfa_cache {
            Some(v) => Some(v@),
            None => None,
        }
    }

    /// A reader for `executable_path`, with no frame table yet.
    pub fn new(executable_path: String) -> (r: SimpleCfaReader)
        ensures
            r.path() == executable_path@,
            r.entries() is None,
    {
        SimpleCfaReader { executable_path, cfa_cache: None }
    }

    /// The executable this reader is about.
    pub fn executable_path(&self) -> (r: &String)
        ensures
            r@ == self.path(),
    {
        &self.executable_path
    }

    /// Whether the frame table has been loaded.
    pub fn has_cfa_entries(&self) -> (r: bool)
        ensures
            r == self.entries() is Some,
    {
        self.cfa_cache.is_some()
    }

    /// Keeps the frame table made of `entries`: sorted by start address,
    /// with adjacent entries of equal offset merged.
    pub fn load_cfa_entries(&mut self, entries: Vec<CfaEntry>)
        ensures
            final(self).path() == old(self).path(),
            final(self).entries() == Some(merge_adjacent(sort_by_start(entries@))),
    {
        let sorted = sort_entries(&entries);
        let merged = merge_entries(&sorted);
        self.cfa_cache = Some(merged);
    }

    /// The CFA offset at `target_pc`: that of the first entry of the frame
    /// table whose range holds it.
    pub fn get_cfa_offset_for_pc(&self, target_pc: u64) -> (r: Option<i64>)
        requires
            self.entries() is Some,
        ensures
            r == cfa_at(self.entries()->0, target_pc),
    {
        let entries = match &self.cfa_cache {
            Some(v) => v,
            None => return None,
        };
        assert(self.entries() == Some(entries@));
        let mut i: usize = 0;
        assert(entries@.skip(0) =~= entries@);
        while i < entries.len()
            invariant
                i <= entries@.len(),
                self.entries() == Some(entries@),
                cfa_at(entries@, target_pc) == cfa_at(entries@.skip(i as int), target_pc),
            decreases entries@.len() - i,
        {
            assert(entries@.skip(i as int).drop_first() =~= entries@.skip(i + 1));
            assert(entries@.skip(i as int)[0] == entries@[i as int]);
            let e = entries[i];
            if target_pc >= e.pc_start && target_pc < e.pc_end {
                return Some(e.cfa_offset);
            }
            i = i + 1;
        }
        None
    }

    /// The CFA offset in the middle of `func`, where it is taken to hold
    /// throughout the function.
    pub fn get_cfa_offset_for_function(&self, func: &FunctionInfo) -> (r: Option<i64>)
        requires
            self.entries() is Some,
            func.pc_start <= func.pc_end,
        ensures
            r == cfa_at(self.entries()->0, (func.pc_start + (func.pc_end - func.pc_start) / 2) as u64),
    {
        let pc = func.pc_start + (func.pc_end - func.pc_start) / 2;
        self.get_cfa_offset_for_pc(pc)
    }

    /// The first of `functions` that answers to `name`.
    pub fn find_function(&self, functions: &[FunctionInfo], name: &str) -> (r: Option<FunctionInfo>)
        ensures
            first_answer(functions@, name@) < 0 ==> r is None,
            first_answer(functions@, name@) >= 0 ==> r is Some && ({
                let f = functions@[first_answer(functions@, name@)];
                &&& r->0.name@ == f.name@
                &&& r->0.pc_start == f.pc_start
                &&& r->0.pc_end == f.pc_end
            }),
    {
        find_in(functions, name)
    }

    /// The frame table entry that a line of `readelf -wF` output describes.
    pub fn parse_cfa_line(&self, line: &str) -> (r: Option<CfaEntry>)
        ensures
            r == cfa_line_entry(line@),
    {
        let chars = chars_of(line);
        let marker: Vec<char> = vec!['x', '2', '9', '+'];
        assert(marker@ =~= fp_marker());
        if !contains_chars(&chars, &marker) {
            return None;
        }
        let b = token_bounds(&chars, 2);
        if b.len() < 2 {
            return None;
        }
        let (a0, e0) = b[0];
        let (a1, e1) = b[1];
        let pc = match parse_hex_u64(&chars, a0, e0) {
            Some(pc) => pc,
            None => return None,
        };
        let p = match find_marker(&chars, a1, e1) {
            Some(p) => p,
            None => return None,
        };
        if pc > u64::MAX - 4 {
            return None;
        }
        let ghost t1 = tokens(line@)[1];
        assert(t1.skip(p - a1 + 4) =~= chars@.subrange(p + 4, e1 as int));
        match parse_dec_i64(&chars, p + 4, e1) {
            Some(off) => Some(CfaEntry { pc_start: pc, pc_end: pc + 4, cfa_offset: off }),
            None => None,
        }
    }

    /// Keeps the frame table that `readelf -wF` printed as `output`.
    pub fn load_readelf_output(&mut self, output: &str)
        ensures
            final(self).path() == old(self).path(),
            final(self).entries() == Some(merge_adjacent(sort_by_start(cfa_entries_of(lines_of(output@))))),
    {
        let lines = text_lines(output);
        let ghost lv = lines@.map_values(|l: String| l@);
        let mut entries: Vec<CfaEntry> = Vec::new();
        let mut i: usize = 0;
        while i < lines.len()
            invariant
                i <= lines@.len(),
                lv == lines@.map_values(|l: String| l@),
                entries@ == cfa_entries_of(lv.take(i as int)),
            decreases lines@.len() - i,
        {
            assert(lv.take(i + 1).drop_last() =~= lv.take(i as int));
            assert(lv.take(i + 1).last() == lines@[i as int]@);
            if let Some(e) = self.parse_cfa_line(lines[i].as_str()) {
                entries.push(e);
            }
            i = i + 1;
        }
        assert(lv.take(lines@.len() as int) =~= lv);
        self.load_cfa_entries(entries);
    }

    /// The functions that `nm -n` printed as `output`, each ending where the
    /// next one starts.
    pub fn parse_functions(&self, output: &str) -> (r: Vec<FunctionInfo>)
        ensures
            function_views(r@) == linked_ends(nm_functions_of(lines_of(output@))),
    {
        let lines = text_lines(output);
        let ghost lv = lines@.map_values(|l: String| l@);
        let mut fs: Vec<FunctionInfo> = Vec::new();
        let mut i: usize = 0;
        assert(function_views(fs@) =~= seq![]);
        while i < lines.len()
            invariant
                i <= lines@.len(),
                lv == lines@.map_values(|l: String| l@),
                function_views(fs@) == nm_functions_of(lv.take(i as int)),
            decreases lines@.len() - i,
        {
            assert(lv.take(i + 1).drop_last() =~= lv.take(i as int));
            assert(lv.take(i + 1).last() == lines@[i as int]@);
            let line = lines[i].as_str();
            let chars = chars_of(line);
            let b = token_bounds(&chars, 3);
            if b.len() == 3 {
                let (a0, e0) = b[0];
                let (a1, e1) = b[1];
                let (a2, e2) = b[2];
                let ghost t = tokens(line@);
                assert(chars@.subrange(a0 as int, e0 as int) == t[0]);
                assert(chars@.subrange(a1 as int, e1 as int) == t[1]);
                assert(chars@.subrange(a2 as int, e2 as int) == t[2]);
                let is_text = e1 - a1 == 1 && chars[a1] == 'T';
                proof {
                    if is_text {
                        assert(t[1] =~= seq!['T']);
                    } else if t[1] == seq!['T'] {
                        assert(t[1].len() == 1 && t[1][0] == chars@[a1 as int]);
                    }
                }
                if is_text {
                    if let Some(addr) = parse_hex_u64(&chars, a0, e0) {
                        let name = line.substring_char(a2, e2).to_owned();
                        assert(name@ == t[2]);
                        let dot: Vec<char> = vec!['.'];
                        let name_chars = chars_of(name.as_str());
                        assert(dot@ =~= seq!['.']);
                        // a token is never empty
                        assert(t[2][0] == chars@[a2 as int]);
                        if chars[a2] != '_' && !contains_chars(&name_chars, &dot) {
                            let ghost before = function_views(fs@);
                            fs.push(FunctionInfo { name, pc_start: addr, pc_end: addr.saturating_add(1) });
                            assert(function_views(fs@) =~= before.push(
                                (t[2], addr, if addr == u64::MAX { u64::MAX } else { (addr + 1) as u64 }),
                            ));
                        }
                    }
                }
            }
            i = i + 1;
        }
        assert(lv.take(lines@.len() as int) =~= lv);
        let ghost unlinked = function_views(fs@);
        let n = fs.len();
        let mut k: usize = 0;
        while n > 0 && k < n - 1
            invariant
                n == fs@.len(),
                unlinked.len() == n,
                k <= n,
                forall|j: int|
                    0 <= j < n ==> #[trigger] function_views(fs@)[j] == if j < k {
                        linked_ends(unlinked)[j]
                    } else {
                        unlinked[j]
                    },
            decreases n - k,
        {
            let next_start = fs[k + 1].pc_start;
            let ghost before = function_views(fs@);
            assert(before[k + 1] == unlinked[k + 1]);
            assert(before[k as int] == unlinked[k as int]);
            let mut f = fs[k].copy();
            f.pc_end = next_start;
            fs[k] = f;
            assert forall|j: int| 0 <= j < n implies #[trigger] function_views(fs@)[j] == if j < k + 1 {
                linked_ends(unlinked)[j]
            } else {
                unlinked[j]
            } by {
                if j != k {
                    assert(function_views(fs@)[j] == before[j]);
                }
            }
            k = k + 1;
        }
        assert(function_views(fs@) =~= linked_ends(unlinked));
        fs
    }
}

} // verus!
