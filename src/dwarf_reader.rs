//! Functions of an ELF executable, taken from its symbol table, and looked
//! up by name.
use object::{Object, ObjectSymbol};
use vstd::prelude::*;
use vstd::string::*;

use crate::cfa_reader::{contains, name_answers};

verus! {

/// A function and the addresses it spans.
#[derive(Debug, Clone)]
pub struct FunctionInfo {
    pub name: String,
    pub compilation_unit: String,
    pub pc_start: u64,
    pub pc_end: u64,
}

/// What the symbol table says of one symbol.
#[derive(Debug, Clone)]
pub struct SymbolInfo {
    /// The symbol is for executable code.
    pub is_text: bool,
    /// Its name, if it has a readable one.
    pub name: Option<String>,
    pub address: u64,
    pub size: u64,
}

/// A symbol as plain values.
pub type SymbolView = (bool, Option<Seq<char>>, u64, u64);

/// A function as plain values: name, compilation unit, start, end.
pub type FunctionView = (Seq<char>, Seq<char>, u64, u64);

impl View for SymbolInfo {
    type V = SymbolView;

    open spec fn view(&self) -> SymbolView {
        (self.is_text, match self.name {
            Some(n) => Some(n@),
            None => None,
        }, self.address, self.size)
    }
}

impl View for FunctionInfo {
    type V = FunctionView;

    open spec fn view(&self) -> FunctionView {
        (self.name@, self.compilation_unit@, self.pc_start, self.pc_end)
    }
}

/// Relies on object::read::Error being a plain error value.
#[verifier::external_type_specification]
#[verifier::external_body]
pub struct ExObjectError(object::read::Error);

/// The symbols that `object` lists for an object file.
pub uninterp spec fn symbols_of(data: Seq<u8>) -> Seq<SymbolView>;

/// `object` recognises and parses the bytes as an object file.
pub uninterp spec fn object_parses(data: Seq<u8>) -> bool;

/// Relies on object::File::parse and its `symbols`: the symbol table of the
/// object file held in `data`, in table order; whether parsing fails
/// depends on the bytes alone, and listing the symbols does not fail.
#[verifier::external_body]
fn read_symbols(data: &[u8]) -> (r: Result<Vec<SymbolInfo>, object::read::Error>)
    ensures
        r is Ok <==> object_parses(data@),
        r is Ok ==> r->Ok_0@.map_values(|s: SymbolInfo| s@) == symbols_of(data@),
{
    let file = object::File::parse(data)?;
    Ok(file.symbols().map(|s| SymbolInfo {
        is_text: s.kind() == object::SymbolKind::Text,
        name: s.name().ok().map(String::from),
        address: s.address(),
        size: s.size(),
    }).collect())
}

/// The symbol names a function that the reader lists: code, with a
/// non-empty name that does not start with an underscore.
pub open spec fn lists_symbol(s: SymbolView) -> bool {
    &&& s.0
    &&& s.1 is Some
    &&& s.1->0.len() > 0
    &&& s.1->0[0] != '_'
}

/// End of a symbol's span, kept inside the address space.
pub open spec fn span_end(address: u64, size: u64) -> u64 {
    if address + size > u64::MAX { u64::MAX } else { (address + size) as u64 }
}

/// The functions that the symbols `syms` name, in table order.
pub open spec fn functions_of(syms: Seq<SymbolView>) -> Seq<FunctionView>
    decreases syms.len(),
{
    if syms.len() == 0 {
        seq![]
    } else {
        let rest = functions_of(syms.drop_last());
        let s = syms.last();
        if lists_symbol(s) {
            rest.push((s.1->0, seq!['u', 'n', 'k', 'n', 'o', 'w', 'n'], s.2, span_end(s.2, s.3)))
        } else {
            rest
        }
    }
}

/// Where a stable insertion places `f` in `s`: after every function that
/// does not start later than it.
pub open spec fn insert_pos(s: Seq<FunctionView>, f: FunctionView) -> int
    decreases s.len(),
{
    if s.len() == 0 || s.last().2 <= f.2 {
        s.len() as int
    } else {
        insert_pos(s.drop_last(), f)
    }
}

/// `s` sorted by start address; functions with equal starts keep their order.
pub open spec fn sort_by_start(s: Seq<FunctionView>) -> Seq<FunctionView>
    decreases s.len(),
{
    if s.len() == 0 {
        seq![]
    } else {
        let t = sort_by_start(s.drop_last());
        t.insert(insert_pos(t, s.last()), s.last())
    }
}

pub open spec fn views(fs: Seq<FunctionInfo>) -> Seq<FunctionView> {
    fs.map_values(|f: FunctionInfo| f@)
}

/// The index of the first function that answers to `name` (its name is
/// `name` or holds it), or -1.
pub open spec fn first_answer(fs: Seq<FunctionView>, name: Seq<char>) -> int
    decreases fs.len(),
{
    if fs.len() == 0 {
        -1
    } else if fs[0].0 == name || contains(fs[0].0, name) {
        0
    } else {
        let k = first_answer(fs.drop_first(), name);
        if k < 0 {
            -1
        } else {
            k + 1
        }
    }
}

impl FunctionInfo {
    /// A field-by-field copy.
    pub fn copy(&self) -> (r: FunctionInfo)
        ensures
            r@ == self@,
    {
        FunctionInfo {
            name: self.name.clone(),
            compilation_unit: self.compilation_unit.clone(),
            pc_start: self.pc_start,
            pc_end: self.pc_end,
        }
    }
}

/// The functions that `syms` name, in table order.
pub fn functions_from_symbols(syms: &Vec<SymbolInfo>) -> (r: Vec<FunctionInfo>)
    ensures
        views(r@) == functions_of(syms@.map_values(|s: SymbolInfo| s@)),
{
    let ghost sv = syms@.map_values(|s: SymbolInfo| s@);
    let mut out: Vec<FunctionInfo> = Vec::new();
    let mut i: usize = 0;
    assert(views(out@) =~= seq![]);
    while i < syms.len()
        invariant
            i <= syms@.len(),
            sv == syms@.map_values(|s: SymbolInfo| s@),
            views(out@) == functions_of(sv.take(i as int)),
        decreases syms@.len() - i,
    {
        assert(sv.take(i + 1).drop_last() =~= sv.take(i as int));
        assert(sv.take(i + 1).last() == syms@[i as int]@);
        let s = &syms[i];
        if s.is_text {
            if let Some(name) = &s.name {
                if name.unicode_len() > 0 && name.as_str().get_char(0) != '_' {
                    let ghost before = views(out@);
                    let end = s.address.saturating_add(s.size);
                    let unit = String::from_str("unknown");
                    proof {
                        reveal_strlit("unknown");
                        assert(unit@ =~= seq!['u', 'n', 'k', 'n', 'o', 'w', 'n']);
                    }
                    out.push(FunctionInfo { name: name.clone(), compilation_unit: unit, pc_start: s.address, pc_end: end });
                    assert(views(out@) =~= before.push(
                        (name@, seq!['u', 'n', 'k', 'n', 'o', 'w', 'n'], s.address, span_end(s.address, s.size)),
                    ));
                }
            }
        }
        i = i + 1;
    }
    assert(sv.take(syms@.len() as int) =~= sv);
    out
}

/// Sorts `fs` by start address, keeping the order of equal starts.
pub fn sort_functions(fs: &Vec<FunctionInfo>) -> (r: Vec<FunctionInfo>)
    ensures
        views(r@) == sort_by_start(views(fs@)),
{
    let ghost fv = views(fs@);
    let mut out: Vec<FunctionInfo> = Vec::new();
    let mut i: usize = 0;
    assert(views(out@) =~= seq![]);
    while i < fs.len()
        invariant
            i <= fs@.len(),
            fv == views(fs@),
            views(out@) == sort_by_start(fv.take(i as int)),
        decreases fs@.len() - i,
    {
        assert(fv.take(i + 1).drop_last() =~= fv.take(i as int));
        let f = fs[i].copy();
        assert(fv.take(i + 1).last() == f@);
        let mut j: usize = out.len();
        assert(views(out@).take(j as int) =~= views(out@));
        while j > 0 && out[j - 1].pc_start > f.pc_start
            invariant
                j <= out@.len(),
                insert_pos(views(out@), f@) == insert_pos(views(out@).take(j as int), f@),
            decreases j,
        {
            assert(views(out@).take(j as int).drop_last() =~= views(out@).take(j - 1));
            j = j - 1;
        }
        if j > 0 {
            assert(views(out@).take(j as int).last() == views(out@)[j - 1]);
        }
        let ghost before = views(out@);
        out.insert(j, f);
        assert(views(out@) =~= before.insert(j as int, f@));
        i = i + 1;
    }
    assert(fv.take(fs@.len() as int) =~= fv);
    out
}

/// Reads functions of an ELF executable held in memory.
pub struct SimpleDwarfReader {
    file_data: Vec<u8>,
}

impl SimpleDwarfReader {
    /// The bytes of the executable.
    pub closed spec fn data(&self) -> Seq<u8> {
        self.file_data@
    }

    /// A reader over the executable's bytes.
    pub fn new(file_data: Vec<u8>) -> (r: SimpleDwarfReader)
        ensures
            r.data() == file_data@,
    {
        SimpleDwarfReader { file_data }
    }

    /// The bytes of the executable.
    pub fn file_data(&self) -> (r: &Vec<u8>)
        ensures
            r@ == self.data(),
    {
        &self.file_data
    }

    /// The functions of the symbol table (see `lists_symbol`), sorted by
    /// start address.
    pub fn parse_functions_from_symbols(&self) -> (r: Result<Vec<FunctionInfo>, object::read::Error>)
        ensures
            r is Ok <==> object_parses(self.data()),
            r is Ok ==> views(r->Ok_0@) == sort_by_start(functions_of(symbols_of(self.data()))),
    {
        let syms = read_symbols(self.file_data.as_slice())?;
        let fs = functions_from_symbols(&syms);
        Ok(sort_functions(&fs))
    }

    /// The first function, in address order, whose name is `name` or holds it.
    pub fn find_function(&self, name: &str) -> (r: Result<Option<FunctionInfo>, object::read::Error>)
        ensures
            r is Ok <==> object_parses(self.data()),
            r is Ok ==> {
                let fs = sort_by_start(functions_of(symbols_of(self.data())));
                let k = first_answer(fs, name@);
                &&& k < 0 ==> r->Ok_0 is None
                &&& k >= 0 ==> r->Ok_0 is Some && r->Ok_0->0@ == fs[k]
            },
    {
        let functions = self.parse_functions_from_symbols()?;
        let mut i: usize = 0;
        let ghost fs = views(functions@);
        assert(fs.skip(0) =~= fs);
        while i < functions.len()
            invariant
                i <= functions@.len(),
                fs == views(functions@),
                fs == sort_by_start(functions_of(symbols_of(self.data()))),
                object_parses(self.data()),
                first_answer(fs, name@) == if first_answer(fs.skip(i as int), name@) < 0 {
                    -1
                } else {
                    first_answer(fs.skip(i as int), name@) + i
                },
            decreases functions@.len() - i,
        {
            assert(fs.skip(i as int).drop_first() =~= fs.skip(i + 1));
            assert(fs.skip(i as int)[0] == functions@[i as int]@);
            if name_answers(functions[i].name.as_str(), name) {
                return Ok(Some(functions[i].copy()));
            }
            i = i + 1;
        }
        Ok(None)
    }
}

} // verus!
