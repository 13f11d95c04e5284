//! Intel-HEX records of calibration segments: encoding segments to records,
//! and decoding records into an address-keyed segment map. The text form of
//! the records is produced and parsed by the `ihex` crate.
use vstd::arithmetic::div_mod::lemma_fundamental_div_mod_converse_div;
use vstd::prelude::*;
use vstd::slice::slice_subrange;
use vstd::slice::slice_to_vec;

use crate::bin_format::CalSegDescriptor;
use crate::error::Bin2HexError;

verus! {

broadcast use vstd::slice::group_slice_axioms;

/// Bytes of payload per data record written by the encoder.
pub const CHUNK_SIZE: usize = 32;

/// How far past the end of a decoded segment a data record may start and
/// still extend that segment.
pub const SEGMENT_GAP: u64 = 256;

/// One Intel-HEX record.
#[derive(Debug, Clone, PartialEq, Eq)]
pub enum HexRecord {
    Data { offset: u16, value: Vec<u8> },
    EndOfFile,
    ExtendedSegmentAddress(u16),
    StartSegmentAddress { cs: u16, ip: u16 },
    ExtendedLinearAddress(u16),
    StartLinearAddress(u32),
}

/// The value of a record, with its data as a sequence.
pub enum HexRecordView {
    Data { offset: u16, value: Seq<u8> },
    EndOfFile,
    ExtendedSegmentAddress(u16),
    StartSegmentAddress { cs: u16, ip: u16 },
    ExtendedLinearAddress(u16),
    StartLinearAddress(u32),
}

impl View for HexRecord {
    type V = HexRecordView;

    open spec fn view(&self) -> HexRecordView {
        match self {
            HexRecord::Data { offset, value } => HexRecordView::Data { offset: *offset, value: value@ },
            HexRecord::EndOfFile => HexRecordView::EndOfFile,
            HexRecord::ExtendedSegmentAddress(a) => HexRecordView::ExtendedSegmentAddress(*a),
            HexRecord::StartSegmentAddress { cs, ip } => HexRecordView::StartSegmentAddress { cs: *cs, ip: *ip },
            HexRecord::ExtendedLinearAddress(a) => HexRecordView::ExtendedLinearAddress(*a),
            HexRecord::StartLinearAddress(a) => HexRecordView::StartLinearAddress(*a),
        }
    }
}

pub open spec fn records_view(rs: Seq<HexRecord>) -> Seq<HexRecordView> {
    rs.map_values(|r: HexRecord| r@)
}

/// A record that the text form can hold: at most 255 data bytes.
pub open spec fn record_fits(r: HexRecordView) -> bool {
    r is Data ==> r->Data_value.len() <= 255
}

/// A complete object: records that fit, with one end-of-file record, last.
pub open spec fn object_ok(rs: Seq<HexRecordView>) -> bool {
    &&& rs.len() > 0
    &&& rs.last() is EndOfFile
    &&& forall|i: int| 0 <= i < rs.len() - 1 ==> !(rs[i] is EndOfFile)
    &&& forall|i: int| 0 <= i < rs.len() ==> record_fits(#[trigger] rs[i])
}

/// An upper-case hexadecimal digit.
pub open spec fn hex_digit_char(n: int) -> char {
    if n < 10 {
        ('0' as int + n) as char
    } else {
        ('A' as int + n - 10) as char
    }
}

/// Two upper-case hexadecimal digits for each byte of `b`.
pub open spec fn hex_of_bytes(b: Seq<u8>) -> Seq<char>
    decreases b.len(),
{
    if b.len() == 0 {
        seq![]
    } else {
        seq![hex_digit_char(b[0] as int / 16), hex_digit_char(b[0] as int % 16)] + hex_of_bytes(b.drop_first())
    }
}

/// The sum of the bytes of `b`.
pub open spec fn byte_sum(b: Seq<u8>) -> int
    decreases b.len(),
{
    if b.len() == 0 {
        0
    } else {
        b[0] + byte_sum(b.drop_first())
    }
}

/// The record checksum: the two's complement of the byte sum, modulo 256.
pub open spec fn checksum_of(b: Seq<u8>) -> u8 {
    ((256 - byte_sum(b) % 256) % 256) as u8
}

/// High and low byte of a 16-bit value.
pub open spec fn be16(v: int) -> Seq<u8> {
    seq![(v / 256 % 256) as u8, (v % 256) as u8]
}

/// Byte count, address, type and payload of a record.
pub open spec fn record_bytes(r: HexRecordView) -> Seq<u8> {
    let (addr, kind, payload) = match r {
        HexRecordView::Data { offset, value } => (offset as int, 0u8, value),
        HexRecordView::EndOfFile => (0, 1u8, seq![]),
        HexRecordView::ExtendedSegmentAddress(a) => (0, 2u8, be16(a as int)),
        HexRecordView::StartSegmentAddress { cs, ip } => (0, 3u8, be16(cs as int) + be16(ip as int)),
        HexRecordView::ExtendedLinearAddress(a) => (0, 4u8, be16(a as int)),
        HexRecordView::StartLinearAddress(a) => (0, 5u8, be16(a as int / 0x10000) + be16(a as int % 0x10000)),
    };
    seq![payload.len() as u8] + be16(addr) + seq![kind] + payload
}

/// The text line of a record: a colon, the hexadecimal digits of its bytes
/// and its checksum, and a newline.
pub open spec fn record_line(r: HexRecordView) -> Seq<char> {
    let b = record_bytes(r);
    seq![':'] + hex_of_bytes(b.push(checksum_of(b))) + seq!['\n']
}

/// The text that `ihex` writes for a complete object: the lines of its
/// records, in order.
pub open spec fn hex_text_of(rs: Seq<HexRecordView>) -> Seq<char>
    decreases rs.len(),
{
    if rs.len() == 0 {
        seq![]
    } else {
        hex_text_of(rs.drop_last()) + record_line(rs.last())
    }
}

/// The records that `ihex` reads from a text that it accepts.
pub uninterp spec fn hex_records_of(text: Seq<char>) -> Seq<HexRecordView>;

/// `ihex` accepts the text: every non-empty line up to the end-of-file
/// record is a well-formed record of a supported kind.
pub uninterp spec fn hex_text_ok(text: Seq<char>) -> bool;

/// Relies on ihex::create_object_file_representation: it fails exactly when
/// the last record is not the end-of-file record, when there is more than
/// one, or when a record holds more than 255 data bytes; otherwise it writes
/// one line per record (`Record::to_record_string`, then a newline).
#[verifier::external_body]
fn render_records(records: &Vec<HexRecord>) -> (r: Result<String, ihex::WriterError>)
    ensures
        object_ok(records_view(records@)) ==> r is Ok && r->Ok_0@ == hex_text_of(records_view(records@)),
        !object_ok(records_view(records@)) ==> r is Err,
{
    let converted: Vec<ihex::Record> = records.iter().map(|r| match r.clone() {
        HexRecord::Data { offset, value } => ihex::Record::Data { offset, value },
        HexRecord::EndOfFile => ihex::Record::EndOfFile,
        HexRecord::ExtendedSegmentAddress(a) => ihex::Record::ExtendedSegmentAddress(a),
        HexRecord::StartSegmentAddress { cs, ip } => ihex::Record::StartSegmentAddress { cs, ip },
        HexRecord::ExtendedLinearAddress(a) => ihex::Record::ExtendedLinearAddress(a),
        HexRecord::StartLinearAddress(a) => ihex::Record::StartLinearAddress(a),
    }).collect();
    ihex::create_object_file_representation(&converted)
}

/// Relies on ihex::Reader: it yields the records of the text's non-empty
/// lines, or the first error; whether it fails depends on the text alone;
/// a data record's length is one byte; and it reads back exactly the
/// records of a complete object that ihex's writer turned into text.
#[verifier::external_body]
fn parse_records(text: &str) -> (r: Result<Vec<HexRecord>, ihex::ReaderError>)
    ensures
        r is Ok <==> hex_text_ok(text@),
        forall|rs: Seq<HexRecordView>|
            object_ok(rs) && text@ == #[trigger] hex_text_of(rs) ==> r is Ok && records_view(r->Ok_0@) == rs,
        r is Ok ==> records_view(r->Ok_0@) == hex_records_of(text@),
        r is Ok ==> forall|i: int| 0 <= i < r->Ok_0@.len() ==> record_fits(#[trigger] r->Ok_0@[i]@),
{
    let mut out = Vec::new();
    for rec in ihex::Reader::new(text) {
        out.push(match rec? {
            ihex::Record::Data { offset, value } => HexRecord::Data { offset, value },
            ihex::Record::EndOfFile => HexRecord::EndOfFile,
            ihex::Record::ExtendedSegmentAddress(a) => HexRecord::ExtendedSegmentAddress(a),
            ihex::Record::StartSegmentAddress { cs, ip } => HexRecord::StartSegmentAddress { cs, ip },
            ihex::Record::ExtendedLinearAddress(a) => HexRecord::ExtendedLinearAddress(a),
            ihex::Record::StartLinearAddress(a) => HexRecord::StartLinearAddress(a),
        });
    }
    Ok(out)
}

/// A decoded segment: its base address and its bytes.
#[derive(Debug, Clone)]
pub struct HexSegment {
    pub base: u32,
    pub data: Vec<u8>,
}

/// Decoded segments, in the order in which they were discovered.
#[derive(Debug, Clone)]
pub struct HexSegments {
    pub segments: Vec<HexSegment>,
}

impl View for HexSegments {
    type V = Seq<(u32, Seq<u8>)>;

    open spec fn view(&self) -> Seq<(u32, Seq<u8>)> {
        self.segments@.map_values(|s: HexSegment| (s.base, s.data@))
    }
}

/// No two segments share a base address.
pub open spec fn bases_distinct(segs: Seq<(u32, Seq<u8>)>) -> bool {
    forall|i: int, j: int| 0 <= i < j < segs.len() ==> #[trigger] segs[i].0 != #[trigger] segs[j].0
}

impl HexSegments {
    /// A well-formed map: one segment per base address.
    pub open spec fn wf(&self) -> bool {
        bases_distinct(self@)
    }
}

/// The data of the segment based at `base`, if there is one (the last
/// one, should several share the base).
pub open spec fn lookup(segs: Seq<(u32, Seq<u8>)>, base: u32) -> Option<Seq<u8>>
    decreases segs.len(),
{
    if segs.len() == 0 {
        None
    } else if segs.last().0 == base {
        Some(segs.last().1)
    } else {
        lookup(segs.drop_last(), base)
    }
}

/// A record starting at `addr` extends `seg`: it starts inside the segment
/// or less than the gap past its end.
pub open spec fn covers(seg: (u32, Seq<u8>), addr: int) -> bool {
    seg.0 <= addr < seg.0 + seg.1.len() + SEGMENT_GAP
}

/// The segment that a record starting at `addr` extends: of those that it
/// extends, the one with the lowest base; -1 if none.
pub open spec fn owner(segs: Seq<(u32, Seq<u8>)>, addr: int) -> int
    decreases segs.len(),
{
    if segs.len() == 0 {
        -1
    } else {
        let k = owner(segs.drop_last(), addr);
        let last = segs.len() - 1;
        if covers(segs[last], addr) && (k < 0 || segs[last].0 < segs[k].0) {
            last
        } else {
            k
        }
    }
}

/// `data` with `value` written at `off`, zero-filled up to `off` if needed.
pub open spec fn write_at(data: Seq<u8>, off: int, value: Seq<u8>) -> Seq<u8> {
    let n = if off + value.len() > data.len() { off + value.len() } else { data.len() as int };
    Seq::new(
        n as nat,
        |i: int|
            if off <= i < off + value.len() {
                value[i - off]
            } else if i < data.len() {
                data[i]
            } else {
                0u8
            },
    )
}

/// The segments after a data record with `value` at `addr`.
pub open spec fn place(segs: Seq<(u32, Seq<u8>)>, addr: int, value: Seq<u8>) -> Seq<(u32, Seq<u8>)> {
    let k = owner(segs, addr);
    if k >= 0 {
        segs.update(k, (segs[k].0, write_at(segs[k].1, addr - segs[k].0, value)))
    } else {
        segs.push((addr as u32, value))
    }
}

/// The segments and the upper address half after decoding `recs`.
pub open spec fn decode_state(recs: Seq<HexRecordView>) -> (Seq<(u32, Seq<u8>)>, u16)
    decreases recs.len(),
{
    if recs.len() == 0 {
        (seq![], 0)
    } else {
        let (segs, upper) = decode_state(recs.drop_last());
        match recs.last() {
            HexRecordView::Data { offset, value } => (place(segs, upper * 0x10000 + offset, value), upper),
            HexRecordView::ExtendedLinearAddress(a) => (segs, a),
            _ => (segs, upper),
        }
    }
}

/// The segments that decoding `recs` discovers.
pub open spec fn decode_spec(recs: Seq<HexRecordView>) -> Seq<(u32, Seq<u8>)> {
    decode_state(recs).0
}

/// Writes `value` at `off` of `buf`, zero-filling up to `off` if needed.
fn write_into(buf: &mut Vec<u8>, off: usize, value: &[u8])
    requires
        off + value@.len() <= usize::MAX,
    ensures
        final(buf)@ == write_at(old(buf)@, off as int, value@),
{
    let ghost orig = buf@;
    let end = off + value.len();
    while buf.len() < end
        invariant
            end == off + value@.len(),
            orig.len() <= buf@.len(),
            buf@.len() <= end || buf@.len() == orig.len(),
            buf@.subrange(0, orig.len() as int) == orig,
            forall|i: int| orig.len() <= i < buf@.len() ==> buf@[i] == 0,
        decreases end - buf@.len(),
    {
        buf.push(0);
    }
    let mut j: usize = 0;
    while j < value.len()
        invariant
            end == off + value@.len(),
            j <= value@.len(),
            buf@.len() == if end > orig.len() { end as int } else { orig.len() as int },
            forall|i: int|
                0 <= i < buf@.len() ==> #[trigger] buf@[i] == if off <= i < off + j {
                    value@[i - off]
                } else if i < orig.len() {
                    orig[i]
                } else {
                    0u8
                },
        decreases value@.len() - j,
    {
        buf[off + j] = value[j];
        j = j + 1;
    }
    assert(buf@ =~= write_at(orig, off as int, value@));
}

proof fn lemma_owner_none(segs: Seq<(u32, Seq<u8>)>, addr: int)
    requires
        owner(segs, addr) == -1,
    ensures
        forall|i: int| 0 <= i < segs.len() ==> !covers(#[trigger] segs[i], addr),
    decreases segs.len(),
{
    if segs.len() > 0 {
        lemma_owner_range(segs.drop_last(), addr);
        lemma_owner_none(segs.drop_last(), addr);
        assert forall|i: int| 0 <= i < segs.len() implies !covers(#[trigger] segs[i], addr) by {
            if i < segs.len() - 1 {
                assert(segs[i] == segs.drop_last()[i]);
            }
        }
    }
}

proof fn lemma_owner_range(segs: Seq<(u32, Seq<u8>)>, addr: int)
    ensures
        -1 <= owner(segs, addr) < segs.len(),
        owner(segs, addr) >= 0 ==> covers(segs[owner(segs, addr)], addr),
    decreases segs.len(),
{
    if segs.len() > 0 {
        lemma_owner_range(segs.drop_last(), addr);
    }
}

/// The index of the segment that a record starting at `addr` extends.
fn find_owner(segs: &Vec<HexSegment>, addr: u64) -> (r: Option<usize>)
    ensures
        match r {
            Some(k) => owner(segs@.map_values(|s: HexSegment| (s.base, s.data@)), addr as int) == k,
            None => owner(segs@.map_values(|s: HexSegment| (s.base, s.data@)), addr as int) == -1,
        },
{
    let ghost view = segs@.map_values(|s: HexSegment| (s.base, s.data@));
    let mut best: Option<usize> = None;
    let mut j: usize = 0;
    while j < segs.len()
        invariant
            j <= segs@.len(),
            view == segs@.map_values(|s: HexSegment| (s.base, s.data@)),
            match best {
                Some(k) => k < j && owner(view.take(j as int), addr as int) == k,
                None => owner(view.take(j as int), addr as int) == -1,
            },
        decreases segs@.len() - j,
    {
        assert(view.take(j + 1).drop_last() =~= view.take(j as int));
        let s = &segs[j];
        let covered = s.base as u64 <= addr && {
            let dist = addr - s.base as u64;
            dist < 256 || dist - 256 < s.data.len() as u64
        };
        let lower = match best {
            Some(k) => s.base < segs[k].base,
            None => true,
        };
        if covered && lower {
            best = Some(j);
        }
        j = j + 1;
    }
    assert(view.take(segs@.len() as int) =~= view);
    best
}

proof fn lemma_lookup_update(segs: Seq<(u32, Seq<u8>)>, k: int, data: Seq<u8>, b: u32)
    requires
        0 <= k < segs.len(),
        forall|i: int| k < i < segs.len() ==> segs[i].0 != segs[k].0,
    ensures
        lookup(segs.update(k, (segs[k].0, data)), b) == if b == segs[k].0 {
            Some(data)
        } else {
            lookup(segs, b)
        },
    decreases segs.len(),
{
    let u = segs.update(k, (segs[k].0, data));
    if k == segs.len() - 1 {
        assert(u.drop_last() =~= segs.drop_last());
    } else {
        assert(u.drop_last() =~= segs.drop_last().update(k, (segs[k].0, data)));
        lemma_lookup_update(segs.drop_last(), k, data, b);
    }
}

impl HexSegments {
    /// An empty map.
    pub fn new() -> (r: HexSegments)
        ensures
            r@ == Seq::<(u32, Seq<u8>)>::empty(),
            r.wf(),
    {
        let r = HexSegments { segments: Vec::new() };
        assert(r@ =~= Seq::<(u32, Seq<u8>)>::empty());
        r
    }

    /// The number of segments.
    pub fn len(&self) -> (r: usize)
        ensures
            r == self@.len(),
    {
        self.segments.len()
    }

    /// The data of the segment based at `base`.
    pub fn get(&self, base: u32) -> (r: Option<&Vec<u8>>)
        ensures
            match r {
                Some(v) => lookup(self@, base) == Some(v@),
                None => lookup(self@, base) is None,
            },
    {
        let mut j: usize = self.segments.len();
        assert(self@.take(j as int) =~= self@);
        while j > 0
            invariant
                j <= self.segments@.len(),
                lookup(self@, base) == lookup(self@.take(j as int), base),
            decreases j,
        {
            assert(self@.take(j as int).drop_last() =~= self@.take(j - 1));
            if self.segments[j - 1].base == base {
                return Some(&self.segments[j - 1].data);
            }
            j = j - 1;
        }
        None
    }

    /// Sets the data of the segment based at `base`, adding it if needed.
    pub fn insert(&mut self, base: u32, data: Vec<u8>)
        requires
            old(self).wf(),
        ensures
            final(self).wf(),
            lookup(final(self)@, base) == Some(data@),
            forall|b: u32| b != base ==> lookup(final(self)@, b) == lookup(old(self)@, b),
    {
        let ghost old_view = self@;
        let ghost dv = data@;
        let mut j: usize = self.segments.len();
        while j > 0
            invariant
                j <= self.segments@.len(),
                old_view == self@,
                old_view == old(self)@,
                dv == data@,
                bases_distinct(old_view),
                forall|i: int| j <= i < self@.len() ==> self@[i].0 != base,
            decreases j,
        {
            if self.segments[j - 1].base == base {
                self.segments[j - 1] = HexSegment { base, data };
                proof {
                    assert(old_view[j - 1].0 == base);
                    assert(self@ =~= old_view.update(j - 1, (base, dv)));
                    lemma_lookup_update(old_view, j - 1, dv, base);
                    assert(bases_distinct(self@)) by {
                        assert forall|i: int, k: int| 0 <= i < k < self@.len() implies #[trigger] self@[i].0
                            != #[trigger] self@[k].0 by {
                            assert(self@[i].0 == old_view[i].0 && self@[k].0 == old_view[k].0);
                        }
                    }
                    assert forall|b: u32| b != base implies lookup(self@, b) == lookup(old_view, b) by {
                        lemma_lookup_update(old_view, j - 1, dv, b);
                    }
                }
                return;
            }
            j = j - 1;
        }
        self.segments.push(HexSegment { base, data });
        assert(self@ =~= old_view.push((base, dv)));
        assert(bases_distinct(self@)) by {
            assert forall|i: int, k: int| 0 <= i < k < self@.len() implies #[trigger] self@[i].0 != #[trigger] self@[k].0 by {
                if k == old_view.len() {
                    assert(self@[i] == old_view[i]);
                } else {
                    assert(self@[i] == old_view[i] && self@[k] == old_view[k]);
                }
            }
        }
        assert(self@.drop_last() =~= old_view);
    }
}

/// Every decoded segment holds at most `bound` bytes.
pub open spec fn segments_within(segs: Seq<(u32, Seq<u8>)>, bound: int) -> bool {
    forall|i: int| 0 <= i < segs.len() ==> (#[trigger] segs[i]).1.len() <= bound
}

proof fn lemma_place_within(segs: Seq<(u32, Seq<u8>)>, addr: int, value: Seq<u8>, bound: int)
    requires
        segments_within(segs, bound),
        value.len() <= 255,
        bound >= 0,
    ensures
        segments_within(place(segs, addr, value), bound + 511),
{
    lemma_owner_range(segs, addr);
    let p = place(segs, addr, value);
    assert forall|i: int| 0 <= i < p.len() implies (#[trigger] p[i]).1.len() <= bound + 511 by {
        if owner(segs, addr) >= 0 && i == owner(segs, addr) {
        } else if i < segs.len() {
            assert(p[i] == segs[i]);
        }
    }
}

/// Decodes records into segments. A data record lands at the address made
/// of the last extended linear address (upper half) and its own offset
/// (lower half). It extends the segment that starts at or below that
/// address and ends less than `SEGMENT_GAP` bytes before it (the one with
/// the lowest base if several do), zero-filling any gap; otherwise it
/// starts a new segment there. Records of other kinds are ignored.
pub fn decode_hex_records(records: &Vec<HexRecord>) -> (r: HexSegments)
    requires
        records@.len() < usize::MAX / 512,
        forall|i: int| 0 <= i < records@.len() ==> record_fits(#[trigger] records@[i]@),
    ensures
        r@ == decode_spec(records_view(records@)),
        r.wf(),
{
    let mut segs = HexSegments::new();
    let mut upper: u16 = 0;
    let mut i: usize = 0;
    while i < records.len()
        invariant
            i <= records@.len(),
            records@.len() < usize::MAX / 512,
            forall|i: int| 0 <= i < records@.len() ==> record_fits(#[trigger] records@[i]@),
            (segs@, upper) == decode_state(records_view(records@.take(i as int))),
            segments_within(segs@, 511 * i),
            segs.wf(),
        decreases records@.len() - i,
    {
        let ghost before = records_view(records@.take(i as int));
        assert(records_view(records@.take(i + 1)).drop_last() =~= before);
        assert(records_view(records@.take(i + 1)).last() == records@[i as int]@);
        match &records[i] {
            HexRecord::Data { offset, value } => {
                assert(record_fits(records@[i as int]@));
                let addr: u64 = upper as u64 * 0x10000 + *offset as u64;
                proof {
                    lemma_place_within(segs@, addr as int, value@, 511 * i);
                    lemma_owner_range(segs@, addr as int);
                }
                match find_owner(&segs.segments, addr) {
                    Some(k) => {
                        let off = (addr - segs.segments[k].base as u64) as usize;
                        assert(segs@[k as int].1.len() <= 511 * i);
                        let ghost old_segs = segs.segments@;
                        write_into(&mut segs.segments[k].data, off, value.as_slice());
                        assert(segs@ =~= place(old_segs.map_values(|s: HexSegment| (s.base, s.data@)), addr as int, value@));
                        assert forall|a: int, b: int| 0 <= a < b < segs@.len() implies #[trigger] segs@[a].0
                            != #[trigger] segs@[b].0 by {
                            assert(segs@[a].0 == old_segs[a].base && segs@[b].0 == old_segs[b].base);
                            assert(old_segs.map_values(|s: HexSegment| (s.base, s.data@))[a].0 == old_segs[a].base);
                            assert(old_segs.map_values(|s: HexSegment| (s.base, s.data@))[b].0 == old_segs[b].base);
                        }
                    },
                    None => {
                        let ghost old_view = segs@;
                        proof {
                            lemma_owner_none(old_view, addr as int);
                        }
                        segs.segments.push(HexSegment { base: addr as u32, data: value.clone() });
                        assert(segs@ =~= old_view.push((addr as u32, value@)));
                        assert forall|a: int, b: int| 0 <= a < b < segs@.len() implies #[trigger] segs@[a].0
                            != #[trigger] segs@[b].0 by {
                            if b == old_view.len() {
                                assert(!covers(old_view[a], addr as int));
                                assert(segs@[a] == old_view[a]);
                            } else {
                                assert(segs@[a] == old_view[a] && segs@[b] == old_view[b]);
                            }
                        }
                    },
                }
            },
            HexRecord::ExtendedLinearAddress(a) => {
                upper = *a;
            },
            _ => {},
        }
        i = i + 1;
    }
    assert(records@.take(records@.len() as int) =~= records@);
    segs
}

/// Number of data records that a payload of `len` bytes takes.
pub open spec fn chunk_count(len: nat) -> nat {
    ((len + 31) / 32) as nat
}

/// Payload bytes of data record `c` of a segment.
pub open spec fn chunk_of(data: Seq<u8>, c: int) -> Seq<u8> {
    let end = if 32 * c + 32 < data.len() { 32 * c + 32 } else { data.len() as int };
    data.subrange(32 * c, end)
}

/// Records written so far, and the upper address half that the last
/// extended linear address record set, if any.
pub type EncodeState = (Seq<HexRecordView>, Option<u16>);

/// The state after a data record with `chunk` at `addr`: an extended linear
/// address record comes first unless the upper half is already in force.
pub open spec fn emit_chunk(state: EncodeState, addr: int, chunk: Seq<u8>) -> EncodeState {
    let upper = (addr / 0x10000) as u16;
    let recs = if state.1 == Some(upper) {
        state.0
    } else {
        state.0.push(HexRecordView::ExtendedLinearAddress(upper))
    };
    (recs.push(HexRecordView::Data { offset: (addr % 0x10000) as u16, value: chunk }), Some(upper))
}

/// The state after the first `k` data records of the segment `(base, data)`.
pub open spec fn emit_segment(state: EncodeState, base: u32, data: Seq<u8>, k: nat) -> EncodeState
    decreases k,
{
    if k == 0 {
        state
    } else {
        emit_chunk(
            emit_segment(state, base, data, (k - 1) as nat),
            base + 32 * (k - 1),
            chunk_of(data, k - 1),
        )
    }
}

/// The state after all segments of `segs`, in order.
pub open spec fn emit_segments(segs: Seq<(u32, Seq<u8>)>) -> EncodeState
    decreases segs.len(),
{
    if segs.len() == 0 {
        (seq![], None)
    } else {
        let s = segs.last();
        emit_segment(emit_segments(segs.drop_last()), s.0, s.1, chunk_count(s.1.len()))
    }
}

/// The records that encode `segs`: their data records, then end of file.
pub open spec fn encode_spec(segs: Seq<(u32, Seq<u8>)>) -> Seq<HexRecordView> {
    emit_segments(segs).0.push(HexRecordView::EndOfFile)
}

/// Base address and payload of each segment.
pub open spec fn segments_view(calsegs: Seq<(CalSegDescriptor, Vec<u8>)>) -> Seq<(u32, Seq<u8>)> {
    calsegs.map_values(|p: (CalSegDescriptor, Vec<u8>)| (p.0.addr, p.1@))
}

/// Every segment lies inside the 32-bit address space.
pub open spec fn segments_addressable(segs: Seq<(u32, Seq<u8>)>) -> bool {
    forall|i: int| 0 <= i < segs.len() ==> (#[trigger] segs[i]).0 + segs[i].1.len() <= 0x1_0000_0000
}

/// No record is an end-of-file record, and each fits the text form.
pub open spec fn body_records(rs: Seq<HexRecordView>) -> bool {
    forall|i: int| 0 <= i < rs.len() ==> !((#[trigger] rs[i]) is EndOfFile) && record_fits(rs[i])
}

/// Encodes the segments as records: each payload is cut into data records
/// of `CHUNK_SIZE` bytes (the last may be shorter) whose offsets are the
/// lower halves of their addresses; an extended linear address record
/// precedes the first data record and each one whose upper address half
/// differs from the previous one's. One end-of-file record closes the list.
pub fn encode_hex_records(calsegs: &[(CalSegDescriptor, Vec<u8>)]) -> (r: Vec<HexRecord>)
    requires
        segments_addressable(segments_view(calsegs@)),
    ensures
        records_view(r@) == encode_spec(segments_view(calsegs@)),
        object_ok(records_view(r@)),
{
    let ghost segs = segments_view(calsegs@);
    let mut records: Vec<HexRecord> = Vec::new();
    let mut upper: Option<u16> = None;
    let mut i: usize = 0;
    assert(records_view(records@) =~= seq![]);
    while i < calsegs.len()
        invariant
            i <= calsegs@.len(),
            segs == segments_view(calsegs@),
            segments_addressable(segs),
            (records_view(records@), upper) == emit_segments(segs.take(i as int)),
            body_records(records_view(records@)),
        decreases calsegs@.len() - i,
    {
        assert(segs.take(i + 1).drop_last() =~= segs.take(i as int));
        let base = calsegs[i].0.addr;
        let data = &calsegs[i].1;
        assert(segs[i as int] == (base, data@));
        let ghost start = emit_segments(segs.take(i as int));
        let mut off: usize = 0;
        let ghost mut c: nat = 0;
        while off < data.len()
            invariant
                off <= data@.len(),
                off <= 32 * c,
                off < data@.len() ==> off == 32 * c,
                c == 0 || 32 * c < off + 32,
                base + data@.len() <= 0x1_0000_0000,
                (records_view(records@), upper) == emit_segment(start, base, data@, c),
                body_records(records_view(records@)),
            decreases data@.len() - off,
        {
            let end = if data.len() - off > 32 { off + 32 } else { data.len() };
            let chunk = slice_to_vec(slice_subrange(data.as_slice(), off, end));
            assert(chunk@ == chunk_of(data@, c as int));
            let addr: u32 = base + off as u32;
            let up: u16 = (addr / 0x10000) as u16;
            let ghost old_view = records_view(records@);
            let same = match upper {
                Some(u) => u == up,
                None => false,
            };
            if !same {
                records.push(HexRecord::ExtendedLinearAddress(up));
                upper = Some(up);
            }
            let ghost mid_view = records_view(records@);
            records.push(HexRecord::Data { offset: (addr % 0x10000) as u16, value: chunk });
            assert(records_view(records@) =~= mid_view.push(
                HexRecordView::Data { offset: (addr % 0x10000) as u16, value: chunk_of(data@, c as int) },
            ));
            assert(same ==> mid_view =~= old_view);
            assert(!same ==> mid_view =~= old_view.push(HexRecordView::ExtendedLinearAddress(up)));
            off = end;
            proof {
                c = c + 1;
            }
        }
        proof {
            if data@.len() > 0 {
                lemma_fundamental_div_mod_converse_div(
                    (data@.len() + 31) as int,
                    32,
                    c as int,
                    data@.len() + 31 - 32 * c,
                );
            }
        }
        i = i + 1;
    }
    assert(segs.take(calsegs@.len() as int) =~= segs);
    let ghost body = records_view(records@);
    records.push(HexRecord::EndOfFile);
    assert(records_view(records@) =~= body.push(HexRecordView::EndOfFile));
    assert(records_view(records@).last() is EndOfFile);
    assert forall|i: int| 0 <= i < records@.len() implies record_fits(#[trigger] records_view(records@)[i]) by {
        if i < body.len() {
            assert(records_view(records@)[i] == body[i]);
        }
    }
    assert forall|i: int| 0 <= i < records@.len() - 1 implies !(records_view(records@)[i] is EndOfFile) by {
        assert(records_view(records@)[i] == body[i]);
    }
    records
}

/// Encodes the segments as Intel-HEX text.
pub fn encode_hex_text(calsegs: &[(CalSegDescriptor, Vec<u8>)]) -> (r: Result<String, Bin2HexError>)
    requires
        segments_addressable(segments_view(calsegs@)),
    ensures
        r is Ok,
        r->Ok_0@ == hex_text_of(encode_spec(segments_view(calsegs@))),
{
    let records = encode_hex_records(calsegs);
    match render_records(&records) {
        Ok(text) => Ok(text),
        Err(e) => Err(Bin2HexError::IntelHexWrite(e)),
    }
}

/// Decodes Intel-HEX text into segments (see `decode_hex_records`).
pub fn decode_hex_text(text: &str) -> (r: Result<HexSegments, Bin2HexError>)
    ensures
        r is Ok ==> r->Ok_0@ == decode_spec(hex_records_of(text@)),
        hex_text_ok(text@) && hex_records_of(text@).len() < usize::MAX / 512 ==> r is Ok,
        (r is Err && r->Err_0 is IntelHexRead) <==> !hex_text_ok(text@),
        r is Err && r->Err_0 is HexTooLarge ==> hex_records_of(text@).len() >= usize::MAX / 512,
        r is Err ==> r->Err_0 is IntelHexRead || r->Err_0 is HexTooLarge,
        forall|rs: Seq<HexRecordView>|
            object_ok(rs) && text@ == #[trigger] hex_text_of(rs) && rs.len() < usize::MAX / 512 ==> r is Ok
                && r->Ok_0@ == decode_spec(rs),
{
    let records = match parse_records(text) {
        Ok(records) => records,
        Err(e) => return Err(Bin2HexError::IntelHexRead(e)),
    };
    if records.len() >= usize::MAX / 512 {
        return Err(Bin2HexError::HexTooLarge { records: records.len() });
    }
    Ok(decode_hex_records(&records))
}

} // verus!
