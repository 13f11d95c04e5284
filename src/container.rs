//! A whole container: header, event descriptors, then segment descriptors,
//! each followed by its payload.
use vstd::arithmetic::div_mod::lemma_fundamental_div_mod_converse_div;
use vstd::prelude::*;
use vstd::slice::slice_subrange;
use vstd::slice::slice_to_vec;

use crate::bin_format::{
    layout_for, signature_field, signature_ok, u16_le, u32_le, version_ok, BinHeader, BinLayout, CalSegDescriptor,
    EventDescriptor, EXTENDED_VERSION,
};
use crate::error::{Bin2HexError, FormatError};

verus! {

broadcast use vstd::slice::group_slice_axioms;

/// Why the header record at `pos` cannot be read, if it cannot.
pub open spec fn header_error(layout: BinLayout, d: Seq<u8>, pos: int) -> Option<Bin2HexError> {
    if pos + layout.header_len() > d.len() {
        Some(Bin2HexError::UnexpectedEof { offset: pos as usize })
    } else if !signature_ok(d, pos) {
        Some(Bin2HexError::InvalidFormat(FormatError::BadSignature { signature: signature_field(d, pos) }))
    } else if !version_ok(layout, d, pos) {
        Some(
            Bin2HexError::InvalidFormat(
                FormatError::UnsupportedVersion { found: u16_le(d, pos + 16), expected: EXTENDED_VERSION },
            ),
        )
    } else {
        None
    }
}

pub open spec fn event_count_of(layout: BinLayout, d: Seq<u8>) -> u16 {
    u16_le(d, layout.event_count_at())
}

pub open spec fn calseg_count_of(layout: BinLayout, d: Seq<u8>) -> u16 {
    u16_le(d, layout.calseg_count_at())
}

/// Offset of event record `i`.
pub open spec fn event_pos(layout: BinLayout, i: int) -> int {
    layout.header_len() + layout.event_len() * i
}

/// Why the event records cannot be read, if they cannot: the offset of the
/// first one that does not fit.
pub open spec fn events_error(layout: BinLayout, d: Seq<u8>) -> Option<Bin2HexError> {
    let n = event_count_of(layout, d) as int;
    if event_pos(layout, n) > d.len() {
        let k = (d.len() - layout.header_len()) / layout.event_len();
        Some(Bin2HexError::UnexpectedEof { offset: event_pos(layout, k) as usize })
    } else {
        None
    }
}

/// Offset of segment descriptor `i`: after the events, each descriptor is
/// followed by as many payload bytes as its size field says.
pub open spec fn desc_pos(layout: BinLayout, d: Seq<u8>, i: nat) -> int
    decreases i,
{
    if i == 0 {
        event_pos(layout, event_count_of(layout, d) as int)
    } else {
        let p = desc_pos(layout, d, (i - 1) as nat);
        p + layout.calseg_len() + u16_le(d, p + 2)
    }
}

/// Offset of the payload of segment `i`.
pub open spec fn payload_pos(layout: BinLayout, d: Seq<u8>, i: nat) -> int {
    desc_pos(layout, d, i) + layout.calseg_len()
}

/// Size field of segment `i`.
pub open spec fn seg_size(layout: BinLayout, d: Seq<u8>, i: nat) -> u16 {
    u16_le(d, desc_pos(layout, d, i) + 2)
}

/// Address field of segment `i`.
pub open spec fn seg_addr(layout: BinLayout, d: Seq<u8>, i: nat) -> u32 {
    u32_le(d, desc_pos(layout, d, i) + 4)
}

/// Payload of segment `i`.
pub open spec fn seg_payload(layout: BinLayout, d: Seq<u8>, i: nat) -> Seq<u8> {
    d.subrange(payload_pos(layout, d, i), payload_pos(layout, d, i) + seg_size(layout, d, i))
}

/// Why the first `k` segments cannot be read, if they cannot: the offset of
/// the first descriptor or payload that does not fit.
pub open spec fn segs_error(layout: BinLayout, d: Seq<u8>, k: nat) -> Option<Bin2HexError>
    decreases k,
{
    if k == 0 {
        None
    } else {
        match segs_error(layout, d, (k - 1) as nat) {
            Some(e) => Some(e),
            None => if desc_pos(layout, d, (k - 1) as nat) + layout.calseg_len() > d.len() {
                Some(Bin2HexError::UnexpectedEof { offset: desc_pos(layout, d, (k - 1) as nat) as usize })
            } else if desc_pos(layout, d, k) > d.len() {
                Some(Bin2HexError::UnexpectedEof { offset: payload_pos(layout, d, (k - 1) as nat) as usize })
            } else {
                None
            },
        }
    }
}

/// Why the container `d` cannot be read in `layout`, if it cannot.
pub open spec fn container_error(layout: BinLayout, d: Seq<u8>) -> Option<Bin2HexError> {
    match header_error(layout, d, 0) {
        Some(e) => Some(e),
        None => match events_error(layout, d) {
            Some(e) => Some(e),
            None => segs_error(layout, d, calseg_count_of(layout, d) as nat),
        },
    }
}

pub(crate) proof fn lemma_desc_pos_grows(layout: BinLayout, d: Seq<u8>, i: nat, j: nat)
    requires
        i <= j,
    ensures
        desc_pos(layout, d, i) + (j - i) * layout.calseg_len() <= desc_pos(layout, d, j),
    decreases j - i,
{
    if i < j {
        lemma_desc_pos_grows(layout, d, i, (j - 1) as nat);
        assert((j - i) * layout.calseg_len() == (j - 1 - i) * layout.calseg_len() + layout.calseg_len())
            by (nonlinear_arith);
    }
}

pub(crate) proof fn lemma_segs_error_none(layout: BinLayout, d: Seq<u8>, i: nat, k: nat)
    requires
        i <= k,
        segs_error(layout, d, k) is None,
    ensures
        segs_error(layout, d, i) is None,
        0 < i ==> desc_pos(layout, d, i) <= d.len(),
        i < k ==> desc_pos(layout, d, i) + layout.calseg_len() <= d.len(),
    decreases k - i,
{
    if i < k {
        lemma_segs_error_none(layout, d, (i + 1) as nat, k);
    }
}

proof fn lemma_segs_error_stays(layout: BinLayout, d: Seq<u8>, i: nat, k: nat)
    requires
        i <= k,
        segs_error(layout, d, i) is Some,
    ensures
        segs_error(layout, d, k) == segs_error(layout, d, i),
    decreases k - i,
{
    if i < k {
        lemma_segs_error_stays(layout, d, i, (k - 1) as nat);
    }
}

/// A segment descriptor together with the offset of its payload.
#[derive(Debug, Clone)]
pub struct SegmentSlot {
    pub desc: CalSegDescriptor,
    pub data_pos: usize,
}

/// `slots` are the descriptors of the first segments of `d`.
pub open spec fn slots_match(slots: Seq<SegmentSlot>, layout: BinLayout, d: Seq<u8>) -> bool {
    forall|i: int|
        0 <= i < slots.len() ==> {
            &&& (#[trigger] slots[i]).desc.matches(layout, d, desc_pos(layout, d, i as nat))
            &&& slots[i].data_pos == payload_pos(layout, d, i as nat)
        }
}

/// Offset of the first segment descriptor, right after the events.
fn first_desc_pos(layout: BinLayout, event_count: u16) -> (r: usize)
    ensures
        r == event_pos(layout, event_count as int),
{
    let e = layout.event_size();
    assert(e * (event_count as int) <= 256 * 65535) by (nonlinear_arith)
        requires
            e <= 256,
            event_count <= 65535,
    ;
    layout.header_size() + e * (event_count as usize)
}

/// Offset of the first segment descriptor of a container whose header
/// declares `event_count` events.
pub fn first_segment_pos(layout: BinLayout, event_count: u16) -> (r: usize)
    ensures
        r == event_pos(layout, event_count as int),
{
    first_desc_pos(layout, event_count)
}

/// The slot of the segment descriptor `desc`, read at `pos` of a container
/// of `len` bytes, and the offset of the next descriptor. Fails where the
/// descriptor or its payload runs past the end.
pub fn next_slot(layout: BinLayout, pos: usize, desc: CalSegDescriptor, len: usize) -> (r: Result<
    (SegmentSlot, usize),
    Bin2HexError,
>)
    ensures
        pos + layout.calseg_len() > len ==> r == Err::<(SegmentSlot, usize), Bin2HexError>(
            Bin2HexError::UnexpectedEof { offset: pos },
        ),
        pos + layout.calseg_len() <= len < pos + layout.calseg_len() + desc.size ==> r == Err::<
            (SegmentSlot, usize),
            Bin2HexError,
        >(Bin2HexError::UnexpectedEof { offset: (pos + layout.calseg_len()) as usize }),
        pos + layout.calseg_len() + desc.size <= len ==> r is Ok && r->Ok_0.0.desc == desc && r->Ok_0.0.data_pos
            == pos + layout.calseg_len() && r->Ok_0.1 == pos + layout.calseg_len() + desc.size,
{
    let size = layout.calseg_size();
    if pos > len || len - pos < size {
        return Err(Bin2HexError::UnexpectedEof { offset: pos });
    }
    let data_pos = pos + size;
    if len - data_pos < desc.size as usize {
        return Err(Bin2HexError::UnexpectedEof { offset: data_pos });
    }
    let next = data_pos + desc.size as usize;
    Ok((SegmentSlot { desc, data_pos }, next))
}

/// Reads the event descriptors that follow the header.
pub fn read_events(layout: BinLayout, d: &[u8], count: u16) -> (r: Result<Vec<EventDescriptor>, Bin2HexError>)
    requires
        header_error(layout, d@, 0) is None,
        count == event_count_of(layout, d@),
    ensures
        match events_error(layout, d@) {
            Some(e) => r == Err::<Vec<EventDescriptor>, Bin2HexError>(e),
            None => r is Ok && r->Ok_0@.len() == count && forall|i: int|
                0 <= i < count ==> (#[trigger] r->Ok_0@[i]).matches(layout, d@, event_pos(layout, i)),
        },
{
    let e = layout.event_size();
    let mut events: Vec<EventDescriptor> = Vec::new();
    let mut pos: usize = layout.header_size();
    let mut i: u16 = 0;
    while i < count
        invariant
            i <= count,
            count == event_count_of(layout, d@),
            e == layout.event_len(),
            pos == event_pos(layout, i as int),
            pos <= d@.len(),
            events@.len() == i,
            forall|j: int|
                0 <= j < i ==> (#[trigger] events@[j]).matches(layout, d@, event_pos(layout, j)),
        decreases count - i,
    {
        let ev = match EventDescriptor::read_from(layout, d, pos) {
            Ok(ev) => ev,
            Err(err) => {
                proof {
                    let h = layout.header_len();
                    assert(pos == h + i * e) by (nonlinear_arith)
                        requires pos == h + e * i;
                    lemma_fundamental_div_mod_converse_div(d@.len() - h, e as int, i as int, d@.len() - pos);
                    assert(event_pos(layout, count as int) >= pos + e) by (nonlinear_arith)
                        requires pos == layout.header_len() + e * i, i < count, e == layout.event_len(),
                            event_pos(layout, count as int) == layout.header_len() + layout.event_len() * count;
                }
                return Err(err);
            },
        };
        events.push(ev);
        assert(pos + e == event_pos(layout, i + 1)) by (nonlinear_arith)
            requires pos == layout.header_len() + e * i, e == layout.event_len(),
                event_pos(layout, i + 1) == layout.header_len() + layout.event_len() * (i + 1);
        pos = pos + e;
        i = i + 1;
    }
    Ok(events)
}

/// Reads the segment descriptors, skipping over each payload, and notes
/// where each payload starts. Nothing is copied.
pub fn read_segment_table(layout: BinLayout, d: &[u8], event_count: u16, count: u16) -> (r: Result<
    Vec<SegmentSlot>,
    Bin2HexError,
>)
    requires
        header_error(layout, d@, 0) is None,
        events_error(layout, d@) is None,
        event_count == event_count_of(layout, d@),
    ensures
        match segs_error(layout, d@, count as nat) {
            Some(e) => r == Err::<Vec<SegmentSlot>, Bin2HexError>(e),
            None => r is Ok && r->Ok_0@.len() == count && slots_match(r->Ok_0@, layout, d@),
        },
{
    let mut slots: Vec<SegmentSlot> = Vec::new();
    let mut pos: usize = first_desc_pos(layout, event_count);
    let mut i: u16 = 0;
    while i < count
        invariant
            i <= count,
            pos == desc_pos(layout, d@, i as nat),
            pos <= d@.len(),
            segs_error(layout, d@, i as nat) is None,
            slots@.len() == i,
            slots_match(slots@, layout, d@),
        decreases count - i,
    {
        let desc = match CalSegDescriptor::read_from(layout, d, pos) {
            Ok(desc) => desc,
            Err(err) => {
                proof {
                    lemma_segs_error_stays(layout, d@, (i + 1) as nat, count as nat);
                }
                return Err(err);
            },
        };
        assert(d@.len() == d.len());
        let data_pos = pos + layout.calseg_size();
        if desc.size as usize > d.len() - data_pos {
            proof {
                lemma_segs_error_stays(layout, d@, (i + 1) as nat, count as nat);
            }
            return Err(Bin2HexError::UnexpectedEof { offset: data_pos });
        }
        let size = desc.size;
        let ghost old_slots = slots@;
        slots.push(SegmentSlot { desc: desc, data_pos: data_pos });
        assert forall|j: int| 0 <= j < slots@.len() implies {
            &&& (#[trigger] slots@[j]).desc.matches(layout, d@, desc_pos(layout, d@, j as nat))
            &&& slots@[j].data_pos == payload_pos(layout, d@, j as nat)
        } by {
            if j < i {
                assert(slots@[j] == old_slots[j]);
            }
        }
        pos = data_pos + size as usize;
        i = i + 1;
    }
    Ok(slots)
}

/// A container read in full.
#[derive(Debug, Clone)]
pub struct BinFile {
    pub layout: BinLayout,
    pub header: BinHeader,
    pub events: Vec<EventDescriptor>,
    /// Each segment descriptor with a copy of its payload, in file order.
    pub calsegs: Vec<(CalSegDescriptor, Vec<u8>)>,
}

impl BinFile {
    /// `self` holds every record and payload of the container `d` read in `layout`.
    pub open spec fn matches(self, layout: BinLayout, d: Seq<u8>) -> bool {
        &&& self.layout == layout
        &&& self.header.matches(layout, d, 0)
        &&& self.events@.len() == self.header.event_count
        &&& forall|i: int|
            0 <= i < self.events@.len() ==> (#[trigger] self.events@[i]).matches(layout, d, event_pos(layout, i))
        &&& self.calsegs@.len() == self.header.calseg_count
        &&& forall|i: int|
            0 <= i < self.calsegs@.len() ==> {
                &&& (#[trigger] self.calsegs@[i]).0.matches(layout, d, desc_pos(layout, d, i as nat))
                &&& self.calsegs@[i].1@ == seg_payload(layout, d, i as nat)
            }
    }

    /// What reading `d` in `layout` gives.
    pub open spec fn read_result(r: Result<BinFile, Bin2HexError>, layout: BinLayout, d: Seq<u8>) -> bool {
        match container_error(layout, d) {
            Some(e) => r == Err::<BinFile, Bin2HexError>(e),
            None => r is Ok && r->Ok_0.matches(layout, d),
        }
    }
}

/// Reads the container `d` in `layout`: the header, the events, then each
/// segment descriptor with its payload, in one forward pass.
pub fn read_bin_with(layout: BinLayout, d: &[u8]) -> (r: Result<BinFile, Bin2HexError>)
    ensures
        BinFile::read_result(r, layout, d@),
{
    let header = BinHeader::read_from(layout, d, 0)?;
    let events = read_events(layout, d, header.event_count)?;
    let slots = read_segment_table(layout, d, header.event_count, header.calseg_count)?;
    let mut calsegs: Vec<(CalSegDescriptor, Vec<u8>)> = Vec::new();
    let mut i: usize = 0;
    while i < slots.len()
        invariant
            slots@.len() == header.calseg_count,
            segs_error(layout, d@, header.calseg_count as nat) is None,
            slots_match(slots@, layout, d@),
            i <= slots@.len(),
            calsegs@.len() == i,
            forall|j: int|
                0 <= j < i ==> {
                    &&& (#[trigger] calsegs@[j]).0.matches(layout, d@, desc_pos(layout, d@, j as nat))
                    &&& calsegs@[j].1@ == seg_payload(layout, d@, j as nat)
                },
        decreases slots@.len() - i,
    {
        let slot = &slots[i];
        proof {
            lemma_segs_error_none(layout, d@, (i + 1) as nat, header.calseg_count as nat);
        }
        assert(d@.len() == d.len());
        let from = slot.data_pos;
        let to = from + slot.desc.size as usize;
        let payload = slice_to_vec(slice_subrange(d, from, to));
        calsegs.push((slot.desc.copy(), payload));
        i = i + 1;
    }
    Ok(BinFile { layout, header, events, calsegs })
}

/// What reading the container `d` in the layout its header declares gives.
pub open spec fn read_bin_result(r: Result<BinFile, Bin2HexError>, d: Seq<u8>) -> bool {
    if d.len() < 18 {
        r == Err::<BinFile, Bin2HexError>(Bin2HexError::UnexpectedEof { offset: 0 })
    } else {
        BinFile::read_result(r, layout_for(u16_le(d, 16)), d)
    }
}

/// Reads the container `d`, in the layout that its header declares.
pub fn read_bin_file(d: &[u8]) -> (r: Result<BinFile, Bin2HexError>)
    ensures
        read_bin_result(r, d@),
{
    let layout = BinLayout::detect(d)?;
    read_bin_with(layout, d)
}

/// `a` and `b` hold the same records and payloads.
pub open spec fn same_contents(a: BinFile, b: BinFile) -> bool {
    &&& a.layout == b.layout
    &&& a.header.signature@ == b.header.signature@
    &&& a.header.version == b.header.version
    &&& a.header.event_count == b.header.event_count
    &&& a.header.calseg_count == b.header.calseg_count
    &&& a.header.epk@ == b.header.epk@
    &&& a.events@.len() == b.events@.len()
    &&& forall|i: int|
        0 <= i < a.events@.len() ==> {
            let (x, y) = (#[trigger] a.events@[i], b.events@[i]);
            &&& x.id == y.id
            &&& x.index == y.index
            &&& x.cycle_time_ns == y.cycle_time_ns
            &&& x.priority == y.priority
            &&& x.name@ == y.name@
        }
    &&& a.calsegs@.len() == b.calsegs@.len()
    &&& forall|i: int|
        0 <= i < a.calsegs@.len() ==> {
            let (x, y) = (#[trigger] a.calsegs@[i], b.calsegs@[i]);
            &&& x.0.index == y.0.index
            &&& x.0.size == y.0.size
            &&& x.0.addr == y.0.addr
            &&& x.0.name@ == y.0.name@
            &&& x.1@ == y.1@
        }
}

/// Reading a container is a function of its bytes: two reads of the same
/// bytes fail with the same error or hold the same records and payloads.
pub proof fn reading_twice_agrees(d: Seq<u8>, r1: Result<BinFile, Bin2HexError>, r2: Result<BinFile, Bin2HexError>)
    requires
        read_bin_result(r1, d),
        read_bin_result(r2, d),
    ensures
        (r1 is Err && r1 == r2) || (r1 is Ok && r2 is Ok && same_contents(r1->Ok_0, r2->Ok_0)),
{
    if r1 is Ok {
        let (a, b) = (r1->Ok_0, r2->Ok_0);
        assert forall|i: int| 0 <= i < a.events@.len() implies {
            let (x, y) = (#[trigger] a.events@[i], b.events@[i]);
            &&& x.id == y.id
            &&& x.index == y.index
            &&& x.cycle_time_ns == y.cycle_time_ns
            &&& x.priority == y.priority
            &&& x.name@ == y.name@
        } by {
            assert(b.events@[i].matches(a.layout, d, event_pos(a.layout, i)));
        }
        assert forall|i: int| 0 <= i < a.calsegs@.len() implies {
            let (x, y) = (#[trigger] a.calsegs@[i], b.calsegs@[i]);
            &&& x.0.index == y.0.index
            &&& x.0.size == y.0.size
            &&& x.0.addr == y.0.addr
            &&& x.0.name@ == y.0.name@
            &&& x.1@ == y.1@
        } by {
            assert(b.calsegs@[i].0.matches(a.layout, d, desc_pos(a.layout, d, i as nat)));
        }
    }
}

} // verus!
