//! Merging decoded HEX segments into a container image: every segment that
//! the HEX data addresses is validated first, and only then written.
use vstd::prelude::*;
use vstd::slice::slice_subrange;
use vstd::slice::slice_to_vec;
use vstd::string::*;

use crate::bin_format::{layout_for, u16_le, BinHeader, BinLayout, field_text};
use crate::container::{
    SegmentSlot,
    container_error, desc_pos, payload_pos, read_events, read_segment_table, seg_addr, seg_payload,
    seg_size, calseg_count_of, slots_match, lemma_segs_error_none, lemma_desc_pos_grows,
};
use crate::error::{Bin2HexError, MismatchError};
use crate::hex_codec::{lookup, HexSegments};
use crate::text::{is_ws, is_ws_char};

verus! {

/// `s` without its leading whitespace.
pub open spec fn trim_start(s: Seq<char>) -> Seq<char>
    decreases s.len(),
{
    if s.len() > 0 && is_ws(s[0]) {
        trim_start(s.drop_first())
    } else {
        s
    }
}

/// `s` without its trailing whitespace.
pub open spec fn trim_end(s: Seq<char>) -> Seq<char>
    decreases s.len(),
{
    if s.len() > 0 && is_ws(s.last()) {
        trim_end(s.drop_last())
    } else {
        s
    }
}

/// The name that marks the identity segment, once surrounding whitespace
/// is trimmed.
pub open spec fn is_epk_name(name: Seq<char>) -> bool {
    trim_end(trim_start(name)) == seq!['e', 'p', 'k']
}

proof fn lemma_trim_start(s: Seq<char>, k: int)
    requires
        0 <= k <= s.len(),
        forall|j: int| 0 <= j < k ==> is_ws(s[j]),
        k == s.len() || !is_ws(s[k]),
    ensures
        trim_start(s) == s.skip(k),
    decreases k,
{
    if k > 0 {
        lemma_trim_start(s.drop_first(), k - 1);
        assert(s.drop_first().skip(k - 1) =~= s.skip(k));
    } else {
        assert(s.skip(0) =~= s);
    }
}

proof fn lemma_trim_end(s: Seq<char>, k: int)
    requires
        0 <= k <= s.len(),
        forall|j: int| k <= j < s.len() ==> is_ws(s[j]),
        k == 0 || !is_ws(s[k - 1]),
    ensures
        trim_end(s) == s.take(k),
    decreases s.len() - k,
{
    if k < s.len() {
        lemma_trim_end(s.drop_last(), k);
        assert(s.drop_last().take(k) =~= s.take(k));
    } else {
        assert(s.take(k) =~= s);
    }
}

/// Tells whether `name`, trimmed of surrounding whitespace, is `epk`.
pub fn is_epk(name: &str) -> (r: bool)
    ensures
        r == is_epk_name(name@),
{
    let n = name.unicode_len();
    let mut start: usize = 0;
    while start < n && is_ws_char(name.get_char(start))
        invariant
            n == name@.len(),
            start <= n,
            forall|j: int| 0 <= j < start ==> is_ws(name@[j]),
        decreases n - start,
    {
        start = start + 1;
    }
    let mut end: usize = n;
    while end > start && is_ws_char(name.get_char(end - 1))
        invariant
            n == name@.len(),
            start <= end <= n,
            forall|j: int| end <= j < n ==> is_ws(name@[j]),
        decreases end - start,
    {
        end = end - 1;
    }
    proof {
        lemma_trim_start(name@, start as int);
        let t = name@.skip(start as int);
        assert forall|j: int| end - start <= j < t.len() implies is_ws(t[j]) by {
            assert(t[j] == name@[j + start]);
        }
        lemma_trim_end(t, end - start);
        assert(t.take(end - start) =~= name@.subrange(start as int, end as int));
    }
    if end - start != 3 {
        return false;
    }
    let r = name.get_char(start) == 'e' && name.get_char(start + 1) == 'p' && name.get_char(start + 2)
        == 'k';
    proof {
        if r {
            assert(name@.subrange(start as int, end as int) =~= seq!['e', 'p', 'k']);
        } else {
            let t = name@.subrange(start as int, end as int);
            assert(t[0] != 'e' || t[1] != 'p' || t[2] != 'k');
        }
    }
    r
}

/// Segment `i` is the identity segment: the first one, named `epk`.
pub open spec fn is_identity(layout: BinLayout, d: Seq<u8>, i: nat) -> bool {
    let p = desc_pos(layout, d, 0);
    i == 0 && is_epk_name(field_text(d, p + layout.calseg_name_field().0, p + layout.calseg_name_field().1))
}

/// Why the HEX data for segment `i` is refused, if it is: the identity
/// segment must be matched exactly, and every addressed segment must be
/// covered in full.
pub open spec fn seg_check(layout: BinLayout, d: Seq<u8>, hex: Seq<(u32, Seq<u8>)>, i: nat) -> Option<
    MismatchError,
> {
    match lookup(hex, seg_addr(layout, d, i)) {
        None => None,
        Some(hx) => if is_identity(layout, d, i) && hx.len() != seg_size(layout, d, i) {
            Some(MismatchError::IdentitySize { bin_size: seg_size(layout, d, i), hex_len: hx.len() as usize })
        } else if is_identity(layout, d, i) && hx != seg_payload(layout, d, i) {
            Some(MismatchError::IdentityContent)
        } else if hx.len() < seg_size(layout, d, i) {
            Some(
                MismatchError::ShortCoverage {
                    segment: i as u16,
                    hex_len: hx.len() as usize,
                    bin_size: seg_size(layout, d, i),
                },
            )
        } else {
            None
        },
    }
}

/// The first refusal among the first `k` segments, if any.
pub open spec fn validation(layout: BinLayout, d: Seq<u8>, hex: Seq<(u32, Seq<u8>)>, k: nat) -> Option<
    MismatchError,
>
    decreases k,
{
    if k == 0 {
        None
    } else {
        match validation(layout, d, hex, (k - 1) as nat) {
            Some(e) => Some(e),
            None => seg_check(layout, d, hex, (k - 1) as nat),
        }
    }
}

/// Byte `j` of the container once the first `k` segments have been written.
pub open spec fn patched_byte(layout: BinLayout, d: Seq<u8>, hex: Seq<(u32, Seq<u8>)>, j: int, k: nat) -> u8
    decreases k,
{
    if k == 0 {
        d[j]
    } else {
        let i = (k - 1) as nat;
        let p = payload_pos(layout, d, i);
        match lookup(hex, seg_addr(layout, d, i)) {
            Some(hx) => if p <= j < p + seg_size(layout, d, i) {
                hx[j - p]
            } else {
                patched_byte(layout, d, hex, j, i)
            },
            None => patched_byte(layout, d, hex, j, i),
        }
    }
}

/// The container once every addressed segment has been overwritten with the
/// first `size` bytes of its HEX data.
pub open spec fn patched(layout: BinLayout, d: Seq<u8>, hex: Seq<(u32, Seq<u8>)>) -> Seq<u8> {
    Seq::new(d.len(), |j: int| patched_byte(layout, d, hex, j, calseg_count_of(layout, d) as nat))
}

/// How many of the first `k` segments the HEX data addresses.
pub open spec fn matched_count(layout: BinLayout, d: Seq<u8>, hex: Seq<(u32, Seq<u8>)>, k: nat) -> nat
    decreases k,
{
    if k == 0 {
        0
    } else {
        matched_count(layout, d, hex, (k - 1) as nat) + if lookup(hex, seg_addr(layout, d, (k - 1) as nat)) is Some {
            1nat
        } else {
            0nat
        }
    }
}

/// The outcome of a patch: how many segments were written, out of how many.
#[derive(Debug, Clone, Copy, PartialEq, Eq, Structural)]
pub struct PatchReport {
    pub updated: usize,
    pub total: u16,
}

/// What patching the container `d` with `hex` gives, and leaves in `e`.
pub open spec fn patch_result(
    r: Result<PatchReport, Bin2HexError>,
    d: Seq<u8>,
    e: Seq<u8>,
    hex: Seq<(u32, Seq<u8>)>,
) -> bool {
    if d.len() < 18 {
        r == Err::<PatchReport, Bin2HexError>(Bin2HexError::UnexpectedEof { offset: 0 }) && e == d
    } else {
        let layout = layout_for(u16_le(d, 16));
        let n = calseg_count_of(layout, d) as nat;
        match container_error(layout, d) {
            Some(err) => r == Err::<PatchReport, Bin2HexError>(err) && e == d,
            None => match validation(layout, d, hex, n) {
                Some(m) => r == Err::<PatchReport, Bin2HexError>(Bin2HexError::SegmentMismatch(m)) && e == d,
                None => r == Ok::<PatchReport, Bin2HexError>(
                    PatchReport { updated: matched_count(layout, d, hex, n) as usize, total: n as u16 },
                ) && e == patched(layout, d, hex),
            },
        }
    }
}

proof fn lemma_validation_stays(layout: BinLayout, d: Seq<u8>, hex: Seq<(u32, Seq<u8>)>, i: nat, k: nat)
    requires
        i <= k,
        validation(layout, d, hex, i) is Some,
    ensures
        validation(layout, d, hex, k) == validation(layout, d, hex, i),
    decreases k - i,
{
    if i < k {
        lemma_validation_stays(layout, d, hex, i, (k - 1) as nat);
    }
}

/// A write that an accepted patch makes: `data` at file offset `offset`.
#[derive(Debug, Clone)]
pub struct SegmentWrite {
    pub offset: usize,
    pub data: Vec<u8>,
}

pub open spec fn writes_view(ws: Seq<SegmentWrite>) -> Seq<(int, Seq<u8>)> {
    ws.map_values(|w: SegmentWrite| (w.offset as int, w.data@))
}

/// Slot `i` of the segment table is the identity segment: the first one,
/// named `epk`.
pub open spec fn slot_is_identity(slots: Seq<SegmentSlot>, i: nat) -> bool {
    i == 0 && is_epk_name(slots[0].desc.name@)
}

/// Why the HEX data for slot `i` is refused, if it is, given the identity
/// segment's current payload `ident` (see `seg_check`).
pub open spec fn slot_check(slots: Seq<SegmentSlot>, ident: Seq<u8>, hex: Seq<(u32, Seq<u8>)>, i: nat) -> Option<
    MismatchError,
> {
    let desc = slots[i as int].desc;
    match lookup(hex, desc.addr) {
        None => None,
        Some(hx) => if slot_is_identity(slots, i) && hx.len() != desc.size {
            Some(MismatchError::IdentitySize { bin_size: desc.size, hex_len: hx.len() as usize })
        } else if slot_is_identity(slots, i) && hx != ident {
            Some(MismatchError::IdentityContent)
        } else if hx.len() < desc.size {
            Some(MismatchError::ShortCoverage { segment: i as u16, hex_len: hx.len() as usize, bin_size: desc.size })
        } else {
            None
        },
    }
}

/// The first refusal among the first `k` slots, if any.
pub open spec fn slot_validation(slots: Seq<SegmentSlot>, ident: Seq<u8>, hex: Seq<(u32, Seq<u8>)>, k: nat) -> Option<
    MismatchError,
>
    decreases k,
{
    if k == 0 {
        None
    } else {
        match slot_validation(slots, ident, hex, (k - 1) as nat) {
            Some(e) => Some(e),
            None => slot_check(slots, ident, hex, (k - 1) as nat),
        }
    }
}

/// The writes for the first `k` slots: each addressed segment's payload
/// offset with the first `size` bytes of its HEX data, in table order.
pub open spec fn planned_writes(slots: Seq<SegmentSlot>, hex: Seq<(u32, Seq<u8>)>, k: nat) -> Seq<(int, Seq<u8>)>
    decreases k,
{
    if k == 0 {
        seq![]
    } else {
        let rest = planned_writes(slots, hex, (k - 1) as nat);
        let slot = slots[k - 1];
        match lookup(hex, slot.desc.addr) {
            Some(hx) => rest.push((slot.data_pos as int, hx.take(slot.desc.size as int))),
            None => rest,
        }
    }
}

proof fn lemma_slot_validation_stays(
    slots: Seq<SegmentSlot>,
    ident: Seq<u8>,
    hex: Seq<(u32, Seq<u8>)>,
    i: nat,
    k: nat,
)
    requires
        i <= k,
        slot_validation(slots, ident, hex, i) is Some,
    ensures
        slot_validation(slots, ident, hex, k) == slot_validation(slots, ident, hex, i),
    decreases k - i,
{
    if i < k {
        lemma_slot_validation_stays(slots, ident, hex, i, (k - 1) as nat);
    }
}

/// Whether `a` and `b` hold the same bytes.
fn bytes_equal(a: &[u8], b: &[u8]) -> (r: bool)
    ensures
        r == (a@ == b@),
{
    if a.len() != b.len() {
        return false;
    }
    let mut j: usize = 0;
    while j < a.len()
        invariant
            a@.len() == b@.len(),
            j <= a@.len(),
            forall|t: int| 0 <= t < j ==> a@[t] == b@[t],
        decreases a@.len() - j,
    {
        if a[j] != b[j] {
            return false;
        }
        j = j + 1;
    }
    assert(a@ =~= b@);
    true
}

/// Validates the HEX data against the segment table `slots`, given the
/// identity segment's current payload `identity_payload` (empty when there
/// is no segment), and plans the writes of an accepted patch. Nothing of
/// the container is needed beyond these.
pub fn plan_patch(slots: &Vec<SegmentSlot>, identity_payload: &[u8], hex: &HexSegments) -> (r: Result<
    Vec<SegmentWrite>,
    MismatchError,
>)
    ensures
        match slot_validation(slots@, identity_payload@, hex@, slots@.len() as nat) {
            Some(m) => r == Err::<Vec<SegmentWrite>, MismatchError>(m),
            None => r is Ok && writes_view(r->Ok_0@) == planned_writes(slots@, hex@, slots@.len() as nat),
        },
{
    let n = slots.len();
    let mut i: usize = 0;
    while i < n
        invariant
            n == slots@.len(),
            i <= n,
            slot_validation(slots@, identity_payload@, hex@, i as nat) is None,
        decreases n - i,
    {
        let desc = &slots[i].desc;
        if let Some(hx) = hex.get(desc.addr) {
            let size = desc.size as usize;
            if i == 0 && is_epk(desc.name.as_str()) {
                if hx.len() != size {
                    proof {
                        lemma_slot_validation_stays(slots@, identity_payload@, hex@, (i + 1) as nat, n as nat);
                    }
                    return Err(MismatchError::IdentitySize { bin_size: desc.size, hex_len: hx.len() });
                }
                let same = bytes_equal(hx.as_slice(), identity_payload);
                if !same {
                    proof {
                        lemma_slot_validation_stays(slots@, identity_payload@, hex@, (i + 1) as nat, n as nat);
                    }
                    return Err(MismatchError::IdentityContent);
                }
            }
            if hx.len() < size {
                proof {
                    lemma_slot_validation_stays(slots@, identity_payload@, hex@, (i + 1) as nat, n as nat);
                }
                return Err(MismatchError::ShortCoverage { segment: i as u16, hex_len: hx.len(), bin_size: desc.size });
            }
        }
        i = i + 1;
    }
    let mut writes: Vec<SegmentWrite> = Vec::new();
    let mut i: usize = 0;
    assert(writes_view(writes@) =~= seq![]);
    while i < n
        invariant
            n == slots@.len(),
            i <= n,
            slot_validation(slots@, identity_payload@, hex@, n as nat) is None,
            writes_view(writes@) == planned_writes(slots@, hex@, i as nat),
        decreases n - i,
    {
        let slot = &slots[i];
        proof {
            if slot_validation(slots@, identity_payload@, hex@, (i + 1) as nat) is Some {
                lemma_slot_validation_stays(slots@, identity_payload@, hex@, (i + 1) as nat, n as nat);
            }
        }
        if let Some(hx) = hex.get(slot.desc.addr) {
            let size = slot.desc.size as usize;
            let take = if size < hx.len() { size } else { hx.len() };
            let data = slice_to_vec(slice_subrange(hx.as_slice(), 0, take));
            assert(data@ =~= hx@.take(slot.desc.size as int));
            let ghost before = writes_view(writes@);
            writes.push(SegmentWrite { offset: slot.data_pos, data });
            assert(writes_view(writes@) =~= before.push((slot.data_pos as int, hx@.take(slot.desc.size as int))));
        }
        i = i + 1;
    }
    Ok(writes)
}

/// Byte `j` of `d` once the first `k` writes of `ws` have been made.
pub open spec fn written_byte(d: Seq<u8>, ws: Seq<(int, Seq<u8>)>, j: int, k: nat) -> u8
    decreases k,
{
    if k == 0 {
        d[j]
    } else {
        let w = ws[k - 1];
        if w.0 <= j < w.0 + w.1.len() {
            w.1[j - w.0]
        } else {
            written_byte(d, ws, j, (k - 1) as nat)
        }
    }
}

/// `d` once all of `ws` have been written, in order.
pub open spec fn written(d: Seq<u8>, ws: Seq<(int, Seq<u8>)>) -> Seq<u8> {
    Seq::new(d.len(), |j: int| written_byte(d, ws, j, ws.len()))
}

/// Makes the writes `writes` on the image `d`, in order.
pub fn apply_writes(d: &mut Vec<u8>, writes: &Vec<SegmentWrite>)
    requires
        forall|t: int|
            0 <= t < writes@.len() ==> (#[trigger] writes@[t]).offset + writes@[t].data@.len() <= old(d)@.len(),
    ensures
        final(d)@ == written(old(d)@, writes_view(writes@)),
{
    let ghost d0 = d@;
    let ghost ws = writes_view(writes@);
    assert(d0.len() == d.len());
    let mut i: usize = 0;
    while i < writes.len()
        invariant
            i <= writes@.len(),
            ws == writes_view(writes@),
            d@.len() == d0.len(),
            d0.len() <= usize::MAX,
            forall|t: int| 0 <= t < writes@.len() ==> (#[trigger] writes@[t]).offset + writes@[t].data@.len() <= d0.len(),
            forall|j: int| 0 <= j < d@.len() ==> #[trigger] d@[j] == written_byte(d0, ws, j, i as nat),
        decreases writes@.len() - i,
    {
        let w = &writes[i];
        let ghost prev = d@;
        let mut k: usize = 0;
        while k < w.data.len()
            invariant
                d@.len() == d0.len(),
                d0.len() <= usize::MAX,
                w.offset + w.data@.len() <= d0.len(),
                k <= w.data@.len(),
                forall|j: int|
                    0 <= j < d@.len() ==> #[trigger] d@[j] == if w.offset <= j < w.offset + k {
                        w.data@[j - w.offset]
                    } else {
                        prev[j]
                    },
            decreases w.data@.len() - k,
        {
            d[w.offset + k] = w.data[k];
            k = k + 1;
        }
        assert forall|j: int| 0 <= j < d@.len() implies #[trigger] d@[j] == written_byte(d0, ws, j, (i + 1) as nat) by {
            assert(ws[i as int] == (w.offset as int, w.data@));
            assert(prev[j] == written_byte(d0, ws, j, i as nat));
        }
        i = i + 1;
    }
    assert(d@ =~= written(d0, ws));
}

proof fn lemma_slot_validation_matches(
    layout: BinLayout,
    d: Seq<u8>,
    slots: Seq<SegmentSlot>,
    ident: Seq<u8>,
    hex: Seq<(u32, Seq<u8>)>,
    k: nat,
)
    requires
        k <= slots.len(),
        slots_match(slots, layout, d),
        slots.len() > 0 ==> ident == seg_payload(layout, d, 0),
    ensures
        slot_validation(slots, ident, hex, k) == validation(layout, d, hex, k),
    decreases k,
{
    if k > 0 {
        lemma_slot_validation_matches(layout, d, slots, ident, hex, (k - 1) as nat);
        let i = (k - 1) as nat;
        assert(slots[i as int].desc.matches(layout, d, desc_pos(layout, d, i)));
        assert(slots[0].desc.matches(layout, d, desc_pos(layout, d, 0)));
        assert(slot_is_identity(slots, i) == is_identity(layout, d, i));
        assert(slot_check(slots, ident, hex, i) == seg_check(layout, d, hex, i));
    }
}

proof fn lemma_written_prefix(d: Seq<u8>, ws: Seq<(int, Seq<u8>)>, w: (int, Seq<u8>), j: int, m: nat)
    requires
        m <= ws.len(),
    ensures
        written_byte(d, ws.push(w), j, m) == written_byte(d, ws, j, m),
    decreases m,
{
    if m > 0 {
        assert(ws.push(w)[m - 1] == ws[m - 1]);
        lemma_written_prefix(d, ws, w, j, (m - 1) as nat);
    }
}

proof fn lemma_planned_writes(
    layout: BinLayout,
    d: Seq<u8>,
    slots: Seq<SegmentSlot>,
    hex: Seq<(u32, Seq<u8>)>,
    j: int,
    k: nat,
)
    requires
        k <= slots.len(),
        slots.len() == calseg_count_of(layout, d),
        slots_match(slots, layout, d),
        container_error(layout, d) is None,
        validation(layout, d, hex, slots.len() as nat) is None,
    ensures
        planned_writes(slots, hex, k).len() == matched_count(layout, d, hex, k),
        written_byte(d, planned_writes(slots, hex, k), j, planned_writes(slots, hex, k).len()) == patched_byte(
            layout,
            d,
            hex,
            j,
            k,
        ),
        forall|t: int|
            0 <= t < planned_writes(slots, hex, k).len() ==> 0 <= (#[trigger] planned_writes(slots, hex, k)[t]).0
                && planned_writes(slots, hex, k)[t].0 + planned_writes(slots, hex, k)[t].1.len() <= d.len(),
    decreases k,
{
    if k > 0 {
        let i = (k - 1) as nat;
        lemma_planned_writes(layout, d, slots, hex, j, i);
        let rest = planned_writes(slots, hex, i);
        let slot = slots[i as int];
        assert(slot.desc.matches(layout, d, desc_pos(layout, d, i)));
        lemma_segs_error_none(layout, d, k, calseg_count_of(layout, d) as nat);
        if validation(layout, d, hex, k) is Some {
            lemma_validation_stays(layout, d, hex, k, slots.len() as nat);
        }
        match lookup(hex, slot.desc.addr) {
            Some(hx) => {
                let w = (slot.data_pos as int, hx.take(slot.desc.size as int));
                assert(hx.len() >= slot.desc.size);
                lemma_written_prefix(d, rest, w, j, rest.len());
                let p = planned_writes(slots, hex, k);
                assert(p == rest.push(w));
                assert forall|t: int| 0 <= t < p.len() implies 0 <= (#[trigger] p[t]).0 && p[t].0 + p[t].1.len() <= d.len() by {
                    if t < rest.len() {
                        assert(p[t] == rest[t]);
                    }
                }
            },
            None => {},
        }
    }
}

/// Overwrites the addressed segments of the container image `d` with the
/// HEX data at their addresses, but only once every one of them has passed
/// validation; on any error `d` is left as it was.
pub fn apply_hex_to_bin(d: &mut Vec<u8>, hex: &HexSegments) -> (r: Result<PatchReport, Bin2HexError>)
    ensures
        patch_result(r, old(d)@, final(d)@, hex@),
{
    // Discover: the header, the events, and where each payload lies.
    let layout = BinLayout::detect(d.as_slice())?;
    let header = BinHeader::read_from(layout, d.as_slice(), 0)?;
    let _events = read_events(layout, d.as_slice(), header.event_count)?;
    let slots = read_segment_table(layout, d.as_slice(), header.event_count, header.calseg_count)?;
    let ghost d0 = d@;
    let n = slots.len();
    // Validate every addressed segment and plan the writes.
    let planned = {
        let identity: &[u8] = if n > 0 {
            proof {
                lemma_segs_error_none(layout, d0, 1, n as nat);
            }
            assert(slots@[0].desc.matches(layout, d0, desc_pos(layout, d0, 0)));
            slice_subrange(d.as_slice(), slots[0].data_pos, slots[0].data_pos + slots[0].desc.size as usize)
        } else {
            slice_subrange(d.as_slice(), 0, 0)
        };
        proof {
            if n > 0 {
                assert(identity@ =~= seg_payload(layout, d0, 0));
            }
            lemma_slot_validation_matches(layout, d0, slots@, identity@, hex@, n as nat);
        }
        plan_patch(&slots, identity, hex)
    };
    let writes = match planned {
        Ok(writes) => writes,
        Err(m) => return Err(Bin2HexError::SegmentMismatch(m)),
    };
    // Apply.
    proof {
        lemma_planned_writes(layout, d0, slots@, hex@, 0, n as nat);
        lemma_matched_count_bound(layout, d0, hex@, n as nat);
        let p = planned_writes(slots@, hex@, n as nat);
        assert forall|t: int| 0 <= t < writes@.len() implies (#[trigger] writes@[t]).offset + writes@[t].data@.len()
            <= d0.len() by {
            assert(writes_view(writes@)[t] == p[t]);
        }
    }
    let updated = writes.len();
    apply_writes(d, &writes);
    proof {
        assert forall|j: int| 0 <= j < d0.len() implies #[trigger] written(d0, writes_view(writes@))[j] == patched(
            layout,
            d0,
            hex@,
        )[j] by {
            lemma_planned_writes(layout, d0, slots@, hex@, j, n as nat);
        }
        assert(d@ =~= patched(layout, d0, hex@));
    }
    Ok(PatchReport { updated, total: header.calseg_count })
}

/// The HEX data refuses segment `i` of the container `d`.
proof fn lemma_refusal_is_final(layout: BinLayout, d: Seq<u8>, hex: Seq<(u32, Seq<u8>)>, i: nat, n: nat)
    requires
        i < n,
        seg_check(layout, d, hex, i) is Some,
    ensures
        validation(layout, d, hex, n) is Some,
{
    lemma_validation_stays(layout, d, hex, (i + 1) as nat, n);
}

/// A HEX map whose data for the identity segment differs from that
/// segment's bytes in the container is refused with a segment mismatch,
/// and the container is left exactly as it was.
pub proof fn identity_mismatch_refuses_patch(
    d: Seq<u8>,
    hex: Seq<(u32, Seq<u8>)>,
    r: Result<PatchReport, Bin2HexError>,
    e: Seq<u8>,
)
    requires
        d.len() >= 18,
        container_error(layout_for(u16_le(d, 16)), d) is None,
        calseg_count_of(layout_for(u16_le(d, 16)), d) > 0,
        is_identity(layout_for(u16_le(d, 16)), d, 0),
        lookup(hex, seg_addr(layout_for(u16_le(d, 16)), d, 0)) is Some,
        lookup(hex, seg_addr(layout_for(u16_le(d, 16)), d, 0))->0 != seg_payload(layout_for(u16_le(d, 16)), d, 0),
        patch_result(r, d, e, hex),
    ensures
        e == d,
        r is Err,
        r->Err_0 is SegmentMismatch,
{
    let layout = layout_for(u16_le(d, 16));
    lemma_refusal_is_final(layout, d, hex, 0, calseg_count_of(layout, d) as nat);
}

/// A HEX map that holds fewer bytes for an addressed segment than the
/// segment's size is refused with a segment mismatch, and the container is
/// left exactly as it was.
pub proof fn short_coverage_refuses_patch(
    d: Seq<u8>,
    hex: Seq<(u32, Seq<u8>)>,
    i: nat,
    r: Result<PatchReport, Bin2HexError>,
    e: Seq<u8>,
)
    requires
        d.len() >= 18,
        container_error(layout_for(u16_le(d, 16)), d) is None,
        i < calseg_count_of(layout_for(u16_le(d, 16)), d),
        lookup(hex, seg_addr(layout_for(u16_le(d, 16)), d, i)) is Some,
        lookup(hex, seg_addr(layout_for(u16_le(d, 16)), d, i))->0.len() < seg_size(layout_for(u16_le(d, 16)), d, i),
        patch_result(r, d, e, hex),
    ensures
        e == d,
        r is Err,
        r->Err_0 is SegmentMismatch,
{
    let layout = layout_for(u16_le(d, 16));
    lemma_refusal_is_final(layout, d, hex, i, calseg_count_of(layout, d) as nat);
}

proof fn lemma_matched_count_bound(layout: BinLayout, d: Seq<u8>, hex: Seq<(u32, Seq<u8>)>, k: nat)
    ensures
        matched_count(layout, d, hex, k) <= k,
    decreases k,
{
    if k > 0 {
        lemma_matched_count_bound(layout, d, hex, (k - 1) as nat);
    }
}

/// Segment `i` is addressed by the HEX data and byte `j` is in its payload.
pub open spec fn in_written_payload(layout: BinLayout, d: Seq<u8>, hex: Seq<(u32, Seq<u8>)>, i: nat, j: int) -> bool {
    &&& lookup(hex, seg_addr(layout, d, i)) is Some
    &&& payload_pos(layout, d, i) <= j < payload_pos(layout, d, i) + seg_size(layout, d, i)
}

proof fn lemma_payloads_disjoint(layout: BinLayout, d: Seq<u8>, i: nat, k: nat, j: int)
    requires
        i < k,
        payload_pos(layout, d, i) <= j < payload_pos(layout, d, i) + seg_size(layout, d, i),
    ensures
        j < payload_pos(layout, d, k),
{
    lemma_desc_pos_grows(layout, d, (i + 1) as nat, k);
}

proof fn lemma_patched_byte(layout: BinLayout, d: Seq<u8>, hex: Seq<(u32, Seq<u8>)>, j: int, k: nat)
    ensures
        forall|i: nat|
            i < k && #[trigger] in_written_payload(layout, d, hex, i, j) ==> patched_byte(layout, d, hex, j, k)
                == lookup(hex, seg_addr(layout, d, i))->0[j - payload_pos(layout, d, i)],
        (forall|i: nat| i < k ==> !#[trigger] in_written_payload(layout, d, hex, i, j)) ==> patched_byte(
            layout,
            d,
            hex,
            j,
            k,
        ) == d[j],
    decreases k,
{
    if k > 0 {
        lemma_patched_byte(layout, d, hex, j, (k - 1) as nat);
        assert forall|i: nat| i < k && #[trigger] in_written_payload(layout, d, hex, i, j) implies patched_byte(
            layout,
            d,
            hex,
            j,
            k,
        ) == lookup(hex, seg_addr(layout, d, i))->0[j - payload_pos(layout, d, i)] by {
            if i < k - 1 {
                lemma_payloads_disjoint(layout, d, i, (k - 1) as nat, j);
            }
        }
        if forall|i: nat| i < k ==> !#[trigger] in_written_payload(layout, d, hex, i, j) {
            assert(!in_written_payload(layout, d, hex, (k - 1) as nat, j));
        }
    }
}

/// An accepted patch writes each addressed segment's payload with the HEX
/// data at its address and leaves every other byte of the container (the
/// header, the descriptors, the payloads of the other segments) as it was;
/// it reports how many segments it wrote out of how many there are.
pub proof fn accepted_patch_writes_only_addressed_payloads(
    d: Seq<u8>,
    hex: Seq<(u32, Seq<u8>)>,
    r: Result<PatchReport, Bin2HexError>,
    e: Seq<u8>,
    j: int,
)
    requires
        patch_result(r, d, e, hex),
        r is Ok,
        0 <= j < d.len(),
    ensures
        e.len() == d.len(),
        ({
            let layout = layout_for(u16_le(d, 16));
            let n = calseg_count_of(layout, d) as nat;
            &&& r->Ok_0.total == n
            &&& r->Ok_0.updated == matched_count(layout, d, hex, n)
            &&& forall|i: nat|
                i < n && #[trigger] in_written_payload(layout, d, hex, i, j) ==> e[j] == lookup(
                    hex,
                    seg_addr(layout, d, i),
                )->0[j - payload_pos(layout, d, i)]
            &&& (forall|i: nat| i < n ==> !#[trigger] in_written_payload(layout, d, hex, i, j)) ==> e[j] == d[j]
        }),
{
    let layout = layout_for(u16_le(d, 16));
    let n = calseg_count_of(layout, d) as nat;
    lemma_patched_byte(layout, d, hex, j, n);
    lemma_matched_count_bound(layout, d, hex, n);
    assert(e == patched(layout, d, hex));
    assert(e[j] == patched_byte(layout, d, hex, j, n));
}

} // verus!
