//! What encoding and decoding HEX records guarantee together.
use vstd::prelude::*;

use crate::hex_codec::{
    chunk_count, chunk_of, covers, decode_spec, decode_state, emit_chunk, emit_segment,
    emit_segments, encode_spec, owner, place, segments_addressable, write_at, EncodeState,
    HexRecordView,
};

verus! {

/// The segments of `segs` that have at least one byte, in order.
pub open spec fn nonempty_segments(segs: Seq<(u32, Seq<u8>)>) -> Seq<(u32, Seq<u8>)>
    decreases segs.len(),
{
    if segs.len() == 0 {
        seq![]
    } else {
        let rest = nonempty_segments(segs.drop_last());
        if segs.last().1.len() > 0 {
            rest.push(segs.last())
        } else {
            rest
        }
    }
}

/// No non-empty segment starts inside, or less than the decoder's gap past
/// the end of, an earlier non-empty segment, nor ends past the start of it.
pub open spec fn segments_separated(segs: Seq<(u32, Seq<u8>)>) -> bool {
    forall|i: int, j: int|
        0 <= i < j < segs.len() && segs[i].1.len() > 0 && segs[j].1.len() > 0 ==> {
            ||| (#[trigger] segs[j]).0 + segs[j].1.len() <= segs[i].0
            ||| (#[trigger] segs[i]).0 + segs[i].1.len() + 256 <= segs[j].0
        }
}

/// The upper address half that decoding `st`'s records leaves agrees with
/// the one that the encoder believes in force.
pub open spec fn in_step(st: EncodeState) -> bool {
    match st.1 {
        Some(u) => decode_state(st.0).1 == u,
        None => true,
    }
}

proof fn lemma_owner_single(segs: Seq<(u32, Seq<u8>)>, m: int, addr: int)
    requires
        -1 <= m < segs.len(),
        m >= 0 ==> covers(segs[m], addr),
        forall|i: int| 0 <= i < segs.len() && i != m ==> !covers(#[trigger] segs[i], addr),
    ensures
        owner(segs, addr) == m,
    decreases segs.len(),
{
    if segs.len() > 0 {
        let last = segs.len() - 1;
        if m == last {
            lemma_owner_single(segs.drop_last(), -1, addr);
        } else {
            lemma_owner_single(segs.drop_last(), m, addr);
        }
    }
}

proof fn lemma_split_address(addr: int)
    requires
        0 <= addr < 0x1_0000_0000,
    ensures
        ((addr / 0x10000) as u16) * 0x10000 + ((addr % 0x10000) as u16) == addr,
{
}

/// Decoding what `emit_chunk` adds places the chunk at its address.
proof fn lemma_chunk_step(st: EncodeState, addr: int, chunk: Seq<u8>)
    requires
        in_step(st),
        0 <= addr < 0x1_0000_0000,
    ensures
        in_step(emit_chunk(st, addr, chunk)),
        decode_state(emit_chunk(st, addr, chunk).0).0 == place(decode_state(st.0).0, addr, chunk),
{
    lemma_split_address(addr);
    let upper = (addr / 0x10000) as u16;
    let low = (addr % 0x10000) as u16;
    let data = HexRecordView::Data { offset: low, value: chunk };
    let recs = if st.1 == Some(upper) {
        st.0
    } else {
        st.0.push(HexRecordView::ExtendedLinearAddress(upper))
    };
    if st.1 != Some(upper) {
        assert(recs.drop_last() =~= st.0);
    }
    assert(decode_state(recs).1 == upper);
    assert(decode_state(recs).0 == decode_state(st.0).0);
    assert(recs.push(data).drop_last() =~= recs);
}

/// Decoding the first `k` chunks of a segment whose chunk addresses no
/// earlier segment claims adds that segment's first `32 * k` bytes.
proof fn lemma_segment_chunks(st: EncodeState, base: u32, data: Seq<u8>, k: nat)
    requires
        in_step(st),
        base + data.len() <= 0x1_0000_0000,
        0 < k <= chunk_count(data.len()),
        forall|t: int, a: int|
            0 <= t < decode_state(st.0).0.len() && base <= a < base + data.len() ==> !#[trigger] covers(
                decode_state(st.0).0[t],
                a,
            ),
    ensures
        in_step(emit_segment(st, base, data, k)),
        decode_state(emit_segment(st, base, data, k).0).0 == decode_state(st.0).0.push(
            (base, data.take(if 32 * k < data.len() { 32 * k as int } else { data.len() as int })),
        ),
    decreases k,
{
    let d0 = decode_state(st.0).0;
    let addr = base + 32 * (k - 1);
    assert(32 * (k - 1) < data.len()) by {
        assert(k - 1 < (data.len() + 31) / 32);
        assert(32 * (k - 1) < data.len()) by (nonlinear_arith)
            requires k - 1 < (data.len() + 31) / 32, k >= 1;
    }
    let chunk = chunk_of(data, k - 1);
    if k == 1 {
        assert(emit_segment(st, base, data, 0) == st);
        lemma_chunk_step(st, addr, chunk);
        lemma_owner_single(d0, -1, addr);
        assert(chunk =~= data.take(if 32 < data.len() { 32 } else { data.len() as int }));
    } else {
        let prev = emit_segment(st, base, data, (k - 1) as nat);
        lemma_segment_chunks(st, base, data, (k - 1) as nat);
        lemma_chunk_step(prev, addr, chunk);
        let segs = d0.push((base, data.take(32 * (k - 1))));
        assert(32 * (k - 1) < data.len());
        assert(decode_state(prev.0).0 == segs);
        lemma_owner_single(segs, d0.len() as int, addr);
        assert(write_at(data.take(32 * (k - 1)), addr - base, chunk) =~= data.take(
            if 32 * k < data.len() { 32 * k as int } else { data.len() as int },
        ));
        assert(segs.update(d0.len() as int, (base, write_at(data.take(32 * (k - 1)), addr - base, chunk)))
            =~= d0.push((base, data.take(if 32 * k < data.len() { 32 * k as int } else { data.len() as int }))));
    }
}

proof fn lemma_nonempty_members(x: Seq<(u32, Seq<u8>)>)
    ensures
        forall|t: int|
            0 <= t < nonempty_segments(x).len() ==> exists|i: int|
                0 <= i < x.len() && x[i].1.len() > 0 && #[trigger] nonempty_segments(x)[t] == x[i],
    decreases x.len(),
{
    if x.len() > 0 {
        lemma_nonempty_members(x.drop_last());
        let rest = nonempty_segments(x.drop_last());
        assert forall|t: int| 0 <= t < nonempty_segments(x).len() implies exists|i: int|
            0 <= i < x.len() && x[i].1.len() > 0 && #[trigger] nonempty_segments(x)[t] == x[i] by {
            if t < rest.len() {
                let i = choose|i: int|
                    0 <= i < x.drop_last().len() && x.drop_last()[i].1.len() > 0 && #[trigger] rest[t]
                        == x.drop_last()[i];
                assert(x[i] == x.drop_last()[i]);
            } else {
                assert(nonempty_segments(x)[t] == x[x.len() - 1]);
            }
        }
    }
}

proof fn lemma_segments_decode(segs: Seq<(u32, Seq<u8>)>)
    requires
        segments_addressable(segs),
        segments_separated(segs),
    ensures
        in_step(emit_segments(segs)),
        decode_state(emit_segments(segs).0).0 == nonempty_segments(segs),
    decreases segs.len(),
{
    if segs.len() == 0 {
        assert(decode_state(seq![]).0 =~= seq![]);
    } else {
        let x = segs.drop_last();
        let s = segs.last();
        let last = segs.len() - 1;
        assert(segments_addressable(x)) by {
            assert forall|i: int| 0 <= i < x.len() implies (#[trigger] x[i]).0 + x[i].1.len() <= 0x1_0000_0000 by {
                assert(x[i] == segs[i]);
            }
        }
        assert(segments_separated(x)) by {
            assert forall|i: int, j: int|
                0 <= i < j < x.len() && x[i].1.len() > 0 && x[j].1.len() > 0 implies {
                    ||| (#[trigger] x[j]).0 + x[j].1.len() <= x[i].0
                    ||| (#[trigger] x[i]).0 + x[i].1.len() + 256 <= x[j].0
                } by {
                assert(x[i] == segs[i] && x[j] == segs[j]);
            }
        }
        lemma_segments_decode(x);
        let st = emit_segments(x);
        assert(s == segs[last]);
        if s.1.len() == 0 {
            assert(chunk_count(0) == 0);
            assert(emit_segment(st, s.0, s.1, 0) == st);
        } else {
            let n = chunk_count(s.1.len());
            assert(n > 0 && 32 * n >= s.1.len()) by (nonlinear_arith)
                requires n == (s.1.len() + 31) / 32, s.1.len() > 0;
            lemma_nonempty_members(x);
            let d0 = decode_state(st.0).0;
            assert forall|t: int, a: int| 0 <= t < d0.len() && s.0 <= a < s.0 + s.1.len() implies !#[trigger] covers(
                d0[t],
                a,
            ) by {
                let i = choose|i: int| 0 <= i < x.len() && x[i].1.len() > 0 && #[trigger] nonempty_segments(x)[t] == x[i];
                assert(x[i] == segs[i]);
                assert(segs[i].1.len() > 0 && segs[last].1.len() > 0 && i < last);
            }
            assert(s.0 + s.1.len() <= 0x1_0000_0000);
            lemma_segment_chunks(st, s.0, s.1, n);
            assert(s.1.take(s.1.len() as int) =~= s.1);
        }
    }
}

/// Decoding the records that encode a list of segments gives back every
/// non-empty segment, at its own address and with its own bytes, in order,
/// provided the segments are far enough apart that the decoder cannot take
/// one for the continuation of another.
pub proof fn encode_then_decode(segs: Seq<(u32, Seq<u8>)>)
    requires
        segments_addressable(segs),
        segments_separated(segs),
    ensures
        decode_spec(encode_spec(segs)) == nonempty_segments(segs),
{
    lemma_segments_decode(segs);
    let body = emit_segments(segs).0;
    assert(encode_spec(segs).drop_last() =~= body);
}

proof fn lemma_remove_empty(segs: Seq<(u32, Seq<u8>)>, i: int)
    requires
        0 <= i < segs.len(),
        segs[i].1.len() == 0,
    ensures
        emit_segments(segs) == emit_segments(segs.remove(i)),
    decreases segs.len(),
{
    assert(chunk_count(0) == 0);
    if i == segs.len() - 1 {
        assert(segs.remove(i) =~= segs.drop_last());
    } else {
        lemma_remove_empty(segs.drop_last(), i);
        assert(segs.remove(i).drop_last() =~= segs.drop_last().remove(i));
        assert(segs.remove(i).last() == segs.last());
    }
}

/// A segment without payload bytes adds nothing to the encoding: the
/// records are those of the other segments alone.
pub proof fn empty_segment_adds_no_records(segs: Seq<(u32, Seq<u8>)>, i: int)
    requires
        0 <= i < segs.len(),
        segs[i].1.len() == 0,
    ensures
        encode_spec(segs) == encode_spec(segs.remove(i)),
{
    lemma_remove_empty(segs, i);
}

proof fn lemma_emit_extends(st: EncodeState, base: u32, data: Seq<u8>, j: nat, k: nat)
    requires
        j <= k,
    ensures
        emit_segment(st, base, data, j).0.len() <= emit_segment(st, base, data, k).0.len(),
        emit_segment(st, base, data, k).0.subrange(0, emit_segment(st, base, data, j).0.len() as int)
            == emit_segment(st, base, data, j).0,
    decreases k - j,
{
    if j < k {
        lemma_emit_extends(st, base, data, j, (k - 1) as nat);
        let prev = emit_segment(st, base, data, (k - 1) as nat).0;
        let next = emit_segment(st, base, data, k).0;
        let m = emit_segment(st, base, data, j).0.len() as int;
        assert(next.subrange(0, prev.len() as int) =~= prev);
        assert(next.subrange(0, m) =~= prev.subrange(0, m));
    } else {
        let e = emit_segment(st, base, data, k).0;
        assert(e.subrange(0, e.len() as int) =~= e);
    }
}

proof fn lemma_prefix_compose(x: Seq<HexRecordView>, y: Seq<HexRecordView>, z: Seq<HexRecordView>)
    requires
        x.len() <= y.len() <= z.len(),
        y.subrange(0, x.len() as int) == x,
        z.subrange(0, y.len() as int) == y,
    ensures
        z.subrange(0, x.len() as int) == x,
{
    assert(z.subrange(0, x.len() as int) =~= y.subrange(0, x.len() as int));
}

/// The records of the first `k` segments begin the records of all of them.
proof fn lemma_segments_prefix(segs: Seq<(u32, Seq<u8>)>, k: int)
    requires
        0 <= k <= segs.len(),
    ensures
        emit_segments(segs.take(k)).0.len() <= emit_segments(segs).0.len(),
        emit_segments(segs).0.subrange(0, emit_segments(segs.take(k)).0.len() as int) == emit_segments(
            segs.take(k),
        ).0,
    decreases segs.len(),
{
    if k == segs.len() {
        assert(segs.take(k) =~= segs);
        let e = emit_segments(segs).0;
        assert(e.subrange(0, e.len() as int) =~= e);
    } else {
        let x = segs.drop_last();
        assert(x.take(k) =~= segs.take(k));
        lemma_segments_prefix(x, k);
        let st = emit_segments(x);
        let s = segs.last();
        lemma_emit_extends(st, s.0, s.1, 0, chunk_count(s.1.len()));
        assert(emit_segment(st, s.0, s.1, 0) == st);
        lemma_prefix_compose(emit_segments(segs.take(k)).0, st.0, emit_segments(segs).0);
    }
}

/// Between two consecutive non-empty segments of a list, an extended
/// linear address record precedes the second one's first data record
/// exactly when its upper address half differs from that of the first
/// segment's last data record.
pub proof fn extended_address_between_segments(segs: Seq<(u32, Seq<u8>)>, i: int)
    requires
        0 <= i,
        i + 1 < segs.len(),
        segs[i].1.len() > 0,
        segs[i + 1].1.len() > 0,
    ensures
        ({
            let (a, b) = (segs[i], segs[i + 1]);
            let p = emit_segments(segs.take(i + 1)).0;
            let q = encode_spec(segs);
            let prev_upper = ((a.0 + 32 * (chunk_count(a.1.len()) - 1)) / 0x10000) as u16;
            let upper = (b.0 / 0x10000) as u16;
            let first = HexRecordView::Data { offset: (b.0 % 0x10000) as u16, value: chunk_of(b.1, 0) };
            &&& upper != prev_upper ==> q[p.len() as int] == HexRecordView::ExtendedLinearAddress(upper)
                && q[p.len() + 1int] == first
            &&& upper == prev_upper ==> q[p.len() as int] == first
        }),
{
    let (a, b) = (segs[i], segs[i + 1]);
    let na = chunk_count(a.1.len());
    let nb = chunk_count(b.1.len());
    assert(na > 0) by (nonlinear_arith)
        requires na == (a.1.len() + 31) / 32, a.1.len() > 0;
    assert(nb > 0) by (nonlinear_arith)
        requires nb == (b.1.len() + 31) / 32, b.1.len() > 0;
    let ta = segs.take(i + 1);
    let tb = segs.take(i + 2);
    assert(ta.drop_last() =~= segs.take(i));
    assert(ta.last() == a);
    assert(tb.drop_last() =~= ta);
    assert(tb.last() == b);
    let st = emit_segments(ta);
    let prev_upper = ((a.0 + 32 * (na - 1)) / 0x10000) as u16;
    assert(st.1 == Some(prev_upper));
    let body = emit_segments(tb).0;
    assert(body == emit_segment(st, b.0, b.1, nb).0);
    let one = emit_segment(st, b.0, b.1, 1);
    assert(emit_segment(st, b.0, b.1, 0) == st);
    lemma_emit_extends(st, b.0, b.1, 1, nb);
    lemma_segments_prefix(segs, i + 2);
    let full = emit_segments(segs).0;
    lemma_prefix_compose(one.0, body, full);
    let q = encode_spec(segs);
    assert(q.subrange(0, full.len() as int) =~= full);
    assert forall|t: int| 0 <= t < one.0.len() implies q[t] == #[trigger] one.0[t] by {
        assert(q[t] == full[t]);
        assert(full.subrange(0, one.0.len() as int)[t] == one.0[t]);
    }
    assert(one == emit_chunk(st, b.0 as int, chunk_of(b.1, 0)));
    let upper = (b.0 / 0x10000) as u16;
    let first = HexRecordView::Data { offset: (b.0 % 0x10000) as u16, value: chunk_of(b.1, 0) };
    if upper != prev_upper {
        assert(one.0 == st.0.push(HexRecordView::ExtendedLinearAddress(upper)).push(first));
        assert(one.0[st.0.len() as int] == HexRecordView::ExtendedLinearAddress(upper));
        assert(one.0[st.0.len() + 1int] == first);
    } else {
        assert(one.0 == st.0.push(first));
        assert(one.0[st.0.len() as int] == first);
    }
}

} // verus!
