//! What decoding the canonical bytes of a record gives back.
use vstd::prelude::*;
use super::commit::spec_stored_receipt;
use super::{Block, EventView, MAX_EVENTS, Head, HistoryRecord, IntentRecord, OperationView, Receipt, MAX_OPERATION_BYTES};
use super::codec::{block_magic, is_block, spec_block, count_ok, event_parts, frame_parts, framed, history_magic, history_ok, is_head, is_history, is_operation, is_receipt, lemma_history_layout, lemma_receipt_layout, op_kind, spec_event, spec_head, spec_history, spec_operation, spec_receipt, spec_wire};
use crate::wire::{flat, le32, le64, lemma_flat_step, lemma_int_codecs, lemma_sub};

verus! {

/// Receipts: the canonical bytes are accepted, and only that receipt
/// encodes to them.
pub proof fn law_receipt_round_trip(r: Receipt, v: Receipt)
    ensures
        is_receipt(spec_receipt(r)),
        spec_receipt(v) == spec_receipt(r) ==> v == r,
{
    lemma_int_codecs();
    let s = spec_receipt(r);
    let t = spec_receipt(v);
    if s == t {
        assert(s[92] == t[92]);
        assert(s.subrange(4, 36) =~= r.request_id@);
        assert(t.subrange(4, 36) =~= v.request_id@);
        assert(r.request_id@ =~= v.request_id@);
        assert(r.request_id == v.request_id);
        assert(s.subrange(52, 84) =~= r.root@);
        assert(t.subrange(52, 84) =~= v.root@);
        assert(r.root@ =~= v.root@);
        assert(r.root == v.root);
        assert(s.subrange(36, 44) =~= le64(r.position));
        assert(t.subrange(36, 44) =~= le64(v.position));
        assert(s.subrange(44, 52) =~= le64(r.height));
        assert(t.subrange(44, 52) =~= le64(v.height));
        assert(s.subrange(84, 92) =~= le64(r.signals));
        assert(t.subrange(84, 92) =~= le64(v.signals));
        let o: int = if r.balance is Some { 101 } else { 93 };
        if let Some(x) = r.balance {
            let y = v.balance.unwrap();
            assert(s.subrange(93, 101) =~= le64(x));
            assert(t.subrange(93, 101) =~= le64(y));
        }
        assert(s.subrange(o, o + 8) =~= le64(r.supply));
        assert(t.subrange(o, o + 8) =~= le64(v.supply));
        assert(s.subrange(o + 8, o + 16) =~= le64(r.weight));
        assert(t.subrange(o + 8, o + 16) =~= le64(v.weight));
        assert(s.subrange(o + 16, o + 24) =~= le64(r.timestamp));
        assert(t.subrange(o + 16, o + 24) =~= le64(v.timestamp));
        assert(s.subrange(o + 24, o + 32) =~= le64(r.applied));
        assert(t.subrange(o + 24, o + 32) =~= le64(v.applied));
        assert(r.position == v.position);
        assert(r.height == v.height);
        assert(r.signals == v.signals);
        assert(r.balance == v.balance);
        assert(r.supply == v.supply);
        assert(r.weight == v.weight);
        assert(r.timestamp == v.timestamp);
        assert(r.applied == v.applied);
    }
}

/// Heads: the canonical bytes are accepted, and only that head encodes to
/// them.
pub proof fn law_head_round_trip(h: Head, v: Head)
    ensures
        is_head(spec_head(h)),
        spec_head(v) == spec_head(h) ==> v == h,
{
    lemma_int_codecs();
    let s = spec_head(h);
    let t = spec_head(v);
    if s == t {
        assert(s[28] == t[28]);
        assert(s.subrange(4, 12) =~= le64(h.position));
        assert(t.subrange(4, 12) =~= le64(v.position));
        assert(s.subrange(12, 20) =~= le64(h.signals));
        assert(t.subrange(12, 20) =~= le64(v.signals));
        assert(s.subrange(20, 28) =~= le64(h.wire_end));
        assert(t.subrange(20, 28) =~= le64(v.wire_end));
        assert(s.subrange(29, 61) =~= h.history_hash@);
        assert(t.subrange(29, 61) =~= v.history_hash@);
        assert(h.history_hash@ =~= v.history_hash@);
        assert(h.history_hash == v.history_hash);
        assert(h.position == v.position);
        assert(h.signals == v.signals);
        assert(h.wire_end == v.wire_end);
        assert(h.wire_blocked == v.wire_blocked);
    }
}

} // verus!

verus! {

/// Every signal of a sequence of events is at most one operation long.
pub open spec fn signals_bounded(es: Seq<EventView>) -> bool {
    forall|i: int| 0 <= i < es.len() ==> (#[trigger] es[i] matches EventView::Signal(b) ==> b.len() <= MAX_OPERATION_BYTES)
}

proof fn lemma_event_prefix(x: EventView, y: EventView, rx: Seq<u8>, ry: Seq<u8>)
    requires
        spec_event(x) + rx == spec_event(y) + ry,
        x matches EventView::Signal(b) ==> b.len() <= MAX_OPERATION_BYTES,
        y matches EventView::Signal(b) ==> b.len() <= MAX_OPERATION_BYTES,
    ensures
        x == y,
        rx == ry,
{
    lemma_int_codecs();
    super::codec::lemma_event_layout(x);
    super::codec::lemma_event_layout(y);
    let ex = spec_event(x);
    let ey = spec_event(y);
    let s = ex + ry;
    let s = spec_event(x) + rx;
    assert(s[0] == ex[0]);
    assert((spec_event(y) + ry)[0] == ey[0]);
    if let EventView::Signal(bx) = x {
        if let EventView::Signal(by) = y {
            assert(s.subrange(1, 5) =~= ex.subrange(1, 5));
            assert((spec_event(y) + ry).subrange(1, 5) =~= ey.subrange(1, 5));
            assert(le32(bx.len() as u32) == le32(by.len() as u32));
            assert(bx.len() == by.len());
        }
    }
    assert(ex.len() == ey.len());
    assert(s.subrange(0, ex.len() as int) =~= ex);
    assert((spec_event(y) + ry).subrange(0, ey.len() as int) =~= ey);
    assert(ex == ey);
    assert(s.subrange(ex.len() as int, s.len() as int) =~= rx);
    assert((spec_event(y) + ry).subrange(ey.len() as int, s.len() as int) =~= ry);
    match x {
        EventView::Signal(bx) => {
            let by = y->Signal_0;
            assert(bx =~= by);
        },
        EventView::Intent(i) => {
            let j = y->Intent_0;
            assert(i.neuron@ =~= j.neuron@);
            assert(i.scope_hash@ =~= j.scope_hash@);
            assert(i.signature@ =~= j.signature@);
            assert(i.neuron == j.neuron);
            assert(i.scope_hash == j.scope_hash);
            assert(i.signature == j.signature);
            assert(le64(i.h0) == le64(j.h0));
            assert(i == j);
        },
        EventView::LocalCredit { neuron, token, amount, focus, reason } => {
            if let EventView::LocalCredit { neuron: n2, token: t2, amount: a2, focus: f2, reason: r2 } = y {
                assert(neuron@ =~= n2@);
                assert(token@ =~= t2@);
                assert(reason@ =~= r2@);
                assert(neuron == n2);
                assert(token == t2);
                assert(reason == r2);
                assert(le64(amount) == le64(a2));
                assert(le64(focus) == le64(f2));
            }
        },
    }
}

proof fn lemma_events_injective(a: Seq<EventView>, b: Seq<EventView>)
    requires
        a.len() == b.len(),
        flat(event_parts(a)) == flat(event_parts(b)),
        signals_bounded(a),
        signals_bounded(b),
    ensures
        a == b,
    decreases a.len(),
{
    if a.len() > 0 {
        assert(event_parts(a).drop_first() =~= event_parts(a.drop_first()));
        assert(event_parts(b).drop_first() =~= event_parts(b.drop_first()));
        assert(a[0] matches EventView::Signal(x) ==> x.len() <= MAX_OPERATION_BYTES);
        assert(b[0] matches EventView::Signal(x) ==> x.len() <= MAX_OPERATION_BYTES);
        lemma_event_prefix(a[0], b[0], flat(event_parts(a.drop_first())), flat(event_parts(b.drop_first())));
        assert forall|i: int| 0 <= i < a.drop_first().len() implies
            (#[trigger] a.drop_first()[i] matches EventView::Signal(x) ==> x.len() <= MAX_OPERATION_BYTES) by {
            assert(a.drop_first()[i] == a[i + 1]);
        }
        assert forall|i: int| 0 <= i < b.drop_first().len() implies
            (#[trigger] b.drop_first()[i] matches EventView::Signal(x) ==> x.len() <= MAX_OPERATION_BYTES) by {
            assert(b.drop_first()[i] == b[i + 1]);
        }
        lemma_events_injective(a.drop_first(), b.drop_first());
        assert forall|i: int| 0 <= i < a.len() implies #[trigger] a[i] == b[i] by {
            if i > 0 {
                assert(a[i] == a.drop_first()[i - 1]);
                assert(b[i] == b.drop_first()[i - 1]);
            }
        }
        assert(a =~= b);
    } else {
        assert(a =~= b);
    }
}

proof fn lemma_events_prefix(a: Seq<EventView>, b: Seq<EventView>, ra: Seq<u8>, rb: Seq<u8>)
    requires
        a.len() == b.len(),
        flat(event_parts(a)) + ra == flat(event_parts(b)) + rb,
        signals_bounded(a),
        signals_bounded(b),
    ensures
        ra == rb,
    decreases a.len(),
{
    if a.len() > 0 {
        let ta = a.drop_first();
        let tb = b.drop_first();
        assert(event_parts(a).drop_first() =~= event_parts(ta));
        assert(event_parts(b).drop_first() =~= event_parts(tb));
        assert(flat(event_parts(a)) + ra =~= spec_event(a[0]) + (flat(event_parts(ta)) + ra));
        assert(flat(event_parts(b)) + rb =~= spec_event(b[0]) + (flat(event_parts(tb)) + rb));
        assert(a[0] matches EventView::Signal(x) ==> x.len() <= MAX_OPERATION_BYTES);
        assert(b[0] matches EventView::Signal(x) ==> x.len() <= MAX_OPERATION_BYTES);
        lemma_event_prefix(a[0], b[0], flat(event_parts(ta)) + ra, flat(event_parts(tb)) + rb);
        assert forall|i: int| 0 <= i < ta.len() implies
            (#[trigger] ta[i] matches EventView::Signal(x) ==> x.len() <= MAX_OPERATION_BYTES) by {
            assert(ta[i] == a[i + 1]);
        }
        assert forall|i: int| 0 <= i < tb.len() implies
            (#[trigger] tb[i] matches EventView::Signal(x) ==> x.len() <= MAX_OPERATION_BYTES) by {
            assert(tb[i] == b[i + 1]);
        }
        lemma_events_prefix(ta, tb, ra, rb);
    } else {
        assert(flat(event_parts(a)) =~= Seq::<u8>::empty());
        assert(flat(event_parts(b)) =~= Seq::<u8>::empty());
        assert(ra =~= Seq::<u8>::empty() + ra);
        assert(rb =~= Seq::<u8>::empty() + rb);
    }
}

proof fn lemma_bounded_by_encoding(es: Seq<EventView>)
    requires
        flat(event_parts(es)).len() <= MAX_OPERATION_BYTES,
    ensures
        signals_bounded(es),
{
    assert forall|i: int| 0 <= i < es.len() implies
        (#[trigger] es[i] matches EventView::Signal(b) ==> b.len() <= MAX_OPERATION_BYTES) by {
        crate::wire::lemma_flat_split(event_parts(es), i);
        lemma_flat_step(event_parts(es), i);
        super::codec::lemma_event_layout(es[i]);
        assert(event_parts(es)[i] == spec_event(es[i]));
    }
}

/// Operations: the canonical bytes of any operation that encodes are
/// accepted by the decoder, and only that operation encodes to them.
pub proof fn law_operation_round_trip(op: OperationView, v: OperationView)
    requires
        count_ok(op),
        spec_operation(op).len() <= MAX_OPERATION_BYTES,
    ensures
        is_operation(spec_operation(op)),
        spec_operation(v) == spec_operation(op) && count_ok(v) ==> v == op,
{
    lemma_int_codecs();
    let s = spec_operation(op);
    let t = spec_operation(v);
    super::codec::lemma_operation_layout(op);
    super::codec::lemma_operation_layout(v);
    if s == t && count_ok(v) {
        assert(op_kind(op) == op_kind(v));
        match op {
            OperationView::Link { neuron, from, to, token, amount, valence } => {
                if let OperationView::Link { neuron: n2, from: f2, to: t2, token: k2, amount: a2, valence: v2 } = v {
                    assert(s.subrange(6, 38) =~= neuron@);
                    assert(t.subrange(6, 38) =~= n2@);
                    assert(s.subrange(38, 70) =~= from@);
                    assert(t.subrange(38, 70) =~= f2@);
                    assert(s.subrange(70, 102) =~= to@);
                    assert(t.subrange(70, 102) =~= t2@);
                    assert(s.subrange(102, 134) =~= token@);
                    assert(t.subrange(102, 134) =~= k2@);
                    assert(s.subrange(134, 142) =~= le64(amount));
                    assert(t.subrange(134, 142) =~= le64(a2));
                    assert(s[142] == valence as u8);
                    assert(t[142] == v2 as u8);
                    assert(valence as u8 == v2 as u8 ==> valence == v2) by (bit_vector);
                    assert(neuron@ =~= n2@ && from@ =~= f2@ && to@ =~= t2@ && token@ =~= k2@);
                    assert(neuron == n2 && from == f2 && to == t2 && token == k2);
                    assert(le64(amount) == le64(a2));
                }
            },
            OperationView::Pay { from, to, amount } => {
                if let OperationView::Pay { from: f2, to: t2, amount: a2 } = v {
                    assert(s.subrange(6, 38) =~= from@);
                    assert(t.subrange(6, 38) =~= f2@);
                    assert(s.subrange(38, 70) =~= to@);
                    assert(t.subrange(38, 70) =~= t2@);
                    assert(s.subrange(70, 78) =~= le64(amount));
                    assert(t.subrange(70, 78) =~= le64(a2));
                    assert(from@ =~= f2@ && to@ =~= t2@);
                    assert(from == f2 && to == t2);
                    assert(le64(amount) == le64(a2));
                }
            },
            OperationView::Events(es) => {
                let es2 = v->Events_0;
                assert(le32(es.len() as u32) == le32(es2.len() as u32));
                assert(es.len() == es2.len());
                lemma_bounded_by_encoding(es);
                lemma_bounded_by_encoding(es2);
                lemma_events_injective(es, es2);
            },
        }
    }
}

/// Operations: no encoded operation goes on past the end of another, so a
/// decoder that has read one operation is left with trailing bytes only.
pub proof fn law_operation_prefix_free(b: Seq<u8>, t: Seq<u8>)
    requires
        is_operation(b),
        t.len() > 0,
    ensures
        !is_operation(b + t),
{
    if is_operation(b + t) {
        lemma_int_codecs();
        let op = choose|op: OperationView| spec_operation(op) == b && count_ok(op);
        let w = choose|w: OperationView| spec_operation(w) == b + t && count_ok(w);
        let s = spec_operation(op);
        let u = spec_operation(w);
        super::codec::lemma_operation_layout(op);
        super::codec::lemma_operation_layout(w);
        assert(u[5] == s[5]);
        assert(op_kind(op) == op_kind(w));
        match op {
            OperationView::Events(es) => {
                let es2 = w->Events_0;
                assert(u.subrange(6, 10) =~= s.subrange(6, 10));
                assert(le32(es.len() as u32) == le32(es2.len() as u32));
                assert(es.len() == es2.len());
                assert(u.subrange(10, u.len() as int) =~= s.subrange(10, s.len() as int) + t);
                lemma_bounded_by_encoding(es);
                lemma_bounded_by_encoding(es2);
                assert(flat(event_parts(es2)) + Seq::<u8>::empty() =~= flat(event_parts(es2)));
                lemma_events_prefix(es, es2, t, Seq::<u8>::empty());
            },
            _ => {},
        }
    }
}

proof fn lemma_frames_injective(a: Seq<Seq<u8>>, b: Seq<Seq<u8>>)
    requires
        a.len() == b.len(),
        flat(frame_parts(a)) == flat(frame_parts(b)),
        forall|i: int| 0 <= i < a.len() ==> #[trigger] a[i].len() <= MAX_OPERATION_BYTES,
        forall|i: int| 0 <= i < b.len() ==> #[trigger] b[i].len() <= MAX_OPERATION_BYTES,
    ensures
        a == b,
    decreases a.len(),
{
    if a.len() > 0 {
        lemma_int_codecs();
        let s = flat(frame_parts(a));
        let t = flat(frame_parts(b));
        let x = a[0];
        let y = b[0];
        let ra = flat(frame_parts(a.drop_first()));
        let rb = flat(frame_parts(b.drop_first()));
        assert(frame_parts(a).drop_first() =~= frame_parts(a.drop_first()));
        assert(frame_parts(b).drop_first() =~= frame_parts(b.drop_first()));
        assert(s == framed(x) + ra);
        assert(t == framed(y) + rb);
        assert(le32(x.len() as u32).len() == 4);
        assert(le32(y.len() as u32).len() == 4);
        assert(s.subrange(0, 4) =~= le32(x.len() as u32));
        assert(t.subrange(0, 4) =~= le32(y.len() as u32));
        assert(x.len() == y.len());
        let n = x.len() as int;
        assert(s.subrange(4, 4 + n) =~= x);
        assert(t.subrange(4, 4 + n) =~= y);
        assert(s.subrange(4 + n, s.len() as int) =~= ra);
        assert(t.subrange(4 + n, t.len() as int) =~= rb);
        assert forall|i: int| 0 <= i < a.drop_first().len() implies #[trigger] a.drop_first()[i].len() <= MAX_OPERATION_BYTES by {
            assert(a.drop_first()[i] == a[i + 1]);
        }
        assert forall|i: int| 0 <= i < b.drop_first().len() implies #[trigger] b.drop_first()[i].len() <= MAX_OPERATION_BYTES by {
            assert(b.drop_first()[i] == b[i + 1]);
        }
        lemma_frames_injective(a.drop_first(), b.drop_first());
        assert forall|i: int| 0 <= i < a.len() implies #[trigger] a[i] == b[i] by {
            if i > 0 {
                assert(a[i] == a.drop_first()[i - 1]);
                assert(b[i] == b.drop_first()[i - 1]);
            }
        }
        assert(a =~= b);
    } else {
        assert(a =~= b);
    }
}

/// History entries: the canonical bytes of a bounded entry are accepted,
/// and only that entry encodes to them.
pub proof fn law_history_round_trip(h: HistoryRecord, v: HistoryRecord)
    requires
        history_ok(h),
    ensures
        is_history(spec_history(h)),
        spec_history(v) == spec_history(h) && history_ok(v) ==> v == h,
{
    lemma_int_codecs();
    let s = spec_history(h);
    let t = spec_history(v);
    lemma_history_layout(h);
    if t == s && history_ok(v) {
        lemma_history_layout(v);
        lemma_receipt_layout(h.receipt);
        lemma_receipt_layout(v.receipt);
        assert(s.subrange(4, 36) =~= h.fingerprint@);
        assert(t.subrange(4, 36) =~= v.fingerprint@);
        assert(h.fingerprint@ =~= v.fingerprint@);
        assert(h.fingerprint == v.fingerprint);
        let rh = spec_receipt(h.receipt).len() as int;
        let rv = spec_receipt(v.receipt).len() as int;
        assert(le32(rh as u32) == le32(rv as u32));
        assert(rh == rv);
        law_receipt_round_trip(h.receipt, v.receipt);
        assert(h.receipt == v.receipt);
        let c = 40 + rh;
        assert(le32((h.command.len() as int) as u32) == le32((v.command.len() as int) as u32));
        assert(h.command.len() == v.command.len());
        assert(h.command =~= v.command);
        let w = c + 4 + (h.command.len() as int);
        assert(spec_wire(h.original_wire) == spec_wire(v.original_wire));
        match h.original_wire {
            None => {
                if let Some(fs) = v.original_wire {
                    assert(spec_wire(v.original_wire)[0] == 1u8);
                }
            },
            Some(fa) => {
                match v.original_wire {
                    None => {
                        assert(spec_wire(h.original_wire)[0] == 1u8);
                    },
                    Some(fb) => {
                        let wa = spec_wire(h.original_wire);
                        let wb = spec_wire(v.original_wire);
                        assert(wa.subrange(1, 5) =~= le32(fa.len() as u32));
                        assert(wb.subrange(1, 5) =~= le32(fb.len() as u32));
                        assert(fa.len() == fb.len());
                        assert(wa.subrange(5, wa.len() as int) =~= flat(frame_parts(fa)));
                        assert(wb.subrange(5, wb.len() as int) =~= flat(frame_parts(fb)));
                        lemma_frames_injective(fa, fb);
                    },
                }
            },
        }
        assert(h.original_wire == v.original_wire);
    }
}

/// Blocks: the canonical bytes of a block with a bounded signal decode,
/// and only to that block.
pub proof fn law_block_round_trip(b: Block, v: Block)
    requires
        b.signal@.len() <= MAX_OPERATION_BYTES,
    ensures
        is_block(spec_block(b)),
        spec_block(v) == spec_block(b) && v.signal@.len() <= MAX_OPERATION_BYTES ==> {
            &&& v.height == b.height && v.timestamp == b.timestamp && v.supply == b.supply && v.weight == b.weight
            &&& v.root == b.root && v.signal@ == b.signal@
        },
{
    lemma_int_codecs();
    let s = spec_block(b);
    let t = spec_block(v);
    if s == t && v.signal@.len() <= MAX_OPERATION_BYTES {
        assert(s.subrange(4, 12) =~= le64(b.height));
        assert(t.subrange(4, 12) =~= le64(v.height));
        assert(s.subrange(12, 20) =~= le64(b.timestamp));
        assert(t.subrange(12, 20) =~= le64(v.timestamp));
        assert(s.subrange(20, 28) =~= le64(b.supply));
        assert(t.subrange(20, 28) =~= le64(v.supply));
        assert(s.subrange(28, 36) =~= le64(b.weight));
        assert(t.subrange(28, 36) =~= le64(v.weight));
        assert(s.subrange(36, 68) =~= b.root@);
        assert(t.subrange(36, 68) =~= v.root@);
        assert(b.root@ =~= v.root@);
        assert(b.root == v.root);
        assert(s.subrange(68, 72) =~= le32(b.signal@.len() as u32));
        assert(t.subrange(68, 72) =~= le32(v.signal@.len() as u32));
        assert(b.signal@.len() == v.signal@.len());
        assert(s.subrange(72, s.len() as int) =~= b.signal@);
        assert(t.subrange(72, t.len() as int) =~= v.signal@);
    }
}

/// Retries: the stored form of a receipt starts with the fingerprint of its
/// command, which no other fingerprint matches, and continues with exactly
/// the receipt's canonical bytes.
pub proof fn law_stored_receipt(f: crate::Particle, r: Receipt, g: crate::Particle)
    ensures
        spec_stored_receipt(f, r).len() >= 32,
        spec_stored_receipt(f, r).subrange(0, 32) == f@,
        spec_stored_receipt(f, r).subrange(32, spec_stored_receipt(f, r).len() as int) == spec_receipt(r),
        is_receipt(spec_receipt(r)),
        g != f ==> spec_stored_receipt(f, r).subrange(0, 32) != g@,
{
    let s = spec_stored_receipt(f, r);
    assert(s.subrange(0, 32) =~= f@);
    assert(s.subrange(32, s.len() as int) =~= spec_receipt(r));
    law_receipt_round_trip(r, r);
    if g != f {
        if f@ == g@ {
            assert(f@ =~= g@);
            assert(f =~= g);
        }
    }
}

} // verus!
