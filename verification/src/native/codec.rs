//! Canonical native record encodings and their strict decoders.
use vstd::prelude::*;
use super::{Block, Error, Event, EventView, Head, History, HistoryRecord, IntentRecord, Operation, OperationView, Receipt, MAX_EVENTS, MAX_OPERATION_BYTES, corrupt, invalid};
use crate::wire::{append, bytes_eq, flat, lemma_flat_split, lemma_flat_step, lemma_sub, get_u32_le, get_u64_le, le32, le64, lemma_int_codecs, put_u32_le, put_u64_le, to_array};

verus! {

/// A cursor over one encoded record.
pub struct Reader<'a> {
    bytes: &'a [u8],
    pos: usize,
}

impl<'a> Reader<'a> {
    #[verifier::type_invariant]
    closed spec fn inside(self) -> bool {
        self.pos <= self.bytes@.len()
    }

    /// The record being read.
    pub closed spec fn data(&self) -> Seq<u8> {
        self.bytes@
    }

    /// The position of the next unread byte.
    pub closed spec fn at(&self) -> int {
        self.pos as int
    }

    /// A reader at the start of `bytes`.
    pub fn new(bytes: &'a [u8]) -> (r: Self)
        ensures
            r.data() == bytes@,
            r.at() == 0,
    {
        Reader { bytes, pos: 0 }
    }

    /// The next `n` bytes; an error when fewer remain.
    pub fn take(&mut self, n: usize) -> (r: Result<&'a [u8], Error>)
        ensures
            final(self).data() == old(self).data(),
            old(self).at() <= final(self).at() <= final(self).data().len(),
            old(self).at() + n <= old(self).data().len() ==> {
                &&& r matches Ok(s)
                &&& s@ == old(self).data().subrange(old(self).at(), old(self).at() + n)
                &&& final(self).at() == old(self).at() + n
            },
            old(self).at() + n > old(self).data().len() ==> {
                &&& r matches Err(Error::Corrupt(_))
                &&& final(self).at() == old(self).at()
            },
    {
        proof { use_type_invariant(&*self); }
        if n > self.bytes.len() - self.pos {
            return Err(corrupt("truncated native record"));
        }
        let end = self.pos + n;
        let b = &self.bytes[self.pos..end];
        self.pos = end;
        Ok(b)
    }

    /// Checks that the next bytes are exactly `b`.
    pub fn expect(&mut self, b: &[u8]) -> (r: Result<(), Error>)
        ensures
            final(self).data() == old(self).data(),
            old(self).at() <= final(self).at() <= final(self).data().len(),
            r is Ok <==> (old(self).at() + b@.len() <= old(self).data().len()
                && old(self).data().subrange(old(self).at(), old(self).at() + b@.len()) == b@),
            r is Ok ==> final(self).at() == old(self).at() + b@.len(),
            old(self).at() + b@.len() > old(self).data().len() ==> final(self).at() == old(self).at(),
            old(self).at() + b@.len() <= old(self).data().len() ==> final(self).at() == old(self).at() + b@.len(),
            r matches Err(e) ==> e matches Error::Corrupt(_),
    {
        let got = self.take(b.len())?;
        if !bytes_eq(got, b) {
            return Err(corrupt("record version"));
        }
        Ok(())
    }

    /// The next `N` bytes as an array.
    pub fn array<const N: usize>(&mut self) -> (r: Result<[u8; N], Error>)
        ensures
            final(self).data() == old(self).data(),
            old(self).at() <= final(self).at() <= final(self).data().len(),
            r is Ok <==> old(self).at() + N <= old(self).data().len(),
            r matches Ok(a) ==> a@ == old(self).data().subrange(old(self).at(), old(self).at() + N)
                && final(self).at() == old(self).at() + N,
            r is Err ==> final(self).at() == old(self).at(),
            r matches Err(e) ==> e matches Error::Corrupt(_),
    {
        let s = self.take(N)?;
        match to_array(s) {
            Some(a) => Ok(a),
            None => Err(corrupt("array")),
        }
    }

    /// The next byte.
    pub fn byte(&mut self) -> (r: Result<u8, Error>)
        ensures
            final(self).data() == old(self).data(),
            old(self).at() <= final(self).at() <= final(self).data().len(),
            r is Ok <==> old(self).at() + 1 <= old(self).data().len(),
            r matches Ok(x) ==> x == old(self).data()[old(self).at()]
                && final(self).at() == old(self).at() + 1,
            r is Err ==> final(self).at() == old(self).at(),
            r matches Err(e) ==> e matches Error::Corrupt(_),
    {
        let a: [u8; 1] = self.array()?;
        Ok(a[0])
    }

    /// The next eight bytes as a little-endian `u64`.
    pub fn u64(&mut self) -> (r: Result<u64, Error>)
        ensures
            final(self).data() == old(self).data(),
            old(self).at() <= final(self).at() <= final(self).data().len(),
            r is Ok <==> old(self).at() + 8 <= old(self).data().len(),
            r matches Ok(x) ==> le64(x) == old(self).data().subrange(old(self).at(), old(self).at() + 8)
                && final(self).at() == old(self).at() + 8,
            r is Err ==> final(self).at() == old(self).at(),
            r matches Err(e) ==> e matches Error::Corrupt(_),
    {
        let s = self.take(8)?;
        Ok(get_u64_le(s))
    }

    /// The next four bytes as a little-endian `u32`.
    pub fn u32(&mut self) -> (r: Result<u32, Error>)
        ensures
            final(self).data() == old(self).data(),
            old(self).at() <= final(self).at() <= final(self).data().len(),
            r is Ok <==> old(self).at() + 4 <= old(self).data().len(),
            r matches Ok(x) ==> le32(x) == old(self).data().subrange(old(self).at(), old(self).at() + 4)
                && final(self).at() == old(self).at() + 4,
            r is Err ==> final(self).at() == old(self).at(),
            r matches Err(e) ==> e matches Error::Corrupt(_),
    {
        let s = self.take(4)?;
        Ok(get_u32_le(s))
    }

    /// A byte string framed by its little-endian `u32` length, at most `max`
    /// bytes long.
    pub fn bytes(&mut self, max: usize) -> (r: Result<&'a [u8], Error>)
        ensures
            final(self).data() == old(self).data(),
            old(self).at() <= final(self).at() <= final(self).data().len(),
            r is Ok <==> exists|n: u32| {
                &&& old(self).at() + 4 + n <= old(self).data().len()
                &&& le32(n) == old(self).data().subrange(old(self).at(), old(self).at() + 4)
                &&& n <= max
            },
            r matches Ok(s) ==> {
                &&& s@.len() <= u32::MAX
                &&& le32(s@.len() as u32) == old(self).data().subrange(old(self).at(), old(self).at() + 4)
                &&& s@.len() <= max
                &&& s@ == old(self).data().subrange(old(self).at() + 4, old(self).at() + 4 + s@.len())
                &&& final(self).at() == old(self).at() + 4 + s@.len()
            },
            old(self).at() + 4 > old(self).data().len() ==> final(self).at() == old(self).at(),
            forall|n: u32| old(self).at() + 4 <= old(self).data().len() && #[trigger] le32(n) == old(self).data().subrange(old(self).at(), old(self).at() + 4)
                && n > max ==> (r matches Err(Error::Corrupt(m)) && m@ == "record limit"@),
            r is Err && old(self).at() + 4 <= old(self).data().len() ==> final(self).at() == old(self).at() + 4,
            r matches Err(e) ==> e matches Error::Corrupt(_),
    {
        proof { lemma_int_codecs(); }
        let ghost start = self.at();
        let n = self.u32()?;
        if n as usize > max {
            return Err(corrupt("record limit"));
        }
        let s = self.take(n as usize)?;
        Ok(s)
    }

    /// Checks that every byte was read.
    pub fn end(&self) -> (r: Result<(), Error>)
        ensures
            r is Ok <==> self.at() == self.data().len(),
            r matches Err(e) ==> e matches Error::Corrupt(m) && m@ == "trailing native record bytes"@,
    {
        if self.pos != self.bytes.len() {
            return Err(corrupt("trailing native record bytes"));
        }
        Ok(())
    }
}

} // verus!

verus! {

/// `"CGR\x01"`, the receipt record version.
pub open spec fn receipt_magic() -> Seq<u8> {
    seq![67u8, 71u8, 82u8, 1u8]
}

/// `"CGH\x01"`, the head record version.
pub open spec fn head_magic() -> Seq<u8> {
    seq![67u8, 71u8, 72u8, 1u8]
}

/// `"CGB\x01"`, the block record version.
pub open spec fn block_magic() -> Seq<u8> {
    seq![67u8, 71u8, 66u8, 1u8]
}

/// The encoding of an optional `u64`: a zero byte, or a one byte and the value.
pub open spec fn spec_option_u64(v: Option<u64>) -> Seq<u8> {
    match v {
        None => seq![0u8],
        Some(x) => seq![1u8] + le64(x),
    }
}

/// The canonical bytes of a receipt.
pub open spec fn spec_receipt(r: Receipt) -> Seq<u8> {
    receipt_magic() + r.request_id@ + le64(r.position) + le64(r.height) + r.root@ + le64(r.signals)
        + spec_option_u64(r.balance) + le64(r.supply) + le64(r.weight) + le64(r.timestamp)
        + le64(r.applied)
}

/// Bytes that are the encoding of some receipt.
pub open spec fn is_receipt(b: Seq<u8>) -> bool {
    exists|v: Receipt| spec_receipt(v) == b
}

/// The canonical bytes of a coordinator head.
pub open spec fn spec_head(h: Head) -> Seq<u8> {
    head_magic() + le64(h.position) + le64(h.signals) + le64(h.wire_end)
        + seq![if h.wire_blocked { 1u8 } else { 0u8 }] + h.history_hash@
}

/// Bytes that are the encoding of some head.
pub open spec fn is_head(b: Seq<u8>) -> bool {
    exists|v: Head| spec_head(v) == b
}

/// The canonical bytes of an intent record.
pub open spec fn spec_intent(i: IntentRecord) -> Seq<u8> {
    i.neuron@ + le64(i.h0) + i.scope_hash@ + i.signature@
}

/// A byte string framed by its little-endian `u32` length.
pub open spec fn framed(b: Seq<u8>) -> Seq<u8> {
    le32(b.len() as u32) + b
}

/// The canonical bytes of a block.
pub open spec fn spec_block(b: Block) -> Seq<u8> {
    block_magic() + le64(b.height) + le64(b.timestamp) + le64(b.supply) + le64(b.weight) + b.root@
        + framed(b.signal@)
}

/// Bytes that are the encoding of some block whose signal fits one operation.
pub open spec fn is_block(b: Seq<u8>) -> bool {
    exists|v: Block| spec_block(v) == b && v.signal@.len() <= MAX_OPERATION_BYTES
}

pub proof fn lemma_receipt_layout(v: Receipt)
    ensures
        spec_receipt(v).len() == if v.balance is Some { 133int } else { 125int },
        spec_receipt(v).subrange(0, 4) == receipt_magic(),
        spec_receipt(v)[92] == if v.balance is Some { 1u8 } else { 0u8 },
{
    lemma_int_codecs();
    let e = spec_receipt(v);
    assert(e.subrange(0, 4) =~= receipt_magic());
}

proof fn lemma_head_layout(v: Head)
    ensures
        spec_head(v).len() == 61,
        spec_head(v).subrange(0, 4) == head_magic(),
        spec_head(v)[28] == if v.wire_blocked { 1u8 } else { 0u8 },
{
    lemma_int_codecs();
    assert(spec_head(v).subrange(0, 4) =~= head_magic());
}

proof fn lemma_block_layout(v: Block)
    requires
        v.signal@.len() <= MAX_OPERATION_BYTES,
    ensures
        spec_block(v).len() == 72 + v.signal@.len(),
        spec_block(v).subrange(0, 4) == block_magic(),
        spec_block(v).subrange(68, 72) == le32(v.signal@.len() as u32),
{
    lemma_int_codecs();
    assert(le32(v.signal@.len() as u32).len() == 4);
    assert(framed(v.signal@).len() == 4 + v.signal@.len());
    assert(v.root@.len() == 32);
    assert(le64(v.height).len() == 8 && le64(v.timestamp).len() == 8);
    assert(le64(v.supply).len() == 8 && le64(v.weight).len() == 8);
    assert(spec_block(v).subrange(0, 4) =~= block_magic());
    assert(spec_block(v).subrange(68, 72) =~= le32(v.signal@.len() as u32));
}

fn put_magic(out: &mut Vec<u8>, a: u8, b: u8, c: u8)
    ensures
        final(out)@ == old(out)@ + seq![67u8, 71u8, a, b],
{
    out.push(67u8);
    out.push(71u8);
    out.push(a);
    out.push(b);
    assert(out@ =~= old(out)@ + seq![67u8, 71u8, a, b]);
    let _ = c;
}

fn magic(a: u8, b: u8) -> (m: [u8; 4])
    ensures
        m@ == seq![67u8, 71u8, a, b],
{
    let m: [u8; 4] = [67u8, 71u8, a, b];
    assert(m@ =~= seq![67u8, 71u8, a, b]);
    m
}

/// The canonical bytes of a receipt.
pub fn receipt(r: &Receipt) -> (out: Vec<u8>)
    ensures
        out@ == spec_receipt(*r),
{
    let mut b = Vec::new();
    put_magic(&mut b, 82, 1, 0);
    append(&mut b, &r.request_id);
    put_u64_le(&mut b, r.position);
    put_u64_le(&mut b, r.height);
    append(&mut b, &r.root);
    put_u64_le(&mut b, r.signals);
    match r.balance {
        None => b.push(0),
        Some(v) => {
            b.push(1);
            put_u64_le(&mut b, v);
        },
    }
    put_u64_le(&mut b, r.supply);
    put_u64_le(&mut b, r.weight);
    put_u64_le(&mut b, r.timestamp);
    put_u64_le(&mut b, r.applied);
    assert(b@ =~= spec_receipt(*r));
    b
}

/// Decodes a receipt, rejecting other versions and trailing bytes.
pub fn decode_receipt(bytes: &[u8]) -> (r: Result<Receipt, Error>)
    ensures
        r is Ok <==> is_receipt(bytes@),
        r matches Ok(v) ==> spec_receipt(v) == bytes@,
        r matches Err(e) ==> e matches Error::Corrupt(_),
{
    let ghost t = choose|v: Receipt| spec_receipt(v) == bytes@;
    proof {
        lemma_int_codecs();
        lemma_receipt_layout(t);
    }
    let mut r = Reader::new(bytes);
    r.expect(&magic(82, 1))?;
    let request_id: [u8; 32] = r.array()?;
    let position = r.u64()?;
    let height = r.u64()?;
    let root: [u8; 32] = r.array()?;
    let signals = r.u64()?;
    let tag = r.byte()?;
    let balance = if tag == 0 {
        None
    } else if tag == 1 {
        Some(r.u64()?)
    } else {
        return Err(corrupt("receipt option"));
    };
    let supply = r.u64()?;
    let weight = r.u64()?;
    let timestamp = r.u64()?;
    let applied = r.u64()?;
    r.end()?;
    let value = Receipt {
        request_id,
        position,
        height,
        root,
        signals,
        balance,
        supply,
        weight,
        timestamp,
        applied,
    };
    assert(bytes@ =~= spec_receipt(value));
    Ok(value)
}

/// The canonical bytes of a coordinator head.
pub fn head(h: &Head) -> (out: Vec<u8>)
    ensures
        out@ == spec_head(*h),
{
    let mut b = Vec::new();
    put_magic(&mut b, 72, 1, 0);
    put_u64_le(&mut b, h.position);
    put_u64_le(&mut b, h.signals);
    put_u64_le(&mut b, h.wire_end);
    b.push(if h.wire_blocked { 1u8 } else { 0u8 });
    append(&mut b, &h.history_hash);
    assert(b@ =~= spec_head(*h));
    b
}

/// Decodes a coordinator head, rejecting other versions and trailing bytes.
pub fn decode_head(bytes: &[u8]) -> (r: Result<Head, Error>)
    ensures
        r is Ok <==> is_head(bytes@),
        r matches Ok(v) ==> spec_head(v) == bytes@,
        r matches Err(e) ==> e matches Error::Corrupt(_),
{
    let ghost t = choose|v: Head| spec_head(v) == bytes@;
    proof {
        lemma_int_codecs();
        lemma_head_layout(t);
    }
    let mut r = Reader::new(bytes);
    r.expect(&magic(72, 1))?;
    let position = r.u64()?;
    let signals = r.u64()?;
    let wire_end = r.u64()?;
    let flag = r.byte()?;
    let wire_blocked = if flag == 0 {
        false
    } else if flag == 1 {
        true
    } else {
        return Err(corrupt("wire flag"));
    };
    let history_hash: [u8; 32] = r.array()?;
    r.end()?;
    let h = Head { position, signals, wire_end, wire_blocked, history_hash };
    assert(bytes@ =~= spec_head(h));
    Ok(h)
}

/// The canonical bytes of an intent record.
pub fn intent(i: &IntentRecord) -> (out: Vec<u8>)
    ensures
        out@ == spec_intent(*i),
{
    let mut b = Vec::new();
    append(&mut b, &i.neuron);
    put_u64_le(&mut b, i.h0);
    append(&mut b, &i.scope_hash);
    append(&mut b, &i.signature);
    assert(b@ =~= spec_intent(*i));
    b
}

/// Appends a byte string framed by its little-endian `u32` length; an error
/// when the length does not fit.
pub fn bytes_out(out: &mut Vec<u8>, v: &[u8]) -> (r: Result<(), Error>)
    ensures
        r is Ok <==> v@.len() <= u32::MAX,
        r is Ok ==> final(out)@ == old(out)@ + framed(v@),
        r is Err ==> final(out)@ == old(out)@ && r matches Err(Error::Invalid(_)),
{
    if v.len() > 0xffff_ffffusize {
        return Err(invalid("encoding length"));
    }
    put_u32_le(out, v.len() as u32);
    append(out, v);
    assert(final(out)@ =~= old(out)@ + framed(v@));
    Ok(())
}

/// The canonical bytes of a block; an error when its signal length does not
/// fit a `u32`.
pub fn block(b: &Block) -> (r: Result<Vec<u8>, Error>)
    ensures
        r is Ok <==> b.signal@.len() <= u32::MAX,
        r matches Ok(out) ==> out@ == spec_block(*b),
        r matches Err(e) ==> e matches Error::Invalid(_),
{
    let mut bytes = Vec::new();
    put_magic(&mut bytes, 66, 1, 0);
    put_u64_le(&mut bytes, b.height);
    put_u64_le(&mut bytes, b.timestamp);
    put_u64_le(&mut bytes, b.supply);
    put_u64_le(&mut bytes, b.weight);
    append(&mut bytes, &b.root);
    bytes_out(&mut bytes, b.signal.as_slice())?;
    assert(bytes@ =~= spec_block(*b));
    Ok(bytes)
}

/// Decodes a block, rejecting other versions, oversized signals and
/// trailing bytes.
pub fn decode_block(bytes: &[u8]) -> (r: Result<Block, Error>)
    ensures
        r is Ok <==> is_block(bytes@),
        r matches Ok(v) ==> spec_block(v) == bytes@ && v.signal@.len() <= MAX_OPERATION_BYTES,
        r matches Err(e) ==> e matches Error::Corrupt(_),
{
    let ghost found = is_block(bytes@);
    let ghost t = choose|v: Block| spec_block(v) == bytes@ && v.signal@.len() <= MAX_OPERATION_BYTES;
    proof {
        lemma_int_codecs();
        if found {
            lemma_block_layout(t);
        }
    }
    let mut r = Reader::new(bytes);
    r.expect(&magic(66, 1))?;
    let height = r.u64()?;
    let timestamp = r.u64()?;
    let supply = r.u64()?;
    let weight = r.u64()?;
    let root: [u8; 32] = r.array()?;
    let s = r.bytes(MAX_OPERATION_BYTES)?;
    r.end()?;
    let mut signal = Vec::new();
    append(&mut signal, s);
    let b = Block { height, timestamp, supply, weight, root, signal };
    assert(bytes@ =~= spec_block(b));
    Ok(b)
}

} // verus!

verus! {

/// `"CGOP\x01"`, the operation record version.
pub open spec fn op_magic() -> Seq<u8> {
    seq![67u8, 71u8, 79u8, 80u8, 1u8]
}

/// The one-byte kind of an event.
pub open spec fn event_tag(e: EventView) -> u8 {
    match e {
        EventView::Signal(_) => 0,
        EventView::Intent(_) => 1,
        EventView::LocalCredit { .. } => 2,
    }
}

/// The canonical bytes of one event.
pub open spec fn spec_event(e: EventView) -> Seq<u8> {
    match e {
        EventView::Signal(b) => seq![0u8] + framed(b),
        EventView::Intent(i) => seq![1u8] + spec_intent(i),
        EventView::LocalCredit { neuron, token, amount, focus, reason } => seq![2u8] + neuron@
            + token@ + le64(amount) + le64(focus) + reason@,
    }
}

/// The encodings of a sequence of events.
pub open spec fn event_parts(es: Seq<EventView>) -> Seq<Seq<u8>> {
    es.map_values(|e: EventView| spec_event(e))
}

/// The views of a sequence of events.
pub open spec fn views(es: Seq<Event>) -> Seq<EventView> {
    es.map_values(|e: Event| e@)
}

/// The one-byte kind of an operation.
pub open spec fn op_kind(op: OperationView) -> u8 {
    match op {
        OperationView::Link { .. } => 0,
        OperationView::Pay { .. } => 1,
        OperationView::Events(_) => 2,
    }
}

/// The canonical bytes of an operation.
pub open spec fn spec_operation(op: OperationView) -> Seq<u8> {
    op_magic() + match op {
        OperationView::Link { neuron, from, to, token, amount, valence } => seq![0u8] + neuron@
            + from@ + to@ + token@ + le64(amount) + seq![valence as u8],
        OperationView::Pay { from, to, amount } => seq![1u8] + from@ + to@ + le64(amount),
        OperationView::Events(es) => seq![2u8] + le32(es.len() as u32) + flat(event_parts(es)),
    }
}

/// A batch holds between one and `MAX_EVENTS` events.
pub open spec fn count_ok(op: OperationView) -> bool {
    match op {
        OperationView::Events(es) => 1 <= es.len() <= MAX_EVENTS,
        _ => true,
    }
}

/// Bytes that decode to an operation: bounded, and the canonical encoding
/// of an operation with an admissible event count.
pub open spec fn is_operation(b: Seq<u8>) -> bool {
    &&& b.len() <= MAX_OPERATION_BYTES
    &&& exists|op: OperationView| spec_operation(op) == b && count_ok(op)
}

/// The layout of one encoded event.
pub proof fn lemma_event_layout(e: EventView)
    ensures
        spec_event(e).len() >= 1,
        spec_event(e)[0] == event_tag(e),
        e matches EventView::Signal(b) ==> {
            &&& spec_event(e).len() == 5 + b.len()
            &&& spec_event(e).subrange(1, 5) == le32(b.len() as u32)
            &&& spec_event(e).subrange(5, 5 + b.len() as int) == b
        },
        e matches EventView::Intent(i) ==> {
            &&& spec_event(e).len() == 137
            &&& spec_event(e).subrange(1, 33) == i.neuron@
            &&& spec_event(e).subrange(33, 41) == le64(i.h0)
            &&& spec_event(e).subrange(41, 73) == i.scope_hash@
            &&& spec_event(e).subrange(73, 137) == i.signature@
        },
        e matches EventView::LocalCredit { neuron, token, amount, focus, reason } ==> {
            &&& spec_event(e).len() == 113
            &&& spec_event(e).subrange(1, 33) == neuron@
            &&& spec_event(e).subrange(33, 65) == token@
            &&& spec_event(e).subrange(65, 73) == le64(amount)
            &&& spec_event(e).subrange(73, 81) == le64(focus)
            &&& spec_event(e).subrange(81, 113) == reason@
        },
{
    lemma_int_codecs();
    let s = spec_event(e);
    match e {
        EventView::Signal(b) => {
            assert(le32(b.len() as u32).len() == 4);
            assert(s.subrange(1, 5) =~= le32(b.len() as u32));
            assert(s.subrange(5, 5 + b.len() as int) =~= b);
        },
        EventView::Intent(i) => {
            assert(le64(i.h0).len() == 8);
            assert(s.subrange(1, 33) =~= i.neuron@);
            assert(s.subrange(33, 41) =~= le64(i.h0));
            assert(s.subrange(41, 73) =~= i.scope_hash@);
            assert(s.subrange(73, 137) =~= i.signature@);
        },
        EventView::LocalCredit { neuron, token, amount, focus, reason } => {
            assert(le64(amount).len() == 8 && le64(focus).len() == 8);
            assert(s.subrange(1, 33) =~= neuron@);
            assert(s.subrange(33, 65) =~= token@);
            assert(s.subrange(65, 73) =~= le64(amount));
            assert(s.subrange(73, 81) =~= le64(focus));
            assert(s.subrange(81, 113) =~= reason@);
        },
    }
}

/// The layout of one encoded operation.
pub proof fn lemma_operation_layout(op: OperationView)
    ensures
        spec_operation(op).len() >= 6,
        spec_operation(op).subrange(0, 5) == op_magic(),
        spec_operation(op)[5] == op_kind(op),
        op matches OperationView::Link { .. } ==> spec_operation(op).len() == 143,
        op matches OperationView::Pay { .. } ==> spec_operation(op).len() == 78,
        op matches OperationView::Events(es) ==> {
            &&& spec_operation(op).len() == 10 + flat(event_parts(es)).len()
            &&& spec_operation(op).subrange(6, 10) == le32(es.len() as u32)
            &&& spec_operation(op).subrange(10, spec_operation(op).len() as int)
                == flat(event_parts(es))
        },
{
    lemma_int_codecs();
    let s = spec_operation(op);
    assert(s.subrange(0, 5) =~= op_magic());
    match op {
        OperationView::Link { amount, .. } => {
            assert(le64(amount).len() == 8);
        },
        OperationView::Pay { amount, .. } => {
            assert(le64(amount).len() == 8);
        },
        OperationView::Events(es) => {
            assert(le32(es.len() as u32).len() == 4);
            assert(s.subrange(6, 10) =~= le32(es.len() as u32));
            assert(s.subrange(10, s.len() as int) =~= flat(event_parts(es)));
        },
    }
}

} // verus!

verus! {

/// The events' encodings, up to any index, are a prefix of all of them.
proof fn lemma_parts_prefix(es: Seq<EventView>, i: int)
    requires
        0 <= i <= es.len(),
    ensures
        flat(event_parts(es)).len() >= flat(event_parts(es.take(i))).len(),
        event_parts(es).take(i) == event_parts(es.take(i)),
{
    assert(event_parts(es).take(i) =~= event_parts(es.take(i)));
    lemma_flat_split(event_parts(es), i);
}

fn put_event(out: &mut Vec<u8>, e: &Event) -> (r: Result<(), Error>)
    ensures
        r is Ok <==> (e matches Event::Signal(s) ==> s@.len() <= u32::MAX),
        r is Ok ==> final(out)@ == old(out)@ + spec_event(e@),
        r matches Err(err) ==> err matches Error::Invalid(_),
{
    match e {
        Event::Signal(s) => {
            out.push(0);
            bytes_out(out, s.as_slice())?;
        },
        Event::Intent(i) => {
            out.push(1);
            let b = intent(i);
            append(out, b.as_slice());
        },
        Event::LocalCredit { neuron, token, amount, focus, reason } => {
            out.push(2);
            append(out, neuron);
            append(out, token);
            put_u64_le(out, *amount);
            put_u64_le(out, *focus);
            append(out, reason);
        },
    }
    assert(final(out)@ =~= old(out)@ + spec_event(e@));
    Ok(())
}

/// Canonical command bytes of an operation; rejects a batch whose event
/// count is outside `1..=MAX_EVENTS` or whose encoding exceeds
/// `MAX_OPERATION_BYTES`.
pub fn operation(op: &Operation) -> (r: Result<Vec<u8>, Error>)
    ensures
        r is Ok <==> count_ok(op@) && spec_operation(op@).len() <= MAX_OPERATION_BYTES,
        r matches Ok(out) ==> out@ == spec_operation(op@),
        r matches Err(e) ==> e matches Error::Invalid(_),
{
    proof { lemma_operation_layout(op@); }
    let mut out = Vec::new();
    out.push(67u8);
    out.push(71u8);
    out.push(79u8);
    out.push(80u8);
    out.push(1u8);
    assert(out@ =~= op_magic());
    match op {
        Operation::Link { neuron, from, to, token, amount, valence } => {
            out.push(0);
            append(&mut out, neuron);
            append(&mut out, from);
            append(&mut out, to);
            append(&mut out, token);
            put_u64_le(&mut out, *amount);
            out.push(*valence as u8);
        },
        Operation::Pay { from, to, amount } => {
            out.push(1);
            append(&mut out, from);
            append(&mut out, to);
            put_u64_le(&mut out, *amount);
        },
        Operation::Events(events) => {
            let n = events.len();
            if n == 0 || n > MAX_EVENTS {
                return Err(invalid("event count"));
            }
            out.push(2);
            put_u32_le(&mut out, n as u32);
            let ghost es = views(events@);
            let ghost head = op_magic() + seq![2u8] + le32(n as u32);
            assert(out@ =~= head);
            proof {
                lemma_flat_split(event_parts(es), 0);
                assert(event_parts(es).take(0) =~= event_parts(es.take(0)));
            }
            let mut i: usize = 0;
            while i < n
                invariant
                    i <= n,
                    n == events@.len(),
                    1 <= n <= MAX_EVENTS,
                    es == views(events@),
                    op@ == OperationView::Events(es),
                    head == op_magic() + seq![2u8] + le32(n as u32),
                    out@ == head + flat(event_parts(es.take(i as int))),
                    out@.len() <= MAX_OPERATION_BYTES,
                decreases n - i,
            {
                let ghost before = out@;
                let e = &events[i];
                proof {
                    lemma_flat_step(event_parts(es), i as int);
                    assert(event_parts(es).take(i as int) =~= event_parts(es.take(i as int)));
                    assert(event_parts(es).take(i as int + 1) =~= event_parts(es.take(i as int + 1)));
                    lemma_parts_prefix(es, i as int + 1);
                    lemma_event_layout(es[i as int]);
                    assert(es[i as int] == e@);
                }
                let put = put_event(&mut out, e);
                if put.is_err() {
                    proof {
                        lemma_int_codecs();
                    }
                    return Err(invalid("encoding length"));
                }
                assert(out@ =~= head + flat(event_parts(es.take(i as int + 1))));
                if out.len() > MAX_OPERATION_BYTES {
                    return Err(invalid("operation byte limit"));
                }
                i = i + 1;
            }
            proof {
                lemma_flat_split(event_parts(es), n as int);
                assert(es.take(n as int) =~= es);
            }
        },
    }
    assert(out@ =~= spec_operation(op@));
    Ok(out)
}

} // verus!

verus! {

fn read_event(r: &mut Reader, Ghost(want): Ghost<Option<EventView>>) -> (res: Result<Event, Error>)
    requires
        old(r).data().len() <= MAX_OPERATION_BYTES,
        want matches Some(w) ==> {
            &&& old(r).at() + spec_event(w).len() <= old(r).data().len()
            &&& old(r).data().subrange(old(r).at(), old(r).at() + spec_event(w).len()) == spec_event(w)
        },
    ensures
        final(r).data() == old(r).data(),
        old(r).at() <= final(r).at() <= final(r).data().len(),
        res matches Ok(e) ==> final(r).data().subrange(old(r).at(), final(r).at()) == spec_event(e@),
        want matches Some(w) ==> res matches Ok(e) && e@ == w,
        res matches Err(e) ==> e matches Error::Corrupt(_),
{
    let ghost d = r.data();
    let ghost at0 = r.at();
    proof {
        lemma_int_codecs();
        if let Some(w) = want {
            lemma_event_layout(w);
            assert(d[at0] == spec_event(w)[0]);
        }
    }
    let tag = r.byte()?;
    if tag == 0 {
        proof {
            if let Some(w) = want {
                if let EventView::Signal(b) = w {
                    lemma_sub(d, at0, at0 + 5 + b.len(), 1, 5);
                    assert(b.len() <= MAX_OPERATION_BYTES);
                    assert(le32(b.len() as u32) == d.subrange(at0 + 1, at0 + 5));
                }
            }
        }
        let s = r.bytes(MAX_OPERATION_BYTES)?;
        let mut b = Vec::new();
        append(&mut b, s);
        let e = Event::Signal(b);
        proof {
            assert(d.subrange(at0, r.at()) =~= spec_event(e@));
            if let Some(w) = want {
                if let EventView::Signal(wb) = w {
                    lemma_sub(d, at0, at0 + 5 + wb.len(), 1, 5);
                    assert(s@.len() as u32 == wb.len() as u32);
                    lemma_sub(d, at0, at0 + 5 + wb.len(), 5, 5 + wb.len() as int);
                    assert(s@ =~= wb);
                }
            }
        }
        Ok(e)
    } else if tag == 1 {
        let neuron: [u8; 32] = r.array()?;
        let h0 = r.u64()?;
        let scope_hash: [u8; 32] = r.array()?;
        let signature: [u8; 64] = r.array()?;
        let e = Event::Intent(IntentRecord { neuron, h0, scope_hash, signature });
        proof {
            assert(d.subrange(at0, r.at()) =~= spec_event(e@));
            if let Some(w) = want {
                if let EventView::Intent(i) = w {
                    lemma_sub(d, at0, at0 + 137, 1, 33);
                    lemma_sub(d, at0, at0 + 137, 33, 41);
                    lemma_sub(d, at0, at0 + 137, 41, 73);
                    lemma_sub(d, at0, at0 + 137, 73, 137);
                    assert(neuron@ =~= i.neuron@);
                    assert(scope_hash@ =~= i.scope_hash@);
                    assert(signature@ =~= i.signature@);
                    assert(neuron == i.neuron);
                    assert(scope_hash == i.scope_hash);
                    assert(signature == i.signature);
                }
            }
        }
        Ok(e)
    } else if tag == 2 {
        let neuron: [u8; 32] = r.array()?;
        let token: [u8; 32] = r.array()?;
        let amount = r.u64()?;
        let focus = r.u64()?;
        let reason: [u8; 32] = r.array()?;
        let e = Event::LocalCredit { neuron, token, amount, focus, reason };
        proof {
            assert(d.subrange(at0, r.at()) =~= spec_event(e@));
            if let Some(w) = want {
                if let EventView::LocalCredit { neuron: wn, token: wt, amount: wa, focus: wf, reason: wr } = w {
                    lemma_sub(d, at0, at0 + 113, 1, 33);
                    lemma_sub(d, at0, at0 + 113, 33, 65);
                    lemma_sub(d, at0, at0 + 113, 65, 73);
                    lemma_sub(d, at0, at0 + 113, 73, 81);
                    lemma_sub(d, at0, at0 + 113, 81, 113);
                    assert(neuron@ =~= wn@);
                    assert(token@ =~= wt@);
                    assert(reason@ =~= wr@);
                    assert(neuron == wn);
                    assert(token == wt);
                    assert(reason == wr);
                }
            }
        }
        Ok(e)
    } else {
        Err(corrupt("event kind"))
    }
}


fn read_events(r: &mut Reader, n: u32, Ghost(want): Ghost<Option<Seq<EventView>>>) -> (res: Result<Vec<Event>, Error>)
    requires
        old(r).data().len() <= MAX_OPERATION_BYTES,
        old(r).at() <= old(r).data().len(),
        1 <= n <= MAX_EVENTS,
        want matches Some(tes) ==> {
            &&& tes.len() == n
            &&& old(r).data().subrange(old(r).at(), old(r).data().len() as int) == flat(event_parts(tes))
        },
    ensures
        final(r).data() == old(r).data(),
        old(r).at() <= final(r).at() <= final(r).data().len(),
        res matches Ok(events) ==> {
            &&& events@.len() == n
            &&& final(r).data().subrange(old(r).at(), final(r).at()) == flat(event_parts(views(events@)))
        },
        want matches Some(tes) ==> res matches Ok(events) && views(events@) == tes
            && final(r).at() == final(r).data().len(),
        res matches Err(e) ==> e matches Error::Corrupt(_),
{
    let ghost bytes = r.data();
    let ghost start = r.at();
    let ghost found = want is Some;
    let ghost tes = match want { Some(t) => t, None => Seq::empty() };
    proof {
        lemma_flat_split(event_parts(views(Seq::<Event>::empty())), 0);
        assert(bytes.subrange(start, start) =~= Seq::<u8>::empty());
        assert(event_parts(views(Seq::<Event>::empty())) =~= Seq::<Seq<u8>>::empty());
        if found {
            assert(event_parts(tes).skip(0) =~= event_parts(tes));
            assert(views(Seq::<Event>::empty()) =~= tes.take(0));
        }
    }
    let mut events: Vec<Event> = Vec::new();
    let mut i: u32 = 0;
    while i < n
        invariant
            r.data() == bytes,
            bytes == old(r).data(),
            start == old(r).at(),
            bytes.len() <= MAX_OPERATION_BYTES,
            start <= r.at() <= bytes.len(),
            1 <= n <= MAX_EVENTS,
            i <= n,
            events@.len() == i,
            found == want is Some,
            found ==> want == Some(tes),
            bytes.subrange(start, r.at()) == flat(event_parts(views(events@))),
            found ==> {
                &&& tes.len() == n
                &&& views(events@) == tes.take(i as int)
                &&& bytes.subrange(r.at(), bytes.len() as int) == flat(event_parts(tes).skip(i as int))
            },
        decreases n - i,
    {
        let ghost at0 = r.at();
        let ghost want1: Option<EventView> = if found { Some(tes[i as int]) } else { None };
        proof {
            if found {
                lemma_flat_step(event_parts(tes), i as int);
                let part = spec_event(tes[i as int]);
                assert(event_parts(tes)[i as int] == part);
                lemma_sub(bytes, at0, bytes.len() as int, 0, part.len() as int);
                assert(bytes.subrange(at0, bytes.len() as int).subrange(0, part.len() as int) =~= part);
            }
        }
        let e = read_event(r, Ghost(want1))?;
        proof {
            let ev = e@;
            lemma_flat_step(event_parts(views(events@.push(e))), i as int);
            assert(views(events@.push(e)) =~= views(events@).push(ev));
            assert(event_parts(views(events@.push(e))).take(i as int) =~= event_parts(views(events@)));
            assert(event_parts(views(events@.push(e))).take(i as int + 1) =~= event_parts(views(events@.push(e))));
            assert(bytes.subrange(start, r.at()) =~= bytes.subrange(start, at0) + bytes.subrange(at0, r.at()));
            if found {
                assert(ev == tes[i as int]);
                assert(views(events@.push(e)) =~= tes.take(i as int + 1));
                let part = spec_event(tes[i as int]);
                assert(bytes.subrange(r.at(), bytes.len() as int) =~= bytes.subrange(at0, bytes.len() as int).subrange(part.len() as int, bytes.len() - at0));
            }
        }
        events.push(e);
        i = i + 1;
    }
    proof {
        if found {
            lemma_flat_split(event_parts(tes), n as int);
            assert(tes.take(n as int) =~= tes);
        }
    }
    Ok(events)
}

/// Decodes one bounded command, rejecting unknown versions and kinds, event
/// counts outside `1..=MAX_EVENTS` and trailing bytes.
#[verifier::rlimit(40)]
pub fn decode_operation(bytes: &[u8]) -> (res: Result<Operation, Error>)
    ensures
        res is Ok <==> is_operation(bytes@),
        res matches Ok(op) ==> spec_operation(op@) == bytes@ && count_ok(op@),
        res matches Err(e) ==> e matches Error::Corrupt(_),
{
    if bytes.len() > MAX_OPERATION_BYTES {
        return Err(corrupt("operation byte limit"));
    }
    let ghost found = is_operation(bytes@);
    let ghost t = choose|op: OperationView| spec_operation(op) == bytes@ && count_ok(op);
    proof {
        lemma_int_codecs();
        if found {
            lemma_operation_layout(t);
        }
    }
    let mut r = Reader::new(bytes);
    let m: [u8; 5] = [67u8, 71u8, 79u8, 80u8, 1u8];
    assert(m@ =~= op_magic());
    r.expect(&m)?;
    let kind = r.byte()?;
    let result = if kind == 0 {
        let neuron: [u8; 32] = r.array()?;
        let from: [u8; 32] = r.array()?;
        let to: [u8; 32] = r.array()?;
        let token: [u8; 32] = r.array()?;
        let amount = r.u64()?;
        let v = r.byte()?;
        proof {
            assert((v as i8) as u8 == v) by (bit_vector);
        }
        Operation::Link { neuron, from, to, token, amount, valence: v as i8 }
    } else if kind == 1 {
        let from: [u8; 32] = r.array()?;
        let to: [u8; 32] = r.array()?;
        let amount = r.u64()?;
        Operation::Pay { from, to, amount }
    } else if kind == 2 {
        let n = r.u32()?;
        if n == 0 || n as usize > MAX_EVENTS {
            return Err(corrupt("event count"));
        }
        let ghost tes: Seq<EventView> = match t {
            OperationView::Events(es) => es,
            _ => Seq::empty(),
        };
        proof {
            if found {
                assert(t matches OperationView::Events(_));
                assert(le32(tes.len() as u32) == le32(n));
                assert(tes.len() as u32 == n);
            }
        }
        let want: Ghost<Option<Seq<EventView>>> = Ghost(if found { Some(tes) } else { None });
        let events = read_events(&mut r, n, want)?;
        Operation::Events(events)
    } else {
        return Err(corrupt("operation kind"));
    };
    r.end()?;
    proof {
        assert(bytes@.subrange(0, r.at()) =~= bytes@);
        match result@ {
            OperationView::Events(es) => {
                assert(bytes@ =~= spec_operation(result@));
            },
            _ => {
                assert(bytes@ =~= spec_operation(result@));
            },
        }
    }
    Ok(result)
}

} // verus!

verus! {

/// `"CGJ\x01"`, the history record version.
pub open spec fn history_magic() -> Seq<u8> {
    seq![67u8, 71u8, 74u8, 1u8]
}

/// The framed encodings of a sequence of byte strings.
pub open spec fn frame_parts(fs: Seq<Seq<u8>>) -> Seq<Seq<u8>> {
    fs.map_values(|f: Seq<u8>| framed(f))
}

/// The encoding of the optional legacy wire frames.
pub open spec fn spec_wire(w: Option<Seq<Seq<u8>>>) -> Seq<u8> {
    match w {
        None => seq![0u8],
        Some(fs) => seq![1u8] + le32(fs.len() as u32) + flat(frame_parts(fs)),
    }
}

/// The canonical bytes of a history entry.
pub open spec fn spec_history(h: HistoryRecord) -> Seq<u8> {
    history_magic() + h.fingerprint@ + framed(spec_receipt(h.receipt)) + framed(h.command)
        + spec_wire(h.original_wire)
}

/// The bounds a decoded history entry keeps: a bounded command and at most
/// `MAX_EVENTS` bounded frames.
pub open spec fn history_ok(h: HistoryRecord) -> bool {
    &&& h.command.len() <= MAX_OPERATION_BYTES
    &&& h.original_wire matches Some(fs) ==> {
        &&& fs.len() <= MAX_EVENTS
        &&& forall|i: int| 0 <= i < fs.len() ==> #[trigger] fs[i].len() <= MAX_OPERATION_BYTES
    }
}

/// Bytes that decode to a history entry.
pub open spec fn is_history(b: Seq<u8>) -> bool {
    exists|h: HistoryRecord| spec_history(h) == b && history_ok(h)
}

fn read_frames(r: &mut Reader, n: u32, Ghost(want): Ghost<Option<Seq<Seq<u8>>>>) -> (res: Result<Vec<Vec<u8>>, Error>)
    requires
        old(r).at() <= old(r).data().len(),
        n <= MAX_EVENTS,
        want matches Some(fs) ==> {
            &&& fs.len() == n
            &&& forall|i: int| 0 <= i < fs.len() ==> #[trigger] fs[i].len() <= MAX_OPERATION_BYTES
            &&& old(r).data().subrange(old(r).at(), old(r).data().len() as int) == flat(frame_parts(fs))
        },
    ensures
        final(r).data() == old(r).data(),
        old(r).at() <= final(r).at() <= final(r).data().len(),
        res matches Ok(frames) ==> {
            &&& frames@.len() == n
            &&& forall|i: int| 0 <= i < n ==> #[trigger] frames@[i]@.len() <= MAX_OPERATION_BYTES
            &&& final(r).data().subrange(old(r).at(), final(r).at())
                == flat(frame_parts(frames@.map_values(|f: Vec<u8>| f@)))
        },
        want matches Some(fs) ==> res matches Ok(frames) && frames@.map_values(|f: Vec<u8>| f@) == fs
            && final(r).at() == final(r).data().len(),
        res matches Err(e) ==> e matches Error::Corrupt(_),
{
    let ghost bytes = r.data();
    let ghost start = r.at();
    let ghost found = want is Some;
    let ghost fs = match want { Some(t) => t, None => Seq::empty() };
    proof {
        lemma_int_codecs();
        assert(bytes.subrange(start, start) =~= Seq::<u8>::empty());
        assert(frame_parts(Seq::<Vec<u8>>::empty().map_values(|f: Vec<u8>| f@)) =~= Seq::<Seq<u8>>::empty());
        if found {
            assert(frame_parts(fs).skip(0) =~= frame_parts(fs));
            assert(Seq::<Vec<u8>>::empty().map_values(|f: Vec<u8>| f@) =~= fs.take(0));
        }
    }
    let mut frames: Vec<Vec<u8>> = Vec::new();
    let mut i: u32 = 0;
    while i < n
        invariant
            r.data() == bytes,
            bytes == old(r).data(),
            start == old(r).at(),
            start <= r.at() <= bytes.len(),
            n <= MAX_EVENTS,
            i <= n,
            frames@.len() == i,
            found == want is Some,
            found ==> want == Some(fs),
            forall|j: int| 0 <= j < i ==> #[trigger] frames@[j]@.len() <= MAX_OPERATION_BYTES,
            bytes.subrange(start, r.at()) == flat(frame_parts(frames@.map_values(|f: Vec<u8>| f@))),
            found ==> {
                &&& fs.len() == n
                &&& forall|j: int| 0 <= j < fs.len() ==> #[trigger] fs[j].len() <= MAX_OPERATION_BYTES
                &&& frames@.map_values(|f: Vec<u8>| f@) == fs.take(i as int)
                &&& bytes.subrange(r.at(), bytes.len() as int) == flat(frame_parts(fs).skip(i as int))
            },
        decreases n - i,
    {
        let ghost at0 = r.at();
        proof {
            lemma_int_codecs();
            if found {
                lemma_flat_step(frame_parts(fs), i as int);
                let f = fs[i as int];
                let part = framed(f);
                assert(frame_parts(fs)[i as int] == part);
                assert(le32(f.len() as u32).len() == 4);
                lemma_sub(bytes, at0, bytes.len() as int, 0, part.len() as int);
                assert(bytes.subrange(at0, bytes.len() as int).subrange(0, part.len() as int) =~= part);
                lemma_sub(bytes, at0, at0 + part.len(), 0, 4);
                assert(part.subrange(0, 4) =~= le32(f.len() as u32));
                assert(bytes.subrange(at0, at0 + 4) == le32(f.len() as u32));
            }
        }
        let s = r.bytes(MAX_OPERATION_BYTES)?;
        let mut f = Vec::new();
        append(&mut f, s);
        proof {
            lemma_int_codecs();
            let views0 = frames@.map_values(|g: Vec<u8>| g@);
            let views1 = frames@.push(f).map_values(|g: Vec<u8>| g@);
            assert(views1 =~= views0.push(f@));
            lemma_flat_step(frame_parts(views1), i as int);
            assert(frame_parts(views1).take(i as int) =~= frame_parts(views0));
            assert(frame_parts(views1).take(i as int + 1) =~= frame_parts(views1));
            assert(bytes.subrange(start, r.at()) =~= bytes.subrange(start, at0) + bytes.subrange(at0, r.at()));
            assert(bytes.subrange(at0, r.at()) =~= framed(f@));
            if found {
                let g = fs[i as int];
                assert(s@.len() as u32 == g.len() as u32);
                let part = framed(g);
                lemma_sub(bytes, at0, at0 + part.len(), 4, part.len() as int);
                assert(part.subrange(4, part.len() as int) =~= g);
                assert(f@ =~= g);
                assert(views1 =~= fs.take(i as int + 1));
                assert(bytes.subrange(r.at(), bytes.len() as int) =~= bytes.subrange(at0, bytes.len() as int).subrange(part.len() as int, bytes.len() - at0));
            }
        }
        frames.push(f);
        i = i + 1;
    }
    proof {
        if found {
            lemma_flat_split(frame_parts(fs), n as int);
            assert(fs.take(n as int) =~= fs);
        }
    }
    Ok(frames)
}

fn put_frames(out: &mut Vec<u8>, frames: &Vec<Vec<u8>>) -> (r: Result<(), Error>)
    ensures
        r is Ok <==> forall|i: int| 0 <= i < frames@.len() ==> #[trigger] frames@[i]@.len() <= u32::MAX,
        r is Ok ==> final(out)@ == old(out)@ + flat(frame_parts(frames@.map_values(|f: Vec<u8>| f@))),
        r matches Err(e) ==> e matches Error::Invalid(_),
{
    let ghost fs = frames@.map_values(|f: Vec<u8>| f@);
    proof {
        lemma_flat_split(frame_parts(fs), 0);
        assert(frame_parts(fs).take(0) =~= frame_parts(fs.take(0)));
    }
    let mut i: usize = 0;
    while i < frames.len()
        invariant
            i <= frames@.len(),
            fs == frames@.map_values(|f: Vec<u8>| f@),
            forall|j: int| 0 <= j < i ==> #[trigger] frames@[j]@.len() <= u32::MAX,
            out@ == old(out)@ + flat(frame_parts(fs.take(i as int))),
        decreases frames@.len() - i,
    {
        proof {
            lemma_flat_step(frame_parts(fs), i as int);
            assert(frame_parts(fs).take(i as int) =~= frame_parts(fs.take(i as int)));
            assert(frame_parts(fs).take(i as int + 1) =~= frame_parts(fs.take(i as int + 1)));
        }
        bytes_out(out, frames[i].as_slice())?;
        assert(out@ =~= old(out)@ + flat(frame_parts(fs.take(i as int + 1))));
        i = i + 1;
    }
    proof {
        assert(fs.take(frames@.len() as int) =~= fs);
    }
    Ok(())
}

/// The canonical bytes of a history entry; an error when a framed length
/// does not fit a `u32`.
pub fn history(h: &History) -> (r: Result<Vec<u8>, Error>)
    ensures
        r is Ok <==> h.command@.len() <= u32::MAX && (h.original_wire matches Some(frames) ==>
            forall|i: int| 0 <= i < frames@.len() ==> #[trigger] frames@[i]@.len() <= u32::MAX),
        r matches Ok(out) ==> out@ == spec_history(h@),
        r matches Err(e) ==> e matches Error::Invalid(_),
{
    let mut b = Vec::new();
    put_magic(&mut b, 74, 1, 0);
    append(&mut b, &h.fingerprint);
    let rb = receipt(&h.receipt);
    proof {
        lemma_receipt_layout(h.receipt);
    }
    bytes_out(&mut b, rb.as_slice())?;
    bytes_out(&mut b, h.command.as_slice())?;
    let ghost mid = b@;
    match &h.original_wire {
        None => b.push(0),
        Some(frames) => {
            b.push(1);
            put_u32_le(&mut b, frames.len() as u32);
            put_frames(&mut b, frames)?;
        },
    }
    assert(b@ =~= spec_history(h@));
    Ok(b)
}

pub proof fn lemma_history_layout(h: HistoryRecord)
    requires
        history_ok(h),
    ensures
        spec_history(h).len() >= 36 + 4 + (spec_receipt(h.receipt).len() as int) + 4 + (h.command.len() as int) + 1,
        spec_history(h).subrange(0, 4) == history_magic(),
        spec_history(h).subrange(36, 40) == le32((spec_receipt(h.receipt).len() as int) as u32),
        spec_history(h).subrange(40, 40 + (spec_receipt(h.receipt).len() as int)) == spec_receipt(h.receipt),
        ({
            let c = 40 + (spec_receipt(h.receipt).len() as int);
            &&& spec_history(h).subrange(c, c + 4) == le32((h.command.len() as int) as u32)
            &&& spec_history(h).subrange(c + 4, c + 4 + (h.command.len() as int)) == h.command
            &&& spec_history(h).subrange(c + 4 + (h.command.len() as int), spec_history(h).len() as int)
                == spec_wire(h.original_wire)
        }),
{
    lemma_int_codecs();
    lemma_receipt_layout(h.receipt);
    let s = spec_history(h);
    let rl: int = spec_receipt(h.receipt).len() as int;
    let c: int = 40 + rl;
    assert(le32(rl as u32).len() == 4);
    assert(le32((h.command.len() as int) as u32).len() == 4);
    assert(s.subrange(0, 4) =~= history_magic());
    assert(s.subrange(36, 40) =~= le32(rl as u32));
    assert(s.subrange(40, 40 + rl) =~= spec_receipt(h.receipt));
    assert(s.subrange(c, c + 4) =~= le32((h.command.len() as int) as u32));
    assert(s.subrange(c + 4, c + 4 + (h.command.len() as int)) =~= h.command);
    assert(s.subrange(c + 4 + (h.command.len() as int), s.len() as int) =~= spec_wire(h.original_wire));
}

/// Decodes a history entry, rejecting other versions, malformed receipts,
/// oversized commands and frames, more than `MAX_EVENTS` frames and trailing
/// bytes.
#[verifier::rlimit(40)]
pub fn decode_history(bytes: &[u8]) -> (res: Result<History, Error>)
    ensures
        res is Ok <==> is_history(bytes@),
        res matches Ok(h) ==> spec_history(h@) == bytes@ && history_ok(h@),
        res matches Err(e) ==> e matches Error::Corrupt(_),
{
    let ghost found = is_history(bytes@);
    let ghost t = choose|h: HistoryRecord| spec_history(h) == bytes@ && history_ok(h);
    let ghost rl: int = spec_receipt(t.receipt).len() as int;
    proof {
        lemma_int_codecs();
        if found {
            lemma_history_layout(t);
            lemma_receipt_layout(t.receipt);
            assert(le32(rl as u32) == bytes@.subrange(36, 40));
        }
    }
    let mut r = Reader::new(bytes);
    r.expect(&magic(74, 1))?;
    let fingerprint: [u8; 32] = r.array()?;
    let rb = r.bytes(256)?;
    proof {
        if found {
            assert(rb@.len() as u32 == rl as u32);
            assert(rb@ == spec_receipt(t.receipt));
        }
    }
    let receipt = decode_receipt(rb)?;
    let ghost c = r.at();
    proof {
        if found {
            assert(c == 40 + rl);
            assert(le32((t.command.len() as int) as u32) == bytes@.subrange(c, c + 4));
        }
    }
    let cb = r.bytes(MAX_OPERATION_BYTES)?;
    let mut command = Vec::new();
    append(&mut command, cb);
    let ghost w = r.at();
    proof {
        if found {
            assert(cb@.len() as u32 == (t.command.len() as int) as u32);
            assert(command@ =~= t.command);
            assert(w == c + 4 + (t.command.len() as int));
            assert(bytes@.subrange(w, bytes@.len() as int) == spec_wire(t.original_wire));
            assert(bytes@[w] == spec_wire(t.original_wire)[0]);
        }
    }
    let tag = r.byte()?;
    let original_wire = if tag == 0 {
        None
    } else if tag == 1 {
        let n = r.u32()?;
        let ghost want: Option<Seq<Seq<u8>>> = if found { t.original_wire } else { None };
        proof {
            if found {
                let fs = t.original_wire.unwrap();
                let sw = spec_wire(t.original_wire);
                assert(le32(fs.len() as u32).len() == 4);
                lemma_sub(bytes@, w, bytes@.len() as int, 1, 5);
                assert(sw.subrange(1, 5) =~= le32(fs.len() as u32));
                assert(fs.len() as u32 == n);
                lemma_sub(bytes@, w, bytes@.len() as int, 5, bytes@.len() - w);
                assert(sw.subrange(5, sw.len() as int) =~= flat(frame_parts(fs)));
            }
        }
        if n as usize > MAX_EVENTS {
            return Err(corrupt("wire event count"));
        }
        let frames = read_frames(&mut r, n, Ghost(want))?;
        Some(frames)
    } else {
        return Err(corrupt("wire option"));
    };
    r.end()?;
    let h = History { fingerprint, receipt, command, original_wire };
    proof {
        assert(spec_receipt(receipt) == rb@);
        if found {
            assert(fingerprint@ =~= t.fingerprint@);
        }
        assert(bytes@ =~= spec_history(h@));
    }
    Ok(h)
}

} // verus!
