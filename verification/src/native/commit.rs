//! The computations of one commit: request fingerprints and identities,
//! retries, signal and wire counters, the request weight, the stored receipt
//! and the next head.
use vstd::prelude::*;
use vstd::string::StringSliceAdditionalSpecFns;
use crate::content::particle_eq;
use crate::hash::{hemera, hemera_hash};
use crate::wire::{append, flat, lemma_flat_append, le64, put_u64_le};
use crate::Particle;
use super::codec::{block, block_magic, count_ok, decode_receipt, framed, history, is_receipt, operation, receipt, spec_history, spec_operation, spec_receipt, views};
use super::chain::zero32;
use super::economics::{after_events, balance_of, held_in, opening, Balances, Ledger};
use super::{corrupt, invalid, Block, Error, Event, EventView, Head, History, HistoryRecord, Operation, OperationView, Receipt, Signal, SignalView, signal_views, MAX_OPERATION_BYTES};

verus! {

/// The views of byte-string parts.
pub open spec fn part_views(parts: Seq<&[u8]>) -> Seq<Seq<u8>> {
    parts.map_values(|p: &[u8]| p@)
}

/// Each part preceded by its length as a little-endian `u64`.
pub open spec fn length_framed(parts: Seq<Seq<u8>>) -> Seq<Seq<u8>> {
    parts.map_values(|p: Seq<u8>| le64(p.len() as u64) + p)
}

/// A domain-separated digest: Hemera over the domain, then each part
/// preceded by its length.
pub open spec fn digest_of(domain: Seq<u8>, parts: Seq<Seq<u8>>) -> Seq<u8> {
    hemera_hash(domain + flat(length_framed(parts)))
}

/// The domain-separated digest of `parts`.
pub fn digest(domain: &[u8], parts: &[&[u8]]) -> (d: Particle)
    ensures
        d@ == digest_of(domain@, part_views(parts@)),
{
    let ghost ps = part_views(parts@);
    let mut buf: Vec<u8> = Vec::new();
    append(&mut buf, domain);
    let mut i: usize = 0;
    while i < parts.len()
        invariant
            i <= parts@.len(),
            ps == part_views(parts@),
            buf@ == domain@ + flat(length_framed(ps.take(i as int))),
        decreases parts@.len() - i,
    {
        let p: &[u8] = parts[i];
        proof {
            assert(ps[i as int] == p@);
            assert(length_framed(ps.take(i + 1)) =~= length_framed(ps.take(i as int)) + seq![le64(p@.len() as u64) + p@]);
            lemma_flat_append(length_framed(ps.take(i as int)), seq![le64(p@.len() as u64) + p@]);
            assert(flat(seq![le64(p@.len() as u64) + p@]) =~= le64(p@.len() as u64) + p@) by {
                reveal_with_fuel(flat, 2);
                assert(seq![le64(p@.len() as u64) + p@].drop_first() =~= Seq::<Seq<u8>>::empty());
            }
        }
        put_u64_le(&mut buf, p.len() as u64);
        append(&mut buf, p);
        proof {
            assert(buf@ =~= domain@ + flat(length_framed(ps.take(i + 1))));
        }
        i = i + 1;
    }
    proof {
        assert(ps.take(parts@.len() as int) =~= ps);
    }
    hemera(buf.as_slice())
}

/// `cybergraph/native-command/v1` and a zero byte.
pub open spec fn command_domain() -> Seq<u8> {
    "cybergraph/native-command/v1\0".spec_bytes()
}

/// `cybergraph/server-request/v1` and a zero byte.
pub open spec fn server_request_domain() -> Seq<u8> {
    "cybergraph/server-request/v1\0".spec_bytes()
}

/// `cybergraph/native-history/v1` and a zero byte.
pub open spec fn history_domain() -> Seq<u8> {
    "cybergraph/native-history/v1\0".spec_bytes()
}

/// `cybergraph/native-instance/v1` and a zero byte.
pub open spec fn instance_domain() -> Seq<u8> {
    "cybergraph/native-instance/v1\0".spec_bytes()
}

/// The fingerprint of a command at a store instance.
pub open spec fn spec_fingerprint(instance: Particle, command: Seq<u8>) -> Seq<u8> {
    digest_of(command_domain(), seq![instance@, command])
}

/// The fingerprint of a canonical command at a store instance.
pub fn fingerprint(instance: &Particle, command: &[u8]) -> (f: Particle)
    ensures
        f@ == spec_fingerprint(*instance, command@),
{
    let parts: [&[u8]; 2] = [instance.as_slice(), command];
    proof {
        assert(part_views(parts@) =~= seq![instance@, command@]);
    }
    digest("cybergraph/native-command/v1\0".as_bytes(), parts.as_slice())
}

/// The identity of the store instance pinned to a configuration.
pub fn instance(config: &[u8]) -> (i: Particle)
    ensures
        i@ == digest_of(instance_domain(), seq![config@]),
{
    let parts: [&[u8]; 1] = [config];
    proof {
        assert(part_views(parts@) =~= seq![config@]);
    }
    digest("cybergraph/native-instance/v1\0".as_bytes(), parts.as_slice())
}

/// The position a new request takes: one after the head's.
pub fn next_request(head: &Head) -> (r: Result<u64, Error>)
    ensures
        match r {
            Ok(p) => p == head.position + 1,
            Err(e) => head.position == u64::MAX && e is Invalid,
        },
{
    match head.position.checked_add(1) {
        Some(p) => Ok(p),
        None => Err(invalid("history position overflow")),
    }
}

/// The identity a request is filed under: the one it names, else one the
/// server derives from the instance, its position and its fingerprint.
pub fn request_identity(request_id: Option<Particle>, instance: &Particle, position: u64, fingerprint: &Particle) -> (id: Particle)
    ensures
        match request_id {
            Some(r) => id == r,
            None => id@ == digest_of(server_request_domain(), seq![instance@, le64(position), fingerprint@]),
        },
{
    match request_id {
        Some(r) => r,
        None => {
            let mut pos: Vec<u8> = Vec::new();
            put_u64_le(&mut pos, position);
            let parts: [&[u8]; 3] = [instance.as_slice(), pos.as_slice(), fingerprint.as_slice()];
            proof {
                assert(part_views(parts@) =~= seq![instance@, le64(position), fingerprint@]);
            }
            digest("cybergraph/server-request/v1\0".as_bytes(), parts.as_slice())
        },
    }
}

/// The stored form of a receipt: the request fingerprint, then the receipt.
pub open spec fn spec_stored_receipt(fingerprint: Particle, r: Receipt) -> Seq<u8> {
    fingerprint@ + spec_receipt(r)
}

/// The stored form of a receipt.
pub fn stored_receipt(fingerprint: &Particle, r: &Receipt) -> (out: Vec<u8>)
    ensures
        out@ == spec_stored_receipt(*fingerprint, *r),
{
    let mut out: Vec<u8> = Vec::new();
    append(&mut out, fingerprint);
    let body = receipt(r);
    append(&mut out, body.as_slice());
    out
}

/// How a stored receipt answers a retry: a record too short to hold a
/// fingerprint is corrupt; a different fingerprint is a conflict; else the
/// receipt it holds, which must decode and be filed under `id`.
pub open spec fn answers_retry(bytes: Seq<u8>, fingerprint: Particle, id: Particle, r: Result<Receipt, Error>) -> bool {
    &&& bytes.len() < 32 ==> (r matches Err(Error::Corrupt(_)))
    &&& bytes.len() >= 32 && bytes.subrange(0, 32) != fingerprint@ ==> (r matches Err(Error::Conflict))
    &&& bytes.len() >= 32 && bytes.subrange(0, 32) == fingerprint@ ==> match r {
        Ok(v) => spec_receipt(v) == bytes.subrange(32, bytes.len() as int) && v.request_id == id,
        Err(e) => e is Corrupt && (is_receipt(bytes.subrange(32, bytes.len() as int)) ==> (forall|v: Receipt| spec_receipt(v) == bytes.subrange(32, bytes.len() as int) ==> v.request_id != id)),
    }
}

/// Answer a retry from its stored receipt: a different command under the
/// same identity is a conflict; a malformed record or one filed under
/// another identity is corruption.
pub fn check_retry(bytes: &[u8], fingerprint: &Particle, id: &Particle) -> (r: Result<Receipt, Error>)
    ensures
        answers_retry(bytes@, *fingerprint, *id, r),
{
    if bytes.len() < 32 {
        return Err(corrupt("receipt fingerprint"));
    }
    let head = vstd::slice::slice_subrange(bytes, 0, 32);
    if !crate::wire::bytes_eq(head, fingerprint.as_slice()) {
        return Err(Error::Conflict);
    }
    let rest = vstd::slice::slice_subrange(bytes, 32, bytes.len());
    let receipt = decode_receipt(rest)?;
    if !particle_eq(&receipt.request_id, id) {
        proof {
            assert forall|v: Receipt| spec_receipt(v) == rest@ implies v.request_id != *id by {
                super::laws::law_receipt_round_trip(receipt, v);
            }
        }
        return Err(corrupt("receipt identity"));
    }
    Ok(receipt)
}

/// The number of signal events among the first `n` events.
pub open spec fn signal_count(es: Seq<EventView>) -> nat
    decreases es.len(),
{
    if es.len() == 0 {
        0
    } else {
        signal_count(es.drop_last()) + if es.last() is Signal { 1nat } else { 0nat }
    }
}

/// The views of a batch's events.
pub open spec fn event_views(es: Seq<Event>) -> Seq<EventView> {
    es.map_values(|e: Event| e@)
}

/// Number the signals of a batch after `start`: each signal event gets the
/// next position, other events none; fails where the count overflows.
pub fn signal_positions(start: u64, events: &[Event]) -> (r: Result<(Vec<Option<u64>>, u64), Error>)
    ensures
        match r {
            Ok((positions, end)) => {
                &&& end == start + signal_count(event_views(events@))
                &&& positions@.len() == events@.len()
                &&& forall|i: int| 0 <= i < events@.len() ==> #[trigger] positions@[i] == if events@[i] is Signal {
                    Some((start + signal_count(event_views(events@).take(i))) as u64)
                } else {
                    None::<u64>
                }
            },
            Err(e) => start + signal_count(event_views(events@)) > u64::MAX && e is Invalid,
        },
{
    let ghost vs = event_views(events@);
    let mut positions: Vec<Option<u64>> = Vec::new();
    let mut signals: u64 = start;
    let mut i: usize = 0;
    while i < events.len()
        invariant
            i <= events@.len(),
            vs == event_views(events@),
            signals == start + signal_count(vs.take(i as int)),
            positions@.len() == i,
            forall|j: int| 0 <= j < i ==> #[trigger] positions@[j] == if events@[j] is Signal {
                Some((start + signal_count(vs.take(j))) as u64)
            } else {
                None::<u64>
            },
        decreases events@.len() - i,
    {
        proof {
            assert(vs.take(i + 1).drop_last() =~= vs.take(i as int));
            assert(vs[i as int] == events@[i as int]@);
        }
        match &events[i] {
            Event::Signal(_) => {
                positions.push(Some(signals));
                match signals.checked_add(1) {
                    Some(n) => signals = n,
                    None => {
                        proof {
                            lemma_count_grows(vs, i as int + 1);
                        }
                        return Err(invalid("signal count overflow"));
                    },
                }
            },
            _ => {
                positions.push(None);
            },
        }
        i = i + 1;
    }
    proof {
        assert(vs.take(events@.len() as int) =~= vs);
    }
    Ok((positions, signals))
}

proof fn lemma_count_grows(es: Seq<EventView>, j: int)
    requires
        0 <= j <= es.len(),
    ensures
        signal_count(es.take(j)) <= signal_count(es),
    decreases es.len() - j,
{
    if j < es.len() {
        assert(es.take(j + 1).drop_last() =~= es.take(j));
        lemma_count_grows(es, j + 1);
    } else {
        assert(es.take(j) =~= es);
    }
}

/// The sum of the lengths of byte strings.
pub open spec fn total_len(fs: Seq<Seq<u8>>) -> nat
    decreases fs.len(),
{
    if fs.len() == 0 { 0 } else { total_len(fs.drop_last()) + fs.last().len() }
}

proof fn lemma_total_grows(fs: Seq<Seq<u8>>, j: int)
    requires
        0 <= j <= fs.len(),
    ensures
        total_len(fs.take(j)) <= total_len(fs),
    decreases fs.len() - j,
{
    if j < fs.len() {
        assert(fs.take(j + 1).drop_last() =~= fs.take(j));
        lemma_total_grows(fs, j + 1);
    } else {
        assert(fs.take(j) =~= fs);
    }
}

/// The views of a list of byte strings.
pub open spec fn byte_views(fs: Seq<Vec<u8>>) -> Seq<Seq<u8>> {
    fs.map_values(|f: Vec<u8>| f@)
}

/// Lay frames end to end after offset `start`: each frame's offset, and the
/// end; fails where an offset overflows.
pub fn wire_offsets(start: u64, frames: &[Vec<u8>]) -> (r: Result<(Vec<u64>, u64), Error>)
    ensures
        match r {
            Ok((offsets, end)) => {
                &&& end == start + total_len(byte_views(frames@))
                &&& offsets@.len() == frames@.len()
                &&& forall|i: int| 0 <= i < frames@.len() ==> #[trigger] offsets@[i] == start + total_len(byte_views(frames@).take(i))
            },
            Err(e) => start + total_len(byte_views(frames@)) > u64::MAX && e is Invalid,
        },
{
    let ghost fs = byte_views(frames@);
    let mut offsets: Vec<u64> = Vec::new();
    let mut end: u64 = start;
    let mut i: usize = 0;
    while i < frames.len()
        invariant
            i <= frames@.len(),
            fs == byte_views(frames@),
            end == start + total_len(fs.take(i as int)),
            offsets@.len() == i,
            forall|j: int| 0 <= j < i ==> #[trigger] offsets@[j] == start + total_len(fs.take(j)),
        decreases frames@.len() - i,
    {
        proof {
            assert(fs.take(i + 1).drop_last() =~= fs.take(i as int));
            assert(fs[i as int] == frames@[i as int]@);
        }
        offsets.push(end);
        let len: u64 = frames[i].len() as u64;
        match end.checked_add(len) {
            Some(n) => end = n,
            None => {
                proof {
                    lemma_total_grows(fs, i as int + 1);
                }
                return Err(invalid("wire offset overflow"));
            },
        }
        i = i + 1;
    }
    proof {
        assert(fs.take(frames@.len() as int) =~= fs);
    }
    Ok((offsets, end))
}

/// The sum of the weights of a batch's observations.
pub open spec fn total_weight(obs: Seq<(u64, u64)>) -> nat
    decreases obs.len(),
{
    if obs.len() == 0 { 0 } else { total_weight(obs.drop_last()) + obs.last().1 as nat }
}

/// The weight of a request: the sum of its events' weights.
pub fn request_weight(observations: &[(u64, u64)]) -> (r: Result<u64, Error>)
    ensures
        match r {
            Ok(w) => w == total_weight(observations@),
            Err(e) => total_weight(observations@) > u64::MAX && e is Invalid,
        },
{
    let mut w: u64 = 0;
    let mut i: usize = 0;
    while i < observations.len()
        invariant
            i <= observations@.len(),
            w == total_weight(observations@.take(i as int)),
        decreases observations@.len() - i,
    {
        proof {
            assert(observations@.take(i + 1).drop_last() =~= observations@.take(i as int));
        }
        match w.checked_add(observations[i].1) {
            Some(n) => w = n,
            None => {
                proof {
                    lemma_weight_grows(observations@, i as int + 1);
                }
                return Err(invalid("request weight overflow"));
            },
        }
        i = i + 1;
    }
    proof {
        assert(observations@.take(observations@.len() as int) =~= observations@);
    }
    Ok(w)
}

proof fn lemma_weight_grows(obs: Seq<(u64, u64)>, j: int)
    requires
        0 <= j <= obs.len(),
    ensures
        total_weight(obs.take(j)) <= total_weight(obs),
    decreases obs.len() - j,
{
    if j < obs.len() {
        assert(obs.take(j + 1).drop_last() =~= obs.take(j));
        lemma_weight_grows(obs, j + 1);
    } else {
        assert(obs.take(j) =~= obs);
    }
}

/// The head after a request: its position, the signal and wire counters,
/// and the history hash chained over the previous one and the new entry.
pub fn next_head(head: &Head, position: u64, signals: u64, wire_end: u64, wire_blocked: bool, history: &[u8]) -> (h: Head)
    ensures
        h.position == position,
        h.signals == signals,
        h.wire_end == wire_end,
        h.wire_blocked == wire_blocked,
        h.history_hash@ == digest_of(history_domain(), seq![head.history_hash@, history@]),
{
    let parts: [&[u8]; 2] = [head.history_hash.as_slice(), history];
    proof {
        assert(part_views(parts@) =~= seq![head.history_hash@, history@]);
    }
    let history_hash = digest("cybergraph/native-history/v1\0".as_bytes(), parts.as_slice());
    Head { position, signals, wire_end, wire_blocked, history_hash }
}

/// What the state store reports of a prepared batch: the height and root
/// after it, and the height and root after each of its events.
pub struct Batch {
    pub height: u64,
    pub root: Particle,
    pub snapshots: Vec<(u64, Particle)>,
}

/// Everything an accepted request writes: its receipt, the receipt as filed
/// under the request, its history entry, the blocks of its signals by
/// height, the offsets of its wire frames, and the new head.
pub struct Accepted {
    pub receipt: Receipt,
    pub stored: Vec<u8>,
    pub history: Vec<u8>,
    pub blocks: Vec<(u64, Vec<u8>)>,
    pub exports: Vec<u64>,
    pub head: Head,
}

/// The block a batch event yields, by height: a signal event's block
/// carries the snapshot after it, the ledger's observation for it and the
/// signal's bytes; other events yield none.
pub open spec fn block_at(e: EventView, snap: (u64, Particle), obs: (u64, u64), timestamp: u64) -> Option<(u64, Seq<u8>)> {
    match e {
        EventView::Signal(sig) => Some((snap.0, block_magic() + le64(snap.0) + le64(timestamp) + le64(obs.0) + le64(obs.1)
            + snap.1@ + framed(sig))),
        _ => None,
    }
}

/// The blocks of the first `k` events of a batch, in order.
pub open spec fn blocks_of(es: Seq<EventView>, snaps: Seq<(u64, Particle)>, obs: Seq<(u64, u64)>, timestamp: u64, k: nat) -> Seq<(u64, Seq<u8>)>
    decreases k,
{
    if k == 0 {
        Seq::empty()
    } else {
        let rest = blocks_of(es, snaps, obs, timestamp, (k - 1) as nat);
        match block_at(es[k - 1], snaps[k - 1], obs[k - 1], timestamp) {
            Some(b) => rest.push(b),
            None => rest,
        }
    }
}

/// The events of a batch that yield blocks: those with a snapshot and an
/// observation.
pub open spec fn block_span(es: Seq<EventView>, snaps: Seq<(u64, Particle)>, obs: Seq<(u64, u64)>) -> nat {
    if es.len() <= snaps.len() && es.len() <= obs.len() {
        es.len()
    } else if snaps.len() <= obs.len() {
        snaps.len()
    } else {
        obs.len()
    }
}

/// Every signal among the first `k` events has a length that fits a `u32`.
pub open spec fn signals_fit(es: Seq<EventView>, k: nat) -> bool {
    forall|i: int| 0 <= i < k ==> (#[trigger] es[i] matches EventView::Signal(sig) ==> sig.len() <= u32::MAX)
}

/// The byte views of optional frames.
pub open spec fn frame_views(w: Option<Vec<Vec<u8>>>) -> Option<Seq<Seq<u8>>> {
    match w {
        None => None,
        Some(fs) => Some(byte_views(fs@)),
    }
}

/// A history entry can be encoded: its command and each of its frames fit
/// a `u32` length.
pub open spec fn history_fits(command: Seq<u8>, original_wire: Option<Seq<Seq<u8>>>) -> bool {
    command.len() <= u32::MAX && match original_wire {
        Some(fs) => frames_fit(fs),
        None => true,
    }
}

/// Every frame has a length that fits a `u32`.
pub open spec fn frames_fit(fs: Seq<Seq<u8>>) -> bool {
    forall|i: int| 0 <= i < fs.len() ==> #[trigger] fs[i].len() <= u32::MAX
}

/// The records of an accepted request, from the head before it, its
/// position and identity, its admitted events, the ledger's outcome, the
/// store's report of the prepared batch and the wire frames it exports.
/// The receipt counts the batch's signals and weights, the blocks follow
/// its signal events, the frames are laid end to end after the wire log,
/// and the head chains the history entry. Fails where a counter or
/// offset overflows or a record cannot be encoded.
pub fn accept(head: &Head, position: u64, id: Particle, fingerprint: Particle, events: &[Event], ledger: &Ledger,
    balance: Option<u64>, batch: &Batch, wire: &Vec<Vec<u8>>, wire_blocked: bool, command: Vec<u8>,
    original_wire: Option<Vec<Vec<u8>>>, timestamp: u64) -> (r: Result<Accepted, Error>)
    ensures
        r is Ok <==> {
            &&& head.signals + signal_count(event_views(events@)) <= u64::MAX
            &&& head.wire_end + total_len(byte_views(wire@)) <= u64::MAX
            &&& total_weight(ledger.observations@) <= u64::MAX
            &&& signals_fit(event_views(events@), block_span(event_views(events@), batch.snapshots@, ledger.observations@))
            &&& history_fits(command@, frame_views(original_wire))
        },
        r matches Err(e) ==> e is Invalid,
        r matches Ok(a) ==> {
            &&& a.receipt == Receipt {
                request_id: id,
                position,
                height: batch.height,
                root: batch.root,
                signals: (head.signals + signal_count(event_views(events@))) as u64,
                balance,
                supply: ledger.supply,
                weight: total_weight(ledger.observations@) as u64,
                timestamp,
                applied: events@.len() as u64,
            }
            &&& a.stored@ == spec_stored_receipt(fingerprint, a.receipt)
            &&& a.history@ == spec_history(HistoryRecord {
                fingerprint,
                receipt: a.receipt,
                command: command@,
                original_wire: frame_views(original_wire),
            })
            &&& a.blocks@.map_values(|b: (u64, Vec<u8>)| (b.0, b.1@)) == blocks_of(event_views(events@), batch.snapshots@,
                ledger.observations@, timestamp, block_span(event_views(events@), batch.snapshots@, ledger.observations@))
            &&& a.exports@.len() == wire@.len()
            &&& forall|i: int| 0 <= i < wire@.len() ==> #[trigger] a.exports@[i] == head.wire_end + total_len(byte_views(wire@).take(i))
            &&& a.head.position == position
            &&& a.head.signals == a.receipt.signals
            &&& a.head.wire_end == head.wire_end + total_len(byte_views(wire@))
            &&& a.head.wire_blocked == wire_blocked
            &&& a.head.history_hash@ == digest_of(history_domain(), seq![head.history_hash@, a.history@])
        },
{
    let ghost ev = event_views(events@);
    let ghost span = block_span(ev, batch.snapshots@, ledger.observations@);
    let (_, signals) = signal_positions(head.signals, events)?;
    let (exports, wire_end) = wire_offsets(head.wire_end, wire.as_slice())?;
    let weight = request_weight(ledger.observations.as_slice())?;
    let receipt = Receipt {
        request_id: id,
        position,
        height: batch.height,
        root: batch.root,
        signals,
        balance,
        supply: ledger.supply,
        weight,
        timestamp,
        applied: events.len() as u64,
    };
    let mut n = events.len();
    if batch.snapshots.len() < n {
        n = batch.snapshots.len();
    }
    if ledger.observations.len() < n {
        n = ledger.observations.len();
    }
    proof {
        assert(n == span);
    }
    let mut blocks: Vec<(u64, Vec<u8>)> = Vec::new();
    let mut i: usize = 0;
    while i < n
        invariant
            i <= n,
            n == span,
            span <= events@.len() && span <= batch.snapshots@.len() && span <= ledger.observations@.len(),
            ev == event_views(events@),
            span == block_span(ev, batch.snapshots@, ledger.observations@),
            signals_fit(ev, i as nat),
            blocks@.map_values(|b: (u64, Vec<u8>)| (b.0, b.1@)) == blocks_of(ev, batch.snapshots@, ledger.observations@, timestamp, i as nat),
        decreases n - i,
    {
        let ghost before = blocks@;
        proof {
            assert(ev[i as int] == events@[i as int]@);
        }
        if let Event::Signal(sig) = &events[i] {
            let (h, root) = batch.snapshots[i];
            let (supply, w) = ledger.observations[i];
            let mut copy: Vec<u8> = Vec::new();
            append(&mut copy, sig.as_slice());
            let b = Block { height: h, timestamp, supply, weight: w, root, signal: copy };
            let bytes = match block(&b) {
                Ok(bytes) => bytes,
                Err(e) => {
                    proof {
                        assert(!signals_fit(ev, span));
                    }
                    return Err(e);
                },
            };
            blocks.push((h, bytes));
            proof {
                assert(blocks@.map_values(|b: (u64, Vec<u8>)| (b.0, b.1@)) =~= before.map_values(|b: (u64, Vec<u8>)| (b.0, b.1@)).push((h, bytes@)));
            }
        }
        i = i + 1;
        proof {
            assert forall|j: int| 0 <= j < i implies (#[trigger] ev[j] matches EventView::Signal(sig) ==> sig.len() <= u32::MAX) by {
                if j < i - 1 {
                    assert(signals_fit(ev, (i - 1) as nat));
                }
            }
        }
    }
    let entry = History { fingerprint, receipt, command, original_wire };
    let history_bytes = match history(&entry) {
        Ok(bytes) => bytes,
        Err(e) => {
            proof {
                if entry.command@.len() <= u32::MAX {
                    let fs = entry.original_wire->0;
                    let j = choose|j: int| 0 <= j < fs@.len() && !(#[trigger] fs@[j]@.len() <= u32::MAX);
                    assert(byte_views(fs@)[j].len() > u32::MAX);
                    assert(!frames_fit(byte_views(fs@)));
                }
            }
            return Err(e);
        },
    };
    let new_head = next_head(head, position, signals, wire_end, wire_blocked, history_bytes.as_slice());
    let stored = stored_receipt(&fingerprint, &receipt);
    Ok(Accepted { receipt, stored, history: history_bytes, blocks, exports, head: new_head })
}

/// Whether the legacy wire format can carry an event: any event but a
/// signal to another network or one carrying a proof.
pub open spec fn wire_carries(e: Option<SignalView>) -> bool {
    match e {
        Some(s) => s.network@ == zero32() && !s.proven,
        None => true,
    }
}

/// Which compatibility frames a request exports.
pub enum WirePlan {
    /// The legacy frames the request was imported from.
    Original,
    /// Fresh frames for the first `count` events; `blocked` once an event
    /// cannot be carried, after which the wire log takes no more frames.
    Frames { count: usize, blocked: bool },
}

/// An operation the command codec can encode: an admissible event count
/// and a bounded encoding.
pub open spec fn encodable(op: OperationView) -> bool {
    count_ok(op) && spec_operation(op).len() <= MAX_OPERATION_BYTES
}

/// An imported legacy frame stands for an event when the events it decodes
/// to encode, as one operation, exactly as that event alone does.
pub open spec fn stands_for(decoded: Seq<EventView>, e: EventView) -> bool {
    &&& encodable(OperationView::Events(decoded))
    &&& encodable(OperationView::Events(seq![e]))
    &&& spec_operation(OperationView::Events(decoded)) == spec_operation(OperationView::Events(seq![e]))
}

/// A copy of an event.
fn copy_event(e: &Event) -> (r: Event)
    ensures
        r@ == e@,
{
    match e {
        Event::Signal(b) => {
            let mut v: Vec<u8> = Vec::new();
            append(&mut v, b.as_slice());
            assert(v@ =~= b@);
            Event::Signal(v)
        },
        Event::Intent(i) => Event::Intent(*i),
        Event::LocalCredit { neuron, token, amount, focus, reason } => Event::LocalCredit {
            neuron: *neuron,
            token: *token,
            amount: *amount,
            focus: *focus,
            reason: *reason,
        },
    }
}

/// Check the legacy frames a request was imported from against its events:
/// one frame per event, each decoding to events that encode exactly as its
/// own event does. The frames come decoded, one list of events per frame.
pub fn check_original(decoded: &Vec<Vec<Event>>, events: &Vec<Event>) -> (r: Result<(), Error>)
    ensures
        r is Ok <==> decoded@.len() == events@.len()
            && forall|i: int| 0 <= i < events@.len() ==> #[trigger] stands_for(views(decoded@[i]@), events@[i]@),
        r matches Err(e) ==> (e is Corrupt || e is Invalid),
        r matches Err(Error::Invalid(_)) ==> exists|i: int| 0 <= i < events@.len() && i < decoded@.len()
            && !(encodable(OperationView::Events(views(#[trigger] decoded@[i]@))) && encodable(OperationView::Events(seq![events@[i]@]))),
{
    if decoded.len() != events.len() {
        return Err(corrupt("legacy wire span count"));
    }
    let mut i: usize = 0;
    while i < events.len()
        invariant
            i <= events@.len(),
            decoded@.len() == events@.len(),
            forall|j: int| 0 <= j < i ==> #[trigger] stands_for(views(decoded@[j]@), events@[j]@),
        decreases events@.len() - i,
    {
        let mut frame: Vec<Event> = Vec::new();
        let mut k: usize = 0;
        while k < decoded[i].len()
            invariant
                i < decoded@.len(),
                k <= decoded@[i as int]@.len(),
                views(frame@) == views(decoded@[i as int]@).take(k as int),
            decreases decoded@[i as int]@.len() - k,
        {
            let ghost before = frame@;
            let e = copy_event(&decoded[i][k]);
            frame.push(e);
            proof {
                assert(e@ == decoded@[i as int]@[k as int]@);
                assert(views(frame@) =~= views(before).push(e@));
                assert(views(decoded@[i as int]@).take(k as int + 1) =~= views(decoded@[i as int]@).take(k as int).push(decoded@[i as int]@[k as int]@));
            }
            k = k + 1;
        }
        proof {
            assert(views(frame@) =~= views(decoded@[i as int]@));
        }
        let mine = Operation::Events(frame);
        let c = copy_event(&events[i]);
        let mut one: Vec<Event> = Vec::new();
        one.push(c);
        proof {
            assert(views(one@) =~= seq![events@[i as int]@]);
        }
        let expected = Operation::Events(one);
        proof {
            assert(mine@ == OperationView::Events(views(decoded@[i as int]@)));
            assert(expected@ == OperationView::Events(seq![events@[i as int]@]));
        }
        let a = match operation(&mine) {
            Ok(a) => a,
            Err(e) => {
                proof {
                    assert(!stands_for(views(decoded@[i as int]@), events@[i as int]@));
                }
                return Err(e);
            },
        };
        let b = match operation(&expected) {
            Ok(b) => b,
            Err(e) => {
                proof {
                    assert(!stands_for(views(decoded@[i as int]@), events@[i as int]@));
                }
                return Err(e);
            },
        };
        if !crate::wire::bytes_eq(a.as_slice(), b.as_slice()) {
            proof {
                assert(!stands_for(views(decoded@[i as int]@), events@[i as int]@));
            }
            return Err(corrupt("legacy bytes differ from operation"));
        }
        i = i + 1;
    }
    Ok(())
}

/// Plan the compatibility export of a request: imported frames must be one
/// per event and only while the wire log is open; otherwise the events are
/// exported in order up to the first one legacy wire cannot carry, and a
/// blocked log stays blocked.
pub fn wire_plan(events: &[Option<Signal>], original_frames: Option<usize>, blocked: bool) -> (r: Result<WirePlan, Error>)
    ensures
        match original_frames {
            Some(n) => if blocked || n != events@.len() { r matches Err(Error::Corrupt(_)) } else { r matches Ok(WirePlan::Original) },
            None => if blocked {
                r matches Ok(WirePlan::Frames { count: 0, blocked: true })
            } else {
                r matches Ok(WirePlan::Frames { count, blocked: b }) && count <= events@.len()
                    && (forall|i: int| 0 <= i < count ==> #[trigger] wire_carries(signal_views(events@)[i]))
                    && (count < events@.len() ==> !wire_carries(signal_views(events@)[count as int]))
                    && b == (count < events@.len())
            },
        },
{
    match original_frames {
        Some(n) => {
            if blocked || n != events.len() {
                return Err(corrupt("legacy wire span count"));
            }
            Ok(WirePlan::Original)
        },
        None => {
            if blocked {
                return Ok(WirePlan::Frames { count: 0, blocked: true });
            }
            let ghost vs = signal_views(events@);
            let mut i: usize = 0;
            while i < events.len()
                invariant
                    i <= events@.len(),
                    vs == signal_views(events@),
                    original_frames is None,
                    !blocked,
                    forall|j: int| 0 <= j < i ==> #[trigger] wire_carries(vs[j]),
                decreases events@.len() - i,
            {
                proof {
                    assert(vs[i as int] == match events@[i as int] { Some(s) => Some(s@), None => None::<SignalView> });
                }
                if let Some(s) = &events[i] {
                    let own = particle_eq(&s.network, &zero_bytes());
                    if !own || s.proven {
                        return Ok(WirePlan::Frames { count: i, blocked: true });
                    }
                }
                i = i + 1;
            }
            Ok(WirePlan::Frames { count: events.len(), blocked: false })
        },
    }
}

fn zero_bytes() -> (z: Particle)
    ensures
        z@ == zero32(),
{
    let z: Particle = [0u8; 32];
    proof {
        assert forall|i: int| 0 <= i < 32 implies z@[i] == 0u8 by {
            vstd::array::lemma_array_index(z, i);
        }
        assert(z@ =~= zero32());
    }
    z
}

/// Strict admission for callers that promise every payment leg: a batch
/// whose settlement would skip a leg, or a payment the payer cannot cover,
/// is refused.
pub fn validate_payments(operation: &Operation, balances: &Balances, supply: u64, signals: &[Option<Signal>]) -> (r: Result<(), Error>)
    ensures
        match operation@ {
            OperationView::Events(_) => r is Ok <==> (after_events(balances@, opening(supply), signal_views(signals@)) matches Some((b, _)) && !b.skipped),
            OperationView::Pay { from, amount, .. } => r is Ok <==> amount > 0 && amount <= held_in(balances@, from),
            OperationView::Link { .. } => r is Ok,
        },
        r matches Err(e) ==> e is Invalid,
{
    let insufficient = match operation {
        Operation::Events(_) => {
            let ledger = Ledger::prepare(balances, supply, signals)?;
            ledger.skipped_payments
        },
        Operation::Pay { from, amount, .. } => *amount == 0 || balance_of(balances, from) < *amount,
        Operation::Link { .. } => false,
    };
    if insufficient {
        return Err(invalid("insufficient funds for complete signed payment"));
    }
    Ok(())
}


/// The identity a request is filed under (`request_identity`).
pub open spec fn identity_of(request_id: Option<Particle>, instance: Particle, position: u64, fingerprint: Particle, id: Particle) -> bool {
    match request_id {
        Some(r) => id == r,
        None => id@ == digest_of(server_request_domain(), seq![instance@, le64(position), fingerprint@]),
    }
}

/// What the native node does with a request once it has read the record
/// filed under the request's identity.
#[derive(Debug)]
pub enum AcceptNext {
    /// The request is on record: the answer its stored receipt gives, and
    /// nothing executes.
    Answered(Result<Receipt, Error>),
    /// A new request: execute it at `position` under `id`.
    Execute { position: u64, id: Particle, fingerprint: Particle },
}

/// The first step of a native request: its fingerprint, its position after
/// the head, and its identity; then, where a receipt is on record under
/// that identity (`stored`; none while history is replayed), the retry's
/// answer before anything executes, else the go-ahead to execute.
pub fn accept_step(head: &Head, instance: &Particle, request_id: Option<Particle>, command: &[u8], stored: Option<&[u8]>)
    -> (r: Result<AcceptNext, Error>)
    ensures
        head.position == u64::MAX ==> r matches Err(Error::Invalid(_)),
        head.position < u64::MAX ==> (exists|fingerprint: Particle, id: Particle| #![trigger identity_of(request_id, *instance, (head.position + 1) as u64, fingerprint, id)] {
            &&& fingerprint@ == spec_fingerprint(*instance, command@)
            &&& identity_of(request_id, *instance, (head.position + 1) as u64, fingerprint, id)
            &&& match stored {
                Some(b) => r matches Ok(AcceptNext::Answered(a)) && answers_retry(b@, fingerprint, id, a),
                None => r == Ok::<AcceptNext, Error>(AcceptNext::Execute { position: (head.position + 1) as u64, id, fingerprint }),
            }
        }),
{
    let f = fingerprint(instance, command);
    let position = next_request(head)?;
    let id = request_identity(request_id, instance, position, &f);
    proof {
        assert(identity_of(request_id, *instance, (head.position + 1) as u64, f, id));
    }
    match stored {
        Some(bytes) => Ok(AcceptNext::Answered(check_retry(bytes, &f, &id))),
        None => Ok(AcceptNext::Execute { position, id, fingerprint: f }),
    }
}
} // verus!
