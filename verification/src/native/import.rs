//! Strict import of a legacy signal log: the import marker, the source
//! digest, request identities of imported batches, validation of the
//! imported history prefix, and how the log is cut into batches.
use vstd::prelude::*;
use crate::hash::{hemera, hemera_hash};
use crate::wire::{append, be64, bytes_eq, le64, lemma_int_codecs, put_u64_le, u64_be};
use crate::content::particle_eq;
use crate::Particle;
use super::codec::{decode_history, history_ok, is_history, spec_event, spec_history, Reader};
use super::commit::{digest, digest_of, part_views};
use super::{corrupt, invalid, Error, Event, HistoryRecord, MAX_EVENTS, MAX_OPERATION_BYTES};

verus! {

/// What an import did: events imported, signals, the resulting height and
/// root, and the source digest.
#[derive(Debug, Clone, Copy, PartialEq, Eq)]
pub struct ImportReport {
    pub events: u64,
    pub signals: u64,
    pub height: u64,
    pub root: Particle,
    pub source: Particle,
}

/// The durable state of an import: whether it completed, the digest of its
/// source log, and how many events the log holds.
#[derive(Debug, Clone, Copy, PartialEq, Eq)]
pub struct Marker {
    pub complete: bool,
    pub source: Particle,
    pub events: u64,
}

/// How an import begins on a store.
#[derive(Debug, Clone, Copy, PartialEq, Eq)]
pub enum ImportStart {
    /// The store holds no import: it must be empty, then the import starts.
    Fresh,
    /// An import of this source stopped part way: it resumes.
    Resume,
    /// This source was imported in full.
    Done,
}

/// Decide how an import of a source with `events` events begins from the
/// marker a store holds: a marker of another source or event count is
/// corruption, since source files are never overwritten.
pub fn import_start(existing: Option<Marker>, source: &Particle, events: u64) -> (r: Result<ImportStart, Error>)
    ensures
        match existing {
            None => r == Ok::<ImportStart, Error>(ImportStart::Fresh),
            Some(m) => if m.source != *source || m.events != events {
                r matches Err(Error::Corrupt(_))
            } else if m.complete {
                r == Ok::<ImportStart, Error>(ImportStart::Done)
            } else {
                r == Ok::<ImportStart, Error>(ImportStart::Resume)
            },
        },
{
    match existing {
        None => Ok(ImportStart::Fresh),
        Some(m) => {
            if !particle_eq(&m.source, source) || m.events != events {
                return Err(corrupt("legacy import source differs; source files are never overwritten"));
            }
            if m.complete {
                Ok(ImportStart::Done)
            } else {
                Ok(ImportStart::Resume)
            }
        },
    }
}

/// `"CGIMPORT\x01"`, the import marker version.
pub open spec fn import_magic() -> Seq<u8> {
    seq![67u8, 71, 73, 77, 80, 79, 82, 84, 1]
}

/// The canonical bytes of an import marker.
pub open spec fn spec_marker(m: Marker) -> Seq<u8> {
    import_magic() + seq![if m.complete { 1u8 } else { 0u8 }] + m.source@ + le64(m.events)
}

/// Bytes that decode to a marker of at most `max` events.
pub open spec fn is_marker(b: Seq<u8>, max: u64) -> bool {
    exists|m: Marker| spec_marker(m) == b && m.events <= max
}

fn import_magic_bytes() -> (m: [u8; 9])
    ensures
        m@ == import_magic(),
{
    let m: [u8; 9] = [67, 71, 73, 77, 80, 79, 82, 84, 1];
    assert(m@ =~= import_magic());
    m
}

/// The canonical bytes of an import marker.
pub fn encode_marker(m: &Marker) -> (out: Vec<u8>)
    ensures
        out@ == spec_marker(*m),
{
    let mut b: Vec<u8> = Vec::new();
    let magic = import_magic_bytes();
    append(&mut b, magic.as_slice());
    b.push(if m.complete { 1u8 } else { 0u8 });
    append(&mut b, &m.source);
    put_u64_le(&mut b, m.events);
    assert(b@ =~= spec_marker(*m));
    b
}

/// Decode an import marker of a log of at most `max_events` events,
/// rejecting other versions, other status bytes and trailing bytes.
pub fn decode_marker(bytes: &[u8], max_events: u64) -> (r: Result<Marker, Error>)
    ensures
        r is Ok <==> is_marker(bytes@, max_events),
        r matches Ok(m) ==> spec_marker(m) == bytes@ && m.events <= max_events,
        r matches Err(e) ==> e is Corrupt,
{
    let ghost t = choose|m: Marker| spec_marker(m) == bytes@ && m.events <= max_events;
    proof {
        lemma_int_codecs();
        if is_marker(bytes@, max_events) {
            assert(spec_marker(t).subrange(0, 9) =~= import_magic());
            assert(spec_marker(t)[9] == if t.complete { 1u8 } else { 0u8 });
            assert(spec_marker(t).subrange(10, 42) =~= t.source@);
            assert(spec_marker(t).subrange(42, 50) =~= le64(t.events));
        }
    }
    let mut r = Reader::new(bytes);
    let magic = import_magic_bytes();
    r.expect(magic.as_slice())?;
    let status = r.byte()?;
    let complete = if status == 0 {
        false
    } else if status == 1 {
        true
    } else {
        return Err(corrupt("import status"));
    };
    let source: [u8; 32] = r.array()?;
    let events = r.u64()?;
    if events > max_events {
        proof {
            assert forall|m: Marker| spec_marker(m) == bytes@ implies m.events > max_events by {
                assert(spec_marker(m).subrange(42, 50) =~= le64(m.events));
            }
        }
        return Err(corrupt("import event limit"));
    }
    r.end()?;
    let m = Marker { complete, source, events };
    assert(bytes@ =~= spec_marker(m));
    Ok(m)
}

/// `cybergraph/legacy-source/v1` and a zero byte.
pub open spec fn source_domain() -> Seq<u8> {
    seq![99u8, 121, 98, 101, 114, 103, 114, 97, 112, 104, 47, 108, 101, 103, 97, 99, 121, 45, 115, 111, 117, 114, 99, 101, 47, 118, 49, 0]
}

/// `cybergraph/import-request/v1` and a zero byte.
pub open spec fn import_domain() -> Seq<u8> {
    seq![99u8, 121, 98, 101, 114, 103, 114, 97, 112, 104, 47, 105, 109, 112, 111, 114, 116, 45, 114, 101, 113, 117, 101, 115, 116, 47, 118, 49, 0]
}

fn source_domain_bytes() -> (d: [u8; 28])
    ensures
        d@ == source_domain(),
{
    let d: [u8; 28] = [99, 121, 98, 101, 114, 103, 114, 97, 112, 104, 47, 108, 101, 103, 97, 99, 121, 45, 115, 111, 117, 114, 99, 101, 47, 118, 49, 0];
    assert(d@ =~= source_domain());
    d
}

/// The digest of a legacy source log.
pub open spec fn source_of(log: Seq<u8>) -> Seq<u8> {
    hemera_hash(source_domain() + log)
}

/// The digest that identifies a legacy source log.
pub fn source(log: &[u8]) -> (s: Particle)
    ensures
        s@ == source_of(log@),
{
    let d = source_domain_bytes();
    let mut buf: Vec<u8> = Vec::new();
    append(&mut buf, d.as_slice());
    append(&mut buf, log);
    hemera(buf.as_slice())
}

/// The request identity of imported batch `batch` of a source.
pub open spec fn import_request(source: Particle, batch: u64) -> Seq<u8> {
    digest_of(import_domain(), seq![source@, le64(batch)])
}

/// The request identity of imported batch `batch` of a source.
pub fn request_id(source: &Particle, batch: u64) -> (id: Particle)
    ensures
        id@ == import_request(*source, batch),
{
    let d: [u8; 29] = [99, 121, 98, 101, 114, 103, 114, 97, 112, 104, 47, 105, 109, 112, 111, 114, 116, 45, 114, 101, 113, 117, 101, 115, 116, 47, 118, 49, 0];
    proof {
        assert(d@ =~= import_domain());
    }
    let mut b: Vec<u8> = Vec::new();
    put_u64_le(&mut b, batch);
    let parts: [&[u8]; 2] = [source.as_slice(), b.as_slice()];
    proof {
        assert(part_views(parts@) =~= seq![source@, le64(batch)]);
    }
    digest(d.as_slice(), parts.as_slice())
}

/// How far an imported history prefix reaches: events, batches and source
/// bytes, whether ordinary history began, and the frame bytes read.
pub ghost struct Walk {
    pub events: nat,
    pub batches: nat,
    pub bytes: nat,
    pub ordinary: bool,
    pub absorbed: Seq<u8>,
}

/// The next frame of an imported batch is nonempty, stays within the log
/// limit and the source, is the source's next bytes, and does not pass the
/// marker's event count.
pub open spec fn frame_fits(w: Walk, f: Seq<u8>, m: Marker, log: Option<Seq<u8>>, max: nat) -> bool {
    &&& f.len() > 0
    &&& w.bytes + f.len() <= max
    &&& log matches Some(l) ==> w.bytes + f.len() <= l.len() && l.subrange(w.bytes as int, (w.bytes + f.len()) as int) == f
    &&& w.events + 1 <= m.events
}

/// The walk after the frames of one imported batch.
pub open spec fn frames_after(w: Walk, fs: Seq<Seq<u8>>, m: Marker, log: Option<Seq<u8>>, max: nat) -> Option<Walk>
    decreases fs.len(),
{
    if fs.len() == 0 {
        Some(w)
    } else {
        match frames_after(w, fs.drop_last(), m, log, max) {
            None => None,
            Some(w1) => if frame_fits(w1, fs.last(), m, log, max) {
                Some(Walk { events: w1.events + 1, bytes: w1.bytes + fs.last().len(), absorbed: w1.absorbed + fs.last(), ..w1 })
            } else {
                None
            },
        }
    }
}

/// The history entry a record decodes to.
pub open spec fn decoded(b: Seq<u8>) -> HistoryRecord {
    choose|h: HistoryRecord| spec_history(h) == b && history_ok(h)
}

/// The walk after one history record: an imported batch must continue the
/// marker's source in order (next batch key, its request identity, no
/// timestamp, one event per frame) before any ordinary history; ordinary
/// history may only follow a completed import.
pub open spec fn row_after(w: Walk, row: (Seq<u8>, Seq<u8>), marker: Option<Marker>, log: Option<Seq<u8>>, max: nat) -> Option<Walk> {
    if !is_history(row.1) {
        None
    } else {
        let h = decoded(row.1);
        match h.original_wire {
            Some(fs) => match marker {
                None => None,
                Some(m) => if w.ordinary || row.0 != be64((w.batches + 1) as u64) || h.receipt.request_id@ != import_request(m.source, w.batches as u64)
                    || h.receipt.timestamp != 0 || fs.len() == 0 || h.receipt.applied != fs.len() {
                    None
                } else {
                    match frames_after(w, fs, m, log, max) {
                        None => None,
                        Some(w2) => Some(Walk { batches: w2.batches + 1, ..w2 }),
                    }
                },
            },
            None => match marker {
                Some(m) => if !m.complete || w.events != m.events {
                    None
                } else {
                    Some(Walk { ordinary: true, ..w })
                },
                None => Some(Walk { ordinary: true, ..w }),
            },
        }
    }
}

/// The walk after a run of history records.
pub open spec fn rows_after(rows: Seq<(Seq<u8>, Seq<u8>)>, marker: Option<Marker>, log: Option<Seq<u8>>, max: nat) -> Option<Walk>
    decreases rows.len(),
{
    if rows.len() == 0 {
        Some(Walk { events: 0, batches: 0, bytes: 0, ordinary: false, absorbed: Seq::empty() })
    } else {
        match rows_after(rows.drop_last(), marker, log, max) {
            None => None,
            Some(w) => row_after(w, rows.last(), marker, log, max),
        }
    }
}

/// After the walk: a completed import holds all its events; once all are
/// imported, the frames read are exactly the source (its digest matches,
/// and they cover the whole log where it is given).
pub open spec fn walk_closes(w: Walk, marker: Option<Marker>, log: Option<Seq<u8>>) -> bool {
    match marker {
        None => true,
        Some(m) => {
            &&& !(m.complete && w.events != m.events)
            &&& w.events == m.events ==> {
                &&& hemera_hash(source_domain() + w.absorbed) == m.source@
                &&& log matches Some(l) ==> w.bytes == l.len()
            }
        },
    }
}

/// How far a validated import reaches.
#[derive(Debug, Clone, Copy, PartialEq, Eq)]
pub struct Progress {
    pub events: usize,
    pub batches: u64,
    pub bytes: usize,
}

/// Validate the imported history prefix against the import marker and, for
/// an import being resumed, the complete source log.
pub fn validate_import(marker: Option<Marker>, rows: &[(Vec<u8>, Vec<u8>)], source_log: Option<&[u8]>, max_log_bytes: usize) -> (r: Result<Progress, Error>)
    ensures
        ({
            let log = match source_log { Some(l) => Some(l@), None => None };
            let walk = rows_after(super::recovery::record_views(rows@), marker, log, max_log_bytes as nat);
            match r {
                Ok(p) => walk matches Some(w) && walk_closes(w, marker, log) && p.events == w.events && p.batches == w.batches && p.bytes == w.bytes,
                Err(e) => e is Corrupt && !(walk matches Some(w) && walk_closes(w, marker, log)),
            }
        }),
{
    let ghost log = match source_log { Some(l) => Some(l@), None => None };
    let ghost rv = super::recovery::record_views(rows@);
    let ghost max = max_log_bytes as nat;
    let d = source_domain_bytes();
    let mut absorbed: Vec<u8> = Vec::new();
    append(&mut absorbed, d.as_slice());
    let mut events: usize = 0;
    let mut batches: u64 = 0;
    let mut bytes: usize = 0;
    let mut ordinary = false;
    let ghost mut w = Walk { events: 0, batches: 0, bytes: 0, ordinary: false, absorbed: Seq::empty() };
    let mut i: usize = 0;
    while i < rows.len()
        invariant
            i <= rows@.len(),
            rv == super::recovery::record_views(rows@),
            log == (match source_log { Some(l) => Some(l@), None => None }),
            max == max_log_bytes as nat,
            rows_after(rv.take(i as int), marker, log, max) == Some(w),
            w.events == events && w.batches == batches && w.bytes == bytes && w.ordinary == ordinary,
            absorbed@ == source_domain() + w.absorbed,
            batches <= i,
            events <= bytes,
            bytes <= max_log_bytes,
        decreases rows@.len() - i,
    {
        proof {
            assert(rv.take(i + 1).drop_last() =~= rv.take(i as int));
            assert(rv[i as int] == (rows@[i as int].0@, rows@[i as int].1@));
        }
        let h = match decode_history(rows[i].1.as_slice()) {
            Ok(h) => h,
            Err(e) => {
                proof {
                    lemma_import_fail(rv, marker, log, max, i + 1);
                }
                return Err(e);
            },
        };
        proof {
            super::laws::law_history_round_trip(h@, decoded(rv[i as int].1));
            assert(decoded(rv[i as int].1) == h@);
        }
        match &h.original_wire {
            Some(frames) => {
                let m = match marker {
                    Some(m) => m,
                    None => {
                        proof {
                            lemma_import_fail(rv, marker, log, max, i + 1);
                        }
                        return Err(corrupt("imported frames without source marker"));
                    },
                };
                let key = u64_be(batches + 1);
                let id = request_id(&m.source, batches);
                if ordinary || !bytes_eq(rows[i].0.as_slice(), key.as_slice()) || !particle_eq(&h.receipt.request_id, &id)
                    || h.receipt.timestamp != 0 || frames.len() == 0 || h.receipt.applied != frames.len() as u64 {
                    proof {
                        lemma_import_fail(rv, marker, log, max, i + 1);
                    }
                    return Err(corrupt("invalid imported history prefix"));
                }
                let ghost fviews = frames@.map_values(|f: Vec<u8>| f@);
                proof {
                    assert(h@.original_wire == Some(fviews));
                }
                let ghost w0 = w;
                proof {
                    assert(rv.take(i + 1).last() == rv[i as int]);
                    if frames_after(w0, fviews, m, log, max) is None {
                        assert(row_after(w0, rv[i as int], marker, log, max) is None);
                        assert(rows_after(rv.take(i + 1), marker, log, max) is None);
                        lemma_import_fail(rv, marker, log, max, i + 1);
                    }
                }
                let mut j: usize = 0;
                while j < frames.len()
                    invariant
                        j <= frames@.len(),
                        fviews == frames@.map_values(|f: Vec<u8>| f@),
                        log == (match source_log { Some(l) => Some(l@), None => None }),
                        max == max_log_bytes as nat,
                        frames_after(w0, fviews.take(j as int), m, log, max) == Some(w),
                        frames_after(w0, fviews, m, log, max) is None ==> rows_after(rv, marker, log, max) is None,
                        rv == super::recovery::record_views(rows@),
                        w.events == events && w.batches == batches && w.bytes == bytes && w.ordinary == ordinary,
                        absorbed@ == source_domain() + w.absorbed,
                        events <= bytes,
                        bytes <= max_log_bytes,
                    decreases frames@.len() - j,
                {
                    proof {
                        assert(fviews.take(j + 1).drop_last() =~= fviews.take(j as int));
                        assert(fviews[j as int] == frames@[j as int]@);
                        assert(fviews.take(j + 1).last() == fviews[j as int]);
                    }
                    let frame = frames[j].as_slice();
                    let fits_limit = frame.len() <= max_log_bytes - bytes && frame.len() > 0;
                    if !fits_limit {
                        proof {
                            lemma_frames_fail(w0, fviews, m, log, max, j + 1);
                        }
                        return Err(corrupt("import byte limit"));
                    }
                    let end = bytes + frame.len();
                    match source_log {
                        Some(l) => {
                            if end > l.len() || !bytes_eq(vstd::slice::slice_subrange(l, bytes, end), frame) {
                                proof {
                                    lemma_frames_fail(w0, fviews, m, log, max, j + 1);
                                }
                                return Err(corrupt("committed import prefix differs from source"));
                            }
                        },
                        None => {},
                    }
                    if events as u64 >= m.events {
                        proof {
                            lemma_frames_fail(w0, fviews, m, log, max, j + 1);
                        }
                        return Err(corrupt("extra imported event"));
                    }
                    append(&mut absorbed, frame);
                    bytes = end;
                    events = events + 1;
                    proof {
                        w = Walk { events: w.events + 1, bytes: w.bytes + frame@.len(), absorbed: w.absorbed + frame@, ..w };
                        assert(absorbed@ =~= source_domain() + w.absorbed);
                    }
                    j = j + 1;
                }
                proof {
                    assert(fviews.take(frames@.len() as int) =~= fviews);
                    w = Walk { batches: w.batches + 1, ..w };
                }
                batches = batches + 1;
            },
            None => {
                match marker {
                    Some(m) => {
                        if !m.complete || events as u64 != m.events {
                            proof {
                                lemma_import_fail(rv, marker, log, max, i + 1);
                            }
                            return Err(corrupt("ordinary history precedes completed import"));
                        }
                    },
                    None => {},
                }
                ordinary = true;
                proof {
                    w = Walk { ordinary: true, ..w };
                }
            },
        }
        i = i + 1;
    }
    proof {
        assert(rv.take(rows@.len() as int) =~= rv);
    }
    match marker {
        Some(m) => {
            if m.complete && events as u64 != m.events {
                return Err(corrupt("missing imported events"));
            }
            if events as u64 == m.events {
                let digest = hemera(absorbed.as_slice());
                if !particle_eq(&digest, &m.source) {
                    return Err(corrupt("import source digest differs from exact prefix"));
                }
                match source_log {
                    Some(l) => {
                        if bytes != l.len() {
                            return Err(corrupt("imported prefix omits source bytes"));
                        }
                    },
                    None => {},
                }
            }
        },
        None => {},
    }
    Ok(Progress { events, batches, bytes })
}

proof fn lemma_import_fail(rows: Seq<(Seq<u8>, Seq<u8>)>, marker: Option<Marker>, log: Option<Seq<u8>>, max: nat, j: int)
    requires
        0 <= j <= rows.len(),
        rows_after(rows.take(j), marker, log, max) is None,
    ensures
        rows_after(rows, marker, log, max) is None,
    decreases rows.len() - j,
{
    if j < rows.len() {
        assert(rows.take(j + 1).drop_last() =~= rows.take(j));
        lemma_import_fail(rows, marker, log, max, j + 1);
    } else {
        assert(rows.take(j) =~= rows);
    }
}

proof fn lemma_frames_fail(w: Walk, fs: Seq<Seq<u8>>, m: Marker, log: Option<Seq<u8>>, max: nat, j: int)
    requires
        0 <= j <= fs.len(),
        frames_after(w, fs.take(j), m, log, max) is None,
    ensures
        frames_after(w, fs, m, log, max) is None,
    decreases fs.len() - j,
{
    if j < fs.len() {
        assert(fs.take(j + 1).drop_last() =~= fs.take(j));
        lemma_frames_fail(w, fs, m, log, max, j + 1);
    } else {
        assert(fs.take(j) =~= fs);
    }
}

/// The bytes one event adds to a batch operation.
pub fn event_size(e: &Event) -> (n: usize)
    requires
        e matches Event::Signal(b) ==> b@.len() <= MAX_OPERATION_BYTES,
    ensures
        n == spec_event(e@).len(),
{
    match e {
        Event::Signal(b) => {
            proof {
                lemma_int_codecs();
            }
            5 + b.len()
        },
        Event::Intent(_) => {
            proof {
                lemma_int_codecs();
            }
            137
        },
        Event::LocalCredit { .. } => {
            proof {
                lemma_int_codecs();
            }
            113
        },
    }
}

/// The bytes of a batch operation before its events: version, kind and
/// event count.
pub const BATCH_HEADER_BYTES: usize = 10;

/// The sum of event sizes.
pub open spec fn size_total(sizes: Seq<usize>) -> nat
    decreases sizes.len(),
{
    if sizes.len() == 0 { 0 } else { size_total(sizes.drop_last()) + sizes.last() as nat }
}

/// A batch of `i` events closes before event `i`: it is full, or event `i`
/// would pass the operation byte limit.
pub open spec fn closes(sizes: Seq<usize>, i: int) -> bool {
    i == MAX_EVENTS || BATCH_HEADER_BYTES + size_total(sizes.take(i)) + sizes[i] > MAX_OPERATION_BYTES
}

/// An event that cannot fit any batch on its own.
pub open spec fn oversize(sizes: Seq<usize>, i: int) -> bool {
    sizes[i] + BATCH_HEADER_BYTES > MAX_OPERATION_BYTES
}

/// Event `i` joins the batch: it fits some batch, and the batch of the
/// events before it is still open.
pub open spec fn joins(sizes: Seq<usize>, i: int) -> bool {
    !oversize(sizes, i) && !closes(sizes, i)
}

/// How many of the remaining events (by encoded size) the next batch takes:
/// events in order while the batch holds fewer than 64 and stays within the
/// operation byte limit. An event too large for any batch is rejected.
pub fn batch_len(sizes: &[usize]) -> (r: Result<usize, Error>)
    ensures
        match r {
            Ok(k) => {
                &&& k <= sizes@.len() && k <= MAX_EVENTS
                &&& forall|i: int| 0 <= i < k ==> #[trigger] joins(sizes@, i)
                &&& k < sizes@.len() ==> !oversize(sizes@, k as int) && closes(sizes@, k as int)
            },
            Err(e) => e is Invalid && exists|i: int| 0 <= i < sizes@.len() && #[trigger] oversize(sizes@, i)
                && forall|j: int| 0 <= j < i ==> #[trigger] joins(sizes@, j),
        },
{
    let mut count: usize = 0;
    let mut bytes: usize = BATCH_HEADER_BYTES;
    while count < sizes.len()
        invariant
            count <= sizes@.len(),
            count <= MAX_EVENTS,
            bytes == BATCH_HEADER_BYTES + size_total(sizes@.take(count as int)),
            bytes <= MAX_OPERATION_BYTES,
            forall|i: int| 0 <= i < count ==> #[trigger] joins(sizes@, i),
        decreases sizes@.len() - count,
    {
        proof {
            assert(sizes@.take(count + 1).drop_last() =~= sizes@.take(count as int));
        }
        let size = sizes[count];
        if size > MAX_OPERATION_BYTES - BATCH_HEADER_BYTES {
            proof {
                assert(oversize(sizes@, count as int));
                assert(0 <= count < sizes@.len() && oversize(sizes@, count as int)
                    && forall|j: int| 0 <= j < count ==> #[trigger] joins(sizes@, j));
            }
            return Err(invalid("legacy event exceeds native operation byte limit"));
        }
        if count == MAX_EVENTS || size > MAX_OPERATION_BYTES - bytes {
            return Ok(count);
        }
        proof {
            assert(joins(sizes@, count as int));
        }
        count = count + 1;
        bytes = bytes + size;
    }
    Ok(count)
}

/// Whether a failure is a limit, after which a smaller batch may succeed.
pub fn known_limit(error: &Error) -> (r: bool)
    ensures
        r == (error is Limit),
{
    match error {
        Error::Limit(_) => true,
        _ => false,
    }
}

/// After a batch of `count` events fails: retry with half as many where
/// the failure is a limit and more than one event was tried.
pub fn retry_len(count: usize, error: &Error) -> (r: Option<usize>)
    ensures
        r == (if count > 1 && error is Limit { Some(count / 2) } else { None::<usize> }),
{
    if count > 1 && known_limit(error) {
        Some(count / 2)
    } else {
        None
    }
}

/// Import markers: the canonical bytes of a marker decode, and only to it.
pub proof fn law_marker_round_trip(m: Marker, v: Marker, max: u64)
    requires
        m.events <= max,
    ensures
        is_marker(spec_marker(m), max),
        spec_marker(v) == spec_marker(m) ==> v == m,
{
    lemma_int_codecs();
    let s = spec_marker(m);
    let t = spec_marker(v);
    if s == t {
        assert(s[9] == t[9]);
        assert(s.subrange(10, 42) =~= m.source@);
        assert(t.subrange(10, 42) =~= v.source@);
        assert(m.source@ =~= v.source@);
        assert(m.source == v.source);
        assert(s.subrange(42, 50) =~= le64(m.events));
        assert(t.subrange(42, 50) =~= le64(v.events));
    }
}


/// What an import does after it offered a batch of `count` events starting
/// at event `cursor` as its batch number `batch`.
#[derive(Debug)]
pub enum ImportNext {
    /// The batch was accepted: go on from the next event with the next batch.
    Advance { cursor: usize, batch: u64 },
    /// The batch broke a limit of the store: offer its first half again.
    Retry { count: usize },
    /// The import stops with this error.
    Fail(Error),
}

/// Decide how an import goes on after the store answered a batch of `count`
/// events: an accepted batch advances the cursor past it and counts it; a
/// batch of more than one event that broke a store limit is halved and
/// offered again; any other refusal ends the import with it.
pub fn import_next(cursor: usize, batch: u64, count: usize, outcome: Result<(), Error>) -> (r: ImportNext)
    requires
        cursor + count <= usize::MAX,
        batch < u64::MAX,
    ensures
        match outcome {
            Ok(()) => r == ImportNext::Advance { cursor: (cursor + count) as usize, batch: (batch + 1) as u64 },
            Err(e) => if count > 1 && e is Limit {
                r == ImportNext::Retry { count: count / 2 }
            } else {
                r == ImportNext::Fail(e)
            },
        },
{
    match outcome {
        Ok(()) => ImportNext::Advance { cursor: cursor + count, batch: batch + 1 },
        Err(e) => match retry_len(count, &e) {
            Some(half) => ImportNext::Retry { count: half },
            None => ImportNext::Fail(e),
        },
    }
}

/// What an import offers the store next.
#[derive(Debug, PartialEq, Eq)]
pub enum ImportOffer {
    /// Offer the `count` events from `cursor` as one batch.
    Batch { cursor: usize, count: usize },
    /// Every event was imported.
    Done,
}

/// Plan the next step of an import at event `cursor` of a log whose events
/// have encoded sizes `sizes`, with the history at `position` after `batch`
/// imported batches: once every event is imported the history must hold
/// exactly those batches; otherwise the next batch takes the events from
/// `cursor` that `batch_len` admits (an event too large for any batch is
/// refused). After the store answers, `import_next` advances, halves the
/// batch, or stops.
pub fn import_plan(sizes: &[usize], cursor: usize, position: u64, batch: u64) -> (r: Result<ImportOffer, Error>)
    requires
        cursor <= sizes@.len(),
    ensures
        cursor == sizes@.len() ==> if position == batch {
            r == Ok::<ImportOffer, Error>(ImportOffer::Done)
        } else {
            r matches Err(Error::Corrupt(_))
        },
        cursor < sizes@.len() ==> ({
            let rest = sizes@.subrange(cursor as int, sizes@.len() as int);
            match r {
                Ok(ImportOffer::Batch { cursor: c, count: k }) => {
                    &&& c == cursor
                    &&& 1 <= k <= rest.len() && k <= MAX_EVENTS
                    &&& forall|i: int| 0 <= i < k ==> #[trigger] joins(rest, i)
                    &&& k < rest.len() ==> !oversize(rest, k as int) && closes(rest, k as int)
                },
                Ok(ImportOffer::Done) => false,
                Err(e) => e is Invalid && exists|i: int| 0 <= i < rest.len() && #[trigger] oversize(rest, i)
                    && forall|j: int| 0 <= j < i ==> #[trigger] joins(rest, j),
            }
        }),
{
    if cursor == sizes.len() {
        if position != batch {
            return Err(corrupt("import destination has history outside its source"));
        }
        return Ok(ImportOffer::Done);
    }
    let rest = vstd::slice::slice_subrange(sizes, cursor, sizes.len());
    let count = batch_len(rest)?;
    proof {
        if count == 0 {
            assert(!oversize(rest@, 0) && closes(rest@, 0));
            assert(rest@.take(0) =~= Seq::<usize>::empty());
        }
    }
    Ok(ImportOffer::Batch { cursor, count })
}
} // verus!
