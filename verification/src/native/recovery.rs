//! Opening a native store: the pinned configuration, and the checks that
//! replayed state, counters, exports and metadata agree with what is stored.
use vstd::prelude::*;
use crate::wire::{be64, bytes_eq, u64_be};
use super::codec::{bytes_out, framed};
use super::format::{equivalent, is_equivalent};
use super::codec::{decode_head, decode_history, decode_operation, history_ok, is_head, is_history, is_operation, spec_head, spec_history, spec_operation};
use super::commit::{digest_of, instance, instance_domain};
use super::import::{decode_marker, is_marker, spec_marker};
use super::{corrupt, invalid, Error, Head, History, Operation};
use crate::Particle;

verus! {

/// The execution profile every native store is pinned to:
/// `cybergraph/local-chaosnet/v1`.
pub open spec fn profile() -> Seq<u8> {
    seq![99u8, 121, 98, 101, 114, 103, 114, 97, 112, 104, 47, 108, 111, 99, 97, 108, 45, 99, 104, 97, 111, 115, 110, 101, 116, 47, 118, 49]
}

/// `"CGCONFIG\x01"`, the configuration record version.
pub open spec fn config_magic() -> Seq<u8> {
    seq![67u8, 71, 67, 79, 78, 70, 73, 71, 1]
}

/// Most bytes of a genesis.
pub const MAX_GENESIS_BYTES: usize = 4096;

/// The configuration record: version, then the profile and the genesis,
/// each framed by its length.
pub open spec fn spec_configuration(genesis: Seq<u8>) -> Seq<u8> {
    config_magic() + framed(profile()) + framed(genesis)
}

/// The configuration record for a genesis of 1 to 4096 bytes.
pub fn configuration(genesis: &[u8]) -> (r: Result<Vec<u8>, Error>)
    ensures
        match r {
            Ok(c) => 1 <= genesis@.len() <= MAX_GENESIS_BYTES && c@ == spec_configuration(genesis@),
            Err(e) => (genesis@.len() == 0 || genesis@.len() > MAX_GENESIS_BYTES) && e is Invalid,
        },
{
    if genesis.len() == 0 || genesis.len() > MAX_GENESIS_BYTES {
        return Err(invalid("genesis byte limit"));
    }
    let magic: [u8; 9] = [67, 71, 67, 79, 78, 70, 73, 71, 1];
    let profile_bytes: [u8; 28] = [
        99, 121, 98, 101, 114, 103, 114, 97, 112, 104, 47, 108, 111, 99, 97, 108, 45, 99, 104, 97, 111, 115, 110, 101, 116, 47, 118, 49,
    ];
    proof {
        assert(magic@ =~= config_magic());
        assert(profile_bytes@ =~= profile());
    }
    let mut config: Vec<u8> = Vec::new();
    crate::wire::append(&mut config, magic.as_slice());
    let a = bytes_out(&mut config, profile_bytes.as_slice());
    let b = bytes_out(&mut config, genesis);
    proof {
        assert(a is Ok && b is Ok);
        assert(config@ =~= spec_configuration(genesis@));
    }
    Ok(config)
}

/// A store opened with one genesis is refused under another: different
/// genesis values have different configuration records, and `pinned`
/// refuses a stored record that is not the current one.
pub proof fn law_other_genesis_refused(stored: Seq<u8>, genesis: Seq<u8>)
    requires
        stored != genesis,
    ensures
        spec_configuration(stored) != spec_configuration(genesis),
{
    crate::wire::lemma_int_codecs();
    let a = spec_configuration(stored);
    let b = spec_configuration(genesis);
    if a == b {
        let head = config_magic() + framed(profile());
        assert(a =~= head + framed(stored));
        assert(b =~= head + framed(genesis));
        assert(a.subrange(head.len() as int, a.len() as int) =~= framed(stored));
        assert(b.subrange(head.len() as int, b.len() as int) =~= framed(genesis));
        assert(framed(stored).subrange(4, framed(stored).len() as int) =~= stored);
        assert(framed(genesis).subrange(4, framed(genesis).len() as int) =~= genesis);
    }
}

/// Whether a store is new: a stored configuration must be this one (then
/// the store is not new); without one, every native domain must be empty
/// (then it is).
pub fn pinned(existing: Option<&[u8]>, config: &[u8], domains_empty: bool) -> (r: Result<bool, Error>)
    ensures
        match existing {
            Some(e) => if e@ == config@ { r matches Ok(false) } else { r matches Err(Error::Corrupt(_)) },
            None => if domains_empty { r matches Ok(true) } else { r matches Err(Error::Corrupt(_)) },
        },
{
    match existing {
        Some(e) => {
            if !bytes_eq(e, config) {
                Err(corrupt("genesis or execution profile differs from durable store"))
            } else {
                Ok(false)
            }
        },
        None => {
            if !domains_empty {
                Err(corrupt("uninitialized native store contains records"))
            } else {
                Ok(true)
            }
        },
    }
}

/// The views of key-value records.
pub open spec fn record_views(rs: Seq<(Vec<u8>, Vec<u8>)>) -> Seq<(Seq<u8>, Seq<u8>)> {
    rs.map_values(|r: (Vec<u8>, Vec<u8>)| (r.0@, r.1@))
}

/// A stored record matches an expected one: the same key, and the same
/// value, except that the state metadata record (key `[0]` of the state
/// domain) need only be equivalent.
pub open spec fn row_matches(row: (Seq<u8>, Seq<u8>), exp: (Seq<u8>, Seq<u8>), state: bool, version: u32) -> bool {
    &&& exp.0 == row.0
    &&& if state && exp.0 == seq![0u8] { is_equivalent(row.1, exp.1, version) } else { exp.1 == row.1 }
}

/// Stored records agree with the expected ones, one for one and in order.
pub open spec fn records_agree(rows: Seq<(Seq<u8>, Seq<u8>)>, expected: Seq<(Seq<u8>, Seq<u8>)>, state: bool, version: u32) -> bool {
    &&& rows.len() == expected.len()
    &&& forall|i: int| 0 <= i < rows.len() ==> #[trigger] row_matches(rows[i], expected[i], state, version)
}

/// Check that the stored records of a domain are exactly the expected ones.
pub fn compare(rows: &[(Vec<u8>, Vec<u8>)], expected: &[(Vec<u8>, Vec<u8>)], state: bool, version: u32) -> (r: Result<(), Error>)
    ensures
        r is Ok <==> records_agree(record_views(rows@), record_views(expected@), state, version),
        r matches Err(e) ==> e is Corrupt,
{
    let ghost rv = record_views(rows@);
    let ghost ev = record_views(expected@);
    let mut i: usize = 0;
    while i < rows.len()
        invariant
            i <= rows@.len(),
            rv == record_views(rows@),
            ev == record_views(expected@),
            i <= expected@.len(),
            forall|j: int| 0 <= j < i ==> #[trigger] row_matches(rv[j], ev[j], state, version),
        decreases rows@.len() - i,
    {
        if i >= expected.len() {
            return Err(corrupt("exact state mismatch"));
        }
        let row = &rows[i];
        let exp = &expected[i];
        proof {
            assert(rv[i as int] == (row.0@, row.1@));
            assert(ev[i as int] == (exp.0@, exp.1@));
        }
        let key_ok = bytes_eq(exp.0.as_slice(), row.0.as_slice());
        let zero: [u8; 1] = [0];
        proof {
            assert(zero@ =~= seq![0u8]);
        }
        let is_meta = state && bytes_eq(exp.0.as_slice(), zero.as_slice());
        let value_ok = if is_meta {
            equivalent(row.1.as_slice(), exp.1.as_slice(), version)
        } else {
            bytes_eq(exp.1.as_slice(), row.1.as_slice())
        };
        if !(key_ok && value_ok) {
            proof {
                assert(!row_matches(rv[i as int], ev[i as int], state, version));
            }
            return Err(corrupt("exact state mismatch"));
        }
        i = i + 1;
    }
    if expected.len() > rows.len() {
        return Err(corrupt("missing state"));
    }
    Ok(())
}

/// The sum of page sizes.
pub open spec fn page_total(pages: Seq<usize>) -> nat
    decreases pages.len(),
{
    if pages.len() == 0 { 0 } else { page_total(pages.drop_last()) + pages.last() as nat }
}

proof fn lemma_page_total_grows(pages: Seq<usize>, j: int)
    requires
        0 <= j <= pages.len(),
    ensures
        page_total(pages.take(j)) <= page_total(pages),
    decreases pages.len() - j,
{
    if j < pages.len() {
        assert(pages.take(j + 1).drop_last() =~= pages.take(j));
        lemma_page_total_grows(pages, j + 1);
    } else {
        assert(pages.take(j) =~= pages);
    }
}

/// The number of records of a domain, read page by page.
pub fn count(pages: &[usize]) -> (r: Result<u64, Error>)
    ensures
        match r {
            Ok(n) => n == page_total(pages@),
            Err(e) => page_total(pages@) > u64::MAX && e is Corrupt,
        },
{
    let mut n: u64 = 0;
    let mut i: usize = 0;
    while i < pages.len()
        invariant
            i <= pages@.len(),
            n == page_total(pages@.take(i as int)),
        decreases pages@.len() - i,
    {
        proof {
            assert(pages@.take(i + 1).drop_last() =~= pages@.take(i as int));
        }
        match n.checked_add(pages[i] as u64) {
            Some(m) => n = m,
            None => {
                proof {
                    lemma_page_total_grows(pages@, i as int + 1);
                }
                return Err(corrupt("record count overflow"));
            },
        }
        i = i + 1;
    }
    proof {
        assert(pages@.take(pages@.len() as int) =~= pages@);
    }
    Ok(n)
}

/// The sum of the value lengths of records.
pub open spec fn value_total(rs: Seq<(Seq<u8>, Seq<u8>)>) -> nat
    decreases rs.len(),
{
    if rs.len() == 0 { 0 } else { value_total(rs.drop_last()) + rs.last().1.len() }
}

/// The compatibility export is contiguous: each frame is keyed by its
/// big-endian offset, the offsets fit, and the export ends at `wire_end`.
pub open spec fn export_ok(rs: Seq<(Seq<u8>, Seq<u8>)>, wire_end: u64) -> bool {
    &&& forall|i: int| 0 <= i < rs.len() ==> value_total(#[trigger] rs.take(i + 1)) <= u64::MAX
    &&& forall|i: int| 0 <= i < rs.len() ==> #[trigger] rs[i].0 == be64(value_total(rs.take(i)) as u64)
    &&& value_total(rs) == wire_end
}

/// Check the compatibility export against the head's wire end.
pub fn check_export(rows: &[(Vec<u8>, Vec<u8>)], wire_end: u64) -> (r: Result<(), Error>)
    ensures
        r is Ok <==> export_ok(record_views(rows@), wire_end),
        r matches Err(e) ==> e is Corrupt,
{
    let ghost rv = record_views(rows@);
    let mut offset: u64 = 0;
    let mut i: usize = 0;
    while i < rows.len()
        invariant
            i <= rows@.len(),
            rv == record_views(rows@),
            offset == value_total(rv.take(i as int)),
            forall|j: int| 0 <= j < i ==> value_total(#[trigger] rv.take(j + 1)) <= u64::MAX,
            forall|j: int| 0 <= j < i ==> #[trigger] rv[j].0 == be64(value_total(rv.take(j)) as u64),
        decreases rows@.len() - i,
    {
        proof {
            assert(rv.take(i + 1).drop_last() =~= rv.take(i as int));
            assert(rv[i as int] == (rows@[i as int].0@, rows@[i as int].1@));
        }
        let key = u64_be(offset);
        if !bytes_eq(rows[i].0.as_slice(), key.as_slice()) {
            proof {
                assert(value_total(rv.take(i as int)) as u64 == offset);
                assert(rv[i as int].0 != be64(value_total(rv.take(i as int)) as u64));
            }
            return Err(corrupt("noncontiguous compatibility export"));
        }
        match offset.checked_add(rows[i].1.len() as u64) {
            Some(n) => offset = n,
            None => {
                return Err(corrupt("wire offset overflow"));
            },
        }
        i = i + 1;
    }
    proof {
        assert(rv.take(rows@.len() as int) =~= rv);
    }
    if offset != wire_end {
        return Err(corrupt("wire endpoint mismatch"));
    }
    Ok(())
}

/// The metadata keys a native store may hold: `head`, `config` and `import`.
pub open spec fn known_key(k: Seq<u8>) -> bool {
    ||| k == seq![104u8, 101, 97, 100]
    ||| k == seq![99u8, 111, 110, 102, 105, 103]
    ||| k == seq![105u8, 109, 112, 111, 114, 116]
}

/// Check that the store holds no unknown metadata.
pub fn check_metadata(keys: &[Vec<u8>]) -> (r: Result<(), Error>)
    ensures
        r is Ok <==> forall|i: int| 0 <= i < keys@.len() ==> known_key(#[trigger] keys@[i]@),
        r matches Err(e) ==> e is Corrupt,
{
    let head: [u8; 4] = [104, 101, 97, 100];
    let config: [u8; 6] = [99, 111, 110, 102, 105, 103];
    let import: [u8; 6] = [105, 109, 112, 111, 114, 116];
    proof {
        assert(head@ =~= seq![104u8, 101, 97, 100]);
        assert(config@ =~= seq![99u8, 111, 110, 102, 105, 103]);
        assert(import@ =~= seq![105u8, 109, 112, 111, 114, 116]);
    }
    let mut i: usize = 0;
    while i < keys.len()
        invariant
            i <= keys@.len(),
            head@ == seq![104u8, 101, 97, 100],
            config@ == seq![99u8, 111, 110, 102, 105, 103],
            import@ == seq![105u8, 109, 112, 111, 114, 116],
            forall|j: int| 0 <= j < i ==> known_key(#[trigger] keys@[j]@),
        decreases keys@.len() - i,
    {
        let k = keys[i].as_slice();
        if !(bytes_eq(k, head.as_slice()) || bytes_eq(k, config.as_slice()) || bytes_eq(k, import.as_slice())) {
            return Err(corrupt("unknown native metadata"));
        }
        i = i + 1;
    }
    Ok(())
}

/// The next history record on replay must be keyed by the next position.
pub fn replay_key(position: u64, key: &[u8]) -> (r: Result<u64, Error>)
    ensures
        match r {
            Ok(p) => position < u64::MAX && p == position + 1 && key@ == be64(p),
            Err(e) => (position == u64::MAX || key@ != be64((position + 1) as u64)) && e is Corrupt,
        },
{
    let expected = match position.checked_add(1) {
        Some(p) => p,
        None => return Err(corrupt("history overflow")),
    };
    let k = u64_be(expected);
    if !bytes_eq(key, k.as_slice()) {
        return Err(corrupt("noncontiguous native history"));
    }
    Ok(expected)
}


/// How a store opens: its pinned configuration, whether it is fresh, and
/// the instance the configuration identifies.
#[derive(Debug)]
pub struct Opened {
    pub config: Vec<u8>,
    pub fresh: bool,
    pub instance: Particle,
}

/// The first step of reopening a store: the configuration the genesis pins
/// must be the stored one (or, for a store with no configuration, the
/// native domains must be empty, and the store is fresh); its instance
/// follows from it; and an import that stopped part way may only be opened
/// to resume it.
pub fn reopen_start(genesis: &[u8], existing: Option<&[u8]>, domains_empty: bool, import: Option<&[u8]>, max_events: u64, importing: bool)
    -> (r: Result<Opened, Error>)
    ensures
        (genesis@.len() == 0 || genesis@.len() > MAX_GENESIS_BYTES) ==> r matches Err(Error::Invalid(_)),
        1 <= genesis@.len() <= MAX_GENESIS_BYTES ==> ({
            let config = spec_configuration(genesis@);
            match existing {
                Some(e) if e@ != config => r matches Err(Error::Corrupt(_)),
                None if !domains_empty => r matches Err(Error::Corrupt(_)),
                _ => match import {
                    Some(m) if !is_marker(m@, max_events) => r matches Err(Error::Corrupt(_)),
                    Some(m) if !importing && exists|k: super::import::Marker| #[trigger] spec_marker(k) == m@ && k.events <= max_events && !k.complete
                        => r matches Err(Error::Corrupt(_)),
                    _ => r matches Ok(o) && o.config@ == config && o.fresh == existing is None
                        && o.instance@ == digest_of(instance_domain(), seq![config]),
                },
            }
        }),
{
    let config = configuration(genesis)?;
    let fresh = pinned(existing, config.as_slice(), domains_empty)?;
    let id = instance(config.as_slice());
    if let Some(m) = import {
        let marker = decode_marker(m, max_events)?;
        if !importing && !marker.complete {
            proof {
                assert(super::import::spec_marker(marker) == m@);
            }
            return Err(corrupt("legacy import incomplete; resume explicit import with the same source"));
        }
        proof {
            assert forall|k: super::import::Marker| #[trigger] spec_marker(k) == m@ && k.events <= max_events implies k == marker by {
                super::import::law_marker_round_trip(marker, k, max_events);
            }
        }
    }
    Ok(Opened { config, fresh, instance: id })
}

/// One history entry to replay: its position, the entry, and its command
/// as an operation.
#[derive(Debug)]
pub struct Replay {
    pub position: u64,
    pub history: History,
    pub operation: Operation,
}

/// A step of reopening: the history row `key`, `bytes` must be the entry
/// right after `position`, decode as a history entry, and hold a command
/// that decodes as an operation. The node then executes that operation
/// again with the entry's request identity and timestamp and compares what
/// it writes with what is stored.
pub fn replay_row(position: u64, key: &[u8], bytes: &[u8]) -> (r: Result<Replay, Error>)
    ensures
        (position == u64::MAX || key@ != be64((position + 1) as u64)) ==> r matches Err(Error::Corrupt(_)),
        position < u64::MAX && key@ == be64((position + 1) as u64) && !is_history(bytes@) ==> r matches Err(Error::Corrupt(_)),
        r matches Ok(rp) ==> rp.position == position + 1 && spec_history(rp.history@) == bytes@
            && spec_operation(rp.operation@) == rp.history@.command,
        position < u64::MAX && key@ == be64((position + 1) as u64) && is_history(bytes@) ==> (r is Ok
            <==> (exists|h: super::HistoryRecord| #[trigger] spec_history(h) == bytes@ && history_ok(h) && is_operation(h.command))),
{
    let next = replay_key(position, key)?;
    let history = decode_history(bytes)?;
    match decode_operation(history.command.as_slice()) {
        Ok(operation) => Ok(Replay { position: next, history, operation }),
        Err(e) => {
            proof {
                assert forall|h: super::HistoryRecord| #[trigger] spec_history(h) == bytes@ && history_ok(h) implies !is_operation(h.command) by {
                    super::laws::law_history_round_trip(history@, h);
                }
            }
            Err(e)
        },
    }
}

/// The last step of reopening: the head that replaying the history rebuilt
/// must be the head stored on disk.
pub fn replayed_head(replayed: &Head, disk: &[u8]) -> (r: Result<(), Error>)
    ensures
        r is Ok <==> is_head(disk@) && spec_head(*replayed) == disk@,
        r matches Err(e) ==> e matches Error::Corrupt(_),
{
    let stored = decode_head(disk)?;
    if stored.position == replayed.position && stored.signals == replayed.signals && stored.wire_end == replayed.wire_end
        && stored.wire_blocked == replayed.wire_blocked && crate::content::particle_eq(&stored.history_hash, &replayed.history_hash) {
        Ok(())
    } else {
        proof {
            super::laws::law_head_round_trip(stored, *replayed);
        }
        Err(corrupt("replayed native head differs from disk"))
    }
}
} // verus!
