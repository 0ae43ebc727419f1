//! Reading committed data: block pages, single blocks, the compatibility
//! wire log and history pages.
use vstd::prelude::*;
use crate::wire::{be64, bytes_eq, le64, lemma_int_codecs, u64_be};
use super::codec::{decode_block, decode_history, history_ok, is_block, spec_block, spec_history};
use super::recovery::record_views;
use super::{corrupt, invalid, Block, Error, HistoryRecord, Receipt, MAX_OPERATION_BYTES};

verus! {

/// Most blocks in one page.
pub const MAX_BLOCK_PAGE: usize = 500;
/// Most bytes in one page of the wire log.
pub const MAX_WIRE_PAGE: usize = 16777216;
/// Most entries in one history page.
pub const MAX_HISTORY_PAGE: usize = 64;

/// The newest height a block page starts from: just below the exclusive
/// cursor `before` (or the tip, without one), and never above the tip.
pub open spec fn page_start(before: Option<u64>, height: u64) -> u64 {
    let b: u64 = match before {
        Some(b) => b,
        None => if height == u64::MAX { u64::MAX } else { (height + 1) as u64 },
    };
    let s: u64 = if b == 0 { 0 } else { (b - 1) as u64 };
    if s < height { s } else { height }
}

/// The heights of one page of blocks, newest first: from the page start
/// down, at most `limit` of them, none below 1.
pub fn block_page(before: Option<u64>, limit: usize, height: u64) -> (r: Result<Vec<u64>, Error>)
    ensures
        match r {
            Ok(hs) => {
                &&& 1 <= limit <= MAX_BLOCK_PAGE
                &&& hs@.len() == if (limit as int) < (page_start(before, height) as int) { limit as int } else { page_start(before, height) as int }
                &&& forall|i: int| 0 <= i < hs@.len() ==> #[trigger] hs@[i] == page_start(before, height) - i
            },
            Err(e) => (limit == 0 || limit > MAX_BLOCK_PAGE) && e is Invalid,
        },
{
    if limit == 0 || limit > MAX_BLOCK_PAGE {
        return Err(invalid("block page limit must be 1..500"));
    }
    let b = match before {
        Some(b) => b,
        None => height.saturating_add(1),
    };
    let s = b.saturating_sub(1);
    let start = if s < height { s } else { height };
    let mut h = start;
    let mut hs: Vec<u64> = Vec::new();
    while h > 0 && hs.len() < limit
        invariant
            start == page_start(before, height),
            h <= start,
            hs@.len() == start - h,
            hs@.len() <= limit,
            forall|i: int| 0 <= i < hs@.len() ==> #[trigger] hs@[i] == start - i,
        decreases h,
    {
        hs.push(h);
        h = h - 1;
    }
    Ok(hs)
}

/// Check a block read by height: a committed height must have its block,
/// and a stored block must decode and carry the height it is filed under.
pub fn check_block(height: u64, tip: u64, stored: Option<&[u8]>) -> (r: Result<Option<Block>, Error>)
    ensures
        match stored {
            None => if 0 < height && height <= tip { r matches Err(Error::Corrupt(_)) } else { r matches Ok(None) },
            Some(b) => match r {
                Ok(Some(v)) => spec_block(v) == b@ && v.height == height,
                Ok(None) => false,
                Err(e) => e is Corrupt && !(exists|v: Block| spec_block(v) == b@ && v.signal@.len() <= MAX_OPERATION_BYTES && v.height == height),
            },
        },
{
    match stored {
        None => {
            if height > 0 && height <= tip {
                return Err(corrupt("missing committed block"));
            }
            Ok(None)
        },
        Some(bytes) => {
            let block = decode_block(bytes)?;
            if block.height != height {
                proof {
                    lemma_int_codecs();
                    assert forall|v: Block| spec_block(v) == bytes@ && v.signal@.len() <= MAX_OPERATION_BYTES implies v.height != height by {
                        assert(spec_block(v).subrange(4, 12) =~= le64(v.height));
                        assert(spec_block(block).subrange(4, 12) =~= le64(block.height));
                    }
                }
                return Err(corrupt("block height differs from key"));
            }
            Ok(Some(block))
        },
    }
}

/// Where a wire-log read starts: `None` for an empty read at the end of an
/// exportable log, else the cursor. A page holds 1 to 16 MiB; the cursor
/// must not pass the end; at the end of a log that legacy wire could not
/// represent, the read is unsupported.
pub fn wire_cursor(from: usize, limit: usize, wire_end: u64, blocked: bool) -> (r: Result<Option<u64>, Error>)
    ensures
        limit == 0 || limit > MAX_WIRE_PAGE ==> r matches Err(Error::Invalid(_)),
        1 <= limit <= MAX_WIRE_PAGE ==> {
            if from > wire_end {
                r matches Err(Error::Invalid(_))
            } else if from == wire_end {
                if blocked { r matches Err(Error::Unsupported(_)) } else { r matches Ok(None) }
            } else {
                r == Ok::<Option<u64>, Error>(Some(from as u64))
            }
        },
{
    if limit == 0 || limit > MAX_WIRE_PAGE {
        return Err(invalid("wire page byte limit"));
    }
    let from = from as u64;
    if from > wire_end {
        return Err(invalid("wire cursor exceeds committed log"));
    }
    if from == wire_end {
        if blocked {
            return Err(Error::Unsupported("legacy wire cannot represent retained network/proof; use native history".to_string()));
        }
        return Ok(None);
    }
    Ok(Some(from))
}

/// The first frame of a wire page: there must be a frame at the cursor,
/// and it must fit the page.
pub fn wire_first(first: Option<Vec<u8>>, limit: usize) -> (r: Result<Vec<u8>, Error>)
    ensures
        match first {
            None => r matches Err(Error::Invalid(_)),
            Some(f) => if f@.len() > limit { r matches Err(Error::Invalid(_)) } else { r matches Ok(out) && out@ == f@ },
        },
{
    match first {
        None => Err(invalid("wire cursor is inside a frame")),
        Some(f) => {
            if f.len() > limit {
                return Err(invalid("wire page cannot fit one complete frame"));
            }
            Ok(f)
        },
    }
}

/// A wire page after the frames that follow it: each frame must be keyed by
/// the offset where it continues the page; the page ends before the first
/// frame that does not fit (`true`); `None` where a frame is out of place.
pub open spec fn wire_after(from: u64, limit: nat, out: Seq<u8>, rows: Seq<(Seq<u8>, Seq<u8>)>) -> Option<(Seq<u8>, bool)>
    decreases rows.len(),
{
    if rows.len() == 0 {
        Some((out, false))
    } else {
        match wire_after(from, limit, out, rows.drop_last()) {
            None => None,
            Some((o, true)) => Some((o, true)),
            Some((o, false)) => {
                let (key, frame) = rows.last();
                if key != be64((from + o.len()) as u64) {
                    None
                } else if frame.len() + o.len() > limit {
                    Some((o, true))
                } else {
                    Some((o + frame, false))
                }
            },
        }
    }
}

proof fn lemma_wire_after_bound(from: u64, limit: nat, out: Seq<u8>, rows: Seq<(Seq<u8>, Seq<u8>)>)
    requires
        out.len() <= limit,
    ensures
        wire_after(from, limit, out, rows) matches Some((o, _)) ==> o.len() <= limit,
    decreases rows.len(),
{
    if rows.len() > 0 {
        lemma_wire_after_bound(from, limit, out, rows.drop_last());
    }
}

proof fn lemma_wire_fail(from: u64, limit: nat, out: Seq<u8>, rows: Seq<(Seq<u8>, Seq<u8>)>, j: int)
    requires
        0 <= j <= rows.len(),
        wire_after(from, limit, out, rows.take(j)) is None,
    ensures
        wire_after(from, limit, out, rows) is None,
    decreases rows.len() - j,
{
    if j < rows.len() {
        assert(rows.take(j + 1).drop_last() =~= rows.take(j));
        lemma_wire_fail(from, limit, out, rows, j + 1);
    } else {
        assert(rows.take(j) =~= rows);
    }
}

proof fn lemma_wire_done(from: u64, limit: nat, out: Seq<u8>, rows: Seq<(Seq<u8>, Seq<u8>)>, j: int, o: Seq<u8>)
    requires
        0 <= j <= rows.len(),
        wire_after(from, limit, out, rows.take(j)) == Some((o, true)),
    ensures
        wire_after(from, limit, out, rows) == Some((o, true)),
    decreases rows.len() - j,
{
    if j < rows.len() {
        assert(rows.take(j + 1).drop_last() =~= rows.take(j));
        lemma_wire_done(from, limit, out, rows, j + 1, o);
    } else {
        assert(rows.take(j) =~= rows);
    }
}

/// Continue a wire page with the next rows of the export; `true` once the
/// page is complete.
pub fn wire_page(from: u64, limit: usize, out: &mut Vec<u8>, rows: &[(Vec<u8>, Vec<u8>)]) -> (r: Result<bool, Error>)
    requires
        old(out)@.len() <= limit,
        from + limit <= u64::MAX,
    ensures
        match r {
            Ok(done) => wire_after(from, limit as nat, old(out)@, record_views(rows@)) == Some((final(out)@, done)),
            Err(e) => wire_after(from, limit as nat, old(out)@, record_views(rows@)) is None && e is Corrupt,
        },
{
    let ghost rv = record_views(rows@);
    let ghost start = out@;
    let mut i: usize = 0;
    while i < rows.len()
        invariant
            i <= rows@.len(),
            rv == record_views(rows@),
            start == old(out)@,
            start.len() <= limit,
            from + limit <= u64::MAX,
            wire_after(from, limit as nat, start, rv.take(i as int)) == Some((out@, false)),
        decreases rows@.len() - i,
    {
        proof {
            assert(rv.take(i + 1).drop_last() =~= rv.take(i as int));
            assert(rv[i as int] == (rows@[i as int].0@, rows@[i as int].1@));
            lemma_wire_after_bound(from, limit as nat, start, rv.take(i as int));
        }
        let key = u64_be(from + out.len() as u64);
        if !bytes_eq(rows[i].0.as_slice(), key.as_slice()) {
            proof {
                lemma_wire_fail(from, limit as nat, start, rv, i + 1);
            }
            return Err(corrupt("wire gap"));
        }
        if rows[i].1.len() > limit - out.len() {
            proof {
                lemma_wire_done(from, limit as nat, start, rv, i + 1, out@);
            }
            return Ok(true);
        }
        crate::wire::append(out, rows[i].1.as_slice());
        i = i + 1;
    }
    proof {
        assert(rv.take(rows@.len() as int) =~= rv);
    }
    Ok(false)
}

/// The position the first entry after cursor `after` has.
pub open spec fn first_after(after: Option<u64>) -> u64 {
    match after {
        Some(a) => if a == u64::MAX { u64::MAX } else { (a + 1) as u64 },
        None => 1,
    }
}

/// The position the `i`-th entry of a page after `after` has.
pub open spec fn nth_after(after: Option<u64>, i: int) -> u64 {
    if first_after(after) + i > u64::MAX { u64::MAX } else { (first_after(after) + i) as u64 }
}

/// A history record holds the entry at position `p`, keyed by it.
pub open spec fn holds_entry(row: (Seq<u8>, Seq<u8>), p: u64) -> bool {
    exists|h: HistoryRecord| spec_history(h) == row.1 && history_ok(h) && h.receipt.position == p && row.0 == be64(p)
}

/// A history record gives the entry at position `p` with this receipt and
/// command, keyed by its position.
pub open spec fn gives_entry(row: (Seq<u8>, Seq<u8>), receipt: Receipt, command: Seq<u8>, p: u64) -> bool {
    exists|h: HistoryRecord| #[trigger] spec_history(h) == row.1 && history_ok(h) && h.receipt == receipt && h.command == command
        && h.receipt.position == p && row.0 == be64(p)
}

/// One page of history: 1 to 64 entries requested; an empty page is only
/// right past the head; each record must be the next entry, keyed by its
/// position; each gives its receipt and command.
pub fn history_page(after: Option<u64>, limit: usize, position: u64, rows: &[(Vec<u8>, Vec<u8>)]) -> (r: Result<Vec<(Receipt, Vec<u8>)>, Error>)
    ensures
        limit == 0 || limit > MAX_HISTORY_PAGE ==> r matches Err(Error::Invalid(_)),
        1 <= limit <= MAX_HISTORY_PAGE ==> match r {
            Ok(out) => {
                &&& !(rows@.len() == 0 && first_after(after) <= position)
                &&& out@.len() == rows@.len()
                &&& forall|i: int| 0 <= i < rows@.len() ==> #[trigger] gives_entry(record_views(rows@)[i], out@[i].0, out@[i].1@, nth_after(after, i))
            },
            Err(e) => e is Corrupt && ((rows@.len() == 0 && first_after(after) <= position)
                || exists|i: int| 0 <= i < rows@.len() && !holds_entry(record_views(rows@)[i], nth_after(after, i))),
        },
{
    if limit == 0 || limit > MAX_HISTORY_PAGE {
        return Err(invalid("history page limit must be 1..64"));
    }
    let mut expected: u64 = match after {
        Some(a) => a.saturating_add(1),
        None => 1,
    };
    if rows.len() == 0 && expected <= position {
        return Err(corrupt("missing committed history page"));
    }
    let ghost rv = record_views(rows@);
    let mut out: Vec<(Receipt, Vec<u8>)> = Vec::new();
    let mut i: usize = 0;
    while i < rows.len()
        invariant
            i <= rows@.len(),
            rv == record_views(rows@),
            1 <= limit <= MAX_HISTORY_PAGE,
            !(rows@.len() == 0 && first_after(after) <= position),
            expected == nth_after(after, i as int),
            out@.len() == i,
            forall|j: int| 0 <= j < i ==> #[trigger] gives_entry(rv[j], out@[j].0, out@[j].1@, nth_after(after, j)),
        decreases rows@.len() - i,
    {
        proof {
            assert(rv[i as int] == (rows@[i as int].0@, rows@[i as int].1@));
        }
        let h = match decode_history(rows[i].1.as_slice()) {
            Ok(h) => h,
            Err(e) => {
                proof {
                    assert(!holds_entry(rv[i as int], nth_after(after, i as int)));
                }
                return Err(e);
            },
        };
        let key = u64_be(h.receipt.position);
        if !bytes_eq(rows[i].0.as_slice(), key.as_slice()) || h.receipt.position != expected {
            proof {
                assert(!holds_entry(rv[i as int], nth_after(after, i as int))) by {
                    if holds_entry(rv[i as int], nth_after(after, i as int)) {
                        let w = choose|w: HistoryRecord| spec_history(w) == rv[i as int].1 && history_ok(w) && w.receipt.position == nth_after(after, i as int) && rv[i as int].0 == be64(nth_after(after, i as int));
                        super::laws::law_history_round_trip(w, h@);
                    }
                }
            }
            return Err(corrupt("history position differs from key"));
        }
        let ghost hv = h@;
        let ghost old_out = out@;
        expected = expected.saturating_add(1);
        out.push((h.receipt, h.command));
        proof {
            assert(out@[i as int].0 == hv.receipt && out@[i as int].1@ == hv.command);
            assert(spec_history(hv) == rv[i as int].1 && history_ok(hv) && hv.receipt == out@[i as int].0 && hv.command == out@[i as int].1@
                && hv.receipt.position == nth_after(after, i as int) && rv[i as int].0 == be64(nth_after(after, i as int)));
            assert(gives_entry(rv[i as int], out@[i as int].0, out@[i as int].1@, nth_after(after, i as int)));
            assert forall|j: int| 0 <= j < i + 1 implies #[trigger] gives_entry(rv[j], out@[j].0, out@[j].1@, nth_after(after, j)) by {
                if j < i {
                    assert(out@[j] == old_out[j]);
                }
            }
        }
        i = i + 1;
    }
    Ok(out)
}

} // verus!
