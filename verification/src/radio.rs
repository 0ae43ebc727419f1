//! File transfer bookkeeping: where each part of a file lies, which parts
//! a coverage page still needs, and what a receiver reports.
use vstd::prelude::*;

verus! {

/// Progress through one bounded coverage page.
#[derive(Debug, Clone, Copy, PartialEq, Eq)]
pub struct Page {
    /// Exclusive end of the inspected page, or `None` once coverage is complete.
    pub next: Option<u64>,
    /// Successful deliveries.
    pub received: u64,
}

/// A written part is aligned: it starts inside the file on a part boundary
/// and is a whole part, or the file's tail.
pub open spec fn aligned(offset: u64, len: nat, part: u64, length: u64) -> bool {
    &&& offset < length
    &&& part > 0 && offset % part == 0
    &&& len == if part < length - offset { part as int } else { length - offset }
}

/// Whether a written part is aligned.
pub fn part_aligned(offset: u64, len: usize, part: u32, length: u64) -> (r: bool)
    ensures
        r == aligned(offset, len as nat, part as u64, length),
{
    let part = part as u64;
    if offset >= length || part == 0 || offset % part != 0 {
        return false;
    }
    let rest = length - offset;
    let want = if part < rest { part } else { rest };
    len as u64 == want
}

/// The parts of a coverage page still missing, as (offset, length) requests:
/// each absent part index in order, at its offset, a whole part or the tail.
pub open spec fn missing(coverage: Seq<(u64, bool)>, part: u64, length: u64) -> Seq<(u64, u64)>
    decreases coverage.len(),
{
    if coverage.len() == 0 {
        Seq::empty()
    } else {
        let rest = missing(coverage.drop_last(), part, length);
        let (index, present) = coverage.last();
        if present {
            rest
        } else {
            let offset = (index * part) as u64;
            rest.push((offset, if part < length - offset { part } else { (length - offset) as u64 }))
        }
    }
}

/// The requests for the parts a coverage page lacks. Every part index lies
/// within the file.
pub fn missing_parts(coverage: &[(u64, bool)], part: u32, length: u64) -> (r: Vec<(u64, u64)>)
    requires
        forall|i: int| 0 <= i < coverage@.len() ==> #[trigger] coverage@[i].0 * (part as int) < length,
    ensures
        r@ == missing(coverage@, part as u64, length),
{
    let p = part as u64;
    let mut out: Vec<(u64, u64)> = Vec::new();
    let mut i: usize = 0;
    while i < coverage.len()
        invariant
            i <= coverage@.len(),
            p == part as u64,
            forall|j: int| 0 <= j < coverage@.len() ==> #[trigger] coverage@[j].0 * (part as int) < length,
            out@ == missing(coverage@.take(i as int), p, length),
        decreases coverage@.len() - i,
    {
        proof {
            assert(coverage@.take(i + 1).drop_last() =~= coverage@.take(i as int));
        }
        let (index, present) = coverage[i];
        if !present {
            proof {
                assert(coverage@[i as int].0 * (part as int) < length);
                assert(index * p < length);
            }
            let offset = index * p;
            let rest = length - offset;
            out.push((offset, if p < rest { p } else { rest }));
        }
        i = i + 1;
    }
    proof {
        assert(coverage@.take(coverage@.len() as int) =~= coverage@);
    }
    out
}

} // verus!
