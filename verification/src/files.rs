//! Streamed blob files: the profile their identities are checked under, and
//! the cursor of a reader that fetches one whole part at a time.
use vstd::prelude::*;
use vstd::string::StringSliceAdditionalSpecFns;
use crate::application::blob_profile as spec_profile;
use crate::hash::hemera;
use crate::Particle;

verus! {

/// The profile sealed blob files are verified under.
pub fn blob_profile() -> (p: Particle)
    ensures
        p@ == spec_profile(),
{
    hemera("cybergraph/blob/hemera-sponge".as_bytes())
}

/// Where a seek counts from.
#[derive(Debug, Clone, Copy, PartialEq, Eq)]
pub enum SeekFrom {
    Start(u64),
    Current(i64),
    End(i64),
}

/// A seek that would leave the file's position outside `u64`.
#[derive(Debug, Clone, Copy, PartialEq, Eq)]
pub struct SeekOverflow;

/// The position a seek asks for, where it is a `u64`.
pub open spec fn seek_target(position: u64, length: u64, from: SeekFrom) -> Option<u64> {
    let t: int = match from {
        SeekFrom::Start(n) => n as int,
        SeekFrom::Current(n) => position + n,
        SeekFrom::End(n) => length + n,
    };
    if 0 <= t <= u64::MAX { Some(t as u64) } else { None }
}

/// The read position of a sealed file of `length` bytes stored in parts of
/// `part_bytes`, and the one part it holds, from `cache_start`.
pub struct FileCursor {
    pub length: u64,
    pub part_bytes: u32,
    pub position: u64,
    pub cache_start: u64,
    pub cache: Vec<u8>,
}

impl FileCursor {
    /// Whether the cached part holds the byte at the position.
    pub open spec fn covers(&self) -> bool {
        self.cache_start <= self.position && self.position - self.cache_start < self.cache@.len()
    }

    /// Whether the cached part ends within `u64`.
    pub open spec fn bounded(&self) -> bool {
        self.cache_start + self.cache@.len() <= u64::MAX
    }

    /// A cursor at the start of a file, with nothing cached.
    pub fn new(length: u64, part_bytes: u32) -> (r: Self)
        ensures
            r.length == length,
            r.part_bytes == part_bytes,
            r.position == 0,
            r.cache_start == 0,
            r.cache@.len() == 0,
    {
        FileCursor { length, part_bytes, position: 0, cache_start: 0, cache: Vec::new() }
    }

    /// The part to fetch before a read into a buffer of `wanted` bytes: none
    /// where the read returns at once, being empty or at the end, or where
    /// the cached part holds the position; else the start of the part that
    /// holds it.
    pub fn next_part(&self, wanted: usize) -> (r: Option<u64>)
        requires
            self.part_bytes > 0,
        ensures
            wanted == 0 || self.position >= self.length || self.covers() ==> r is None,
            !(wanted == 0 || self.position >= self.length || self.covers())
                ==> r == Some((self.position / (self.part_bytes as u64) * (self.part_bytes as u64)) as u64),
    {
        if wanted == 0 || self.position >= self.length {
            return None;
        }
        if self.position >= self.cache_start && self.position - self.cache_start < self.cache.len() as u64 {
            return None;
        }
        let size = self.part_bytes as u64;
        let q = self.position / size;
        proof {
            assert(q * size <= self.position) by (nonlinear_arith)
                requires q == self.position / size, size > 0;
        }
        Some(q * size)
    }

    /// Hold the part fetched from `start`.
    pub fn fill(&mut self, start: u64, bytes: Vec<u8>)
        ensures
            final(self).cache_start == start,
            final(self).cache@ == bytes@,
            final(self).position == old(self).position,
            final(self).length == old(self).length,
            final(self).part_bytes == old(self).part_bytes,
    {
        self.cache_start = start;
        self.cache = bytes;
    }

    /// Read from the cached part into `buffer`: as many bytes as both hold
    /// from the position, which moves past them; nothing at the end or into
    /// an empty buffer.
    pub fn read(&mut self, buffer: &mut [u8]) -> (n: usize)
        requires
            old(buffer)@.len() == 0 || old(self).position >= old(self).length || old(self).covers(),
            old(self).bounded(),
        ensures
            old(buffer)@.len() == 0 || old(self).position >= old(self).length ==> n == 0 && final(buffer)@ == old(buffer)@
                && final(self).position == old(self).position,
            !(old(buffer)@.len() == 0 || old(self).position >= old(self).length) ==> {
                let at = old(self).position - old(self).cache_start;
                let rest = old(self).cache@.len() - at;
                &&& n == if old(buffer)@.len() < rest { old(buffer)@.len() as int } else { rest }
                &&& final(buffer)@ == old(self).cache@.subrange(at, at + n) + old(buffer)@.subrange(n as int, old(buffer)@.len() as int)
                &&& final(self).position == old(self).position + n
            },
            final(self).length == old(self).length,
            final(self).part_bytes == old(self).part_bytes,
            final(self).cache_start == old(self).cache_start,
            final(self).cache@ == old(self).cache@,
            final(buffer)@.len() == old(buffer)@.len(),
    {
        if buffer.len() == 0 || self.position >= self.length {
            return 0;
        }
        let gap = self.position - self.cache_start;
        let start = gap as usize;
        let rest = self.cache.len() - start;
        let count = if buffer.len() < rest { buffer.len() } else { rest };
        let ghost before = buffer@;
        let mut i: usize = 0;
        while i < count
            invariant
                i <= count,
                count <= buffer@.len(),
                start + count <= self.cache.len(),
                buffer@.len() == before.len(),
                forall|j: int| 0 <= j < i ==> buffer@[j] == self.cache@[start + j],
                forall|j: int| i <= j < buffer@.len() ==> buffer@[j] == before[j],
            decreases count - i,
        {
            buffer[i] = self.cache[start + i];
            i = i + 1;
        }
        proof {
            assert(buffer@ =~= self.cache@.subrange(start as int, start + count) + before.subrange(count as int, before.len() as int));
        }
        self.position = self.position + count as u64;
        count
    }

    /// Move the position; a target outside `u64` is refused and the
    /// position kept.
    pub fn seek(&mut self, from: SeekFrom) -> (r: Result<u64, SeekOverflow>)
        ensures
            match seek_target(old(self).position, old(self).length, from) {
                Some(t) => r == Ok::<u64, SeekOverflow>(t) && final(self).position == t,
                None => r is Err && final(self).position == old(self).position,
            },
            final(self).length == old(self).length,
            final(self).part_bytes == old(self).part_bytes,
            final(self).cache_start == old(self).cache_start,
            final(self).cache@ == old(self).cache@,
    {
        let target: Option<u64> = match from {
            SeekFrom::Start(n) => Some(n),
            SeekFrom::Current(n) => offset(self.position, n),
            SeekFrom::End(n) => offset(self.length, n),
        };
        match target {
            Some(t) => {
                self.position = t;
                Ok(t)
            },
            None => Err(SeekOverflow),
        }
    }
}

/// `base` moved by `n`, where the result is a `u64`.
fn offset(base: u64, n: i64) -> (r: Option<u64>)
    ensures
        match r {
            Some(t) => t == base + n,
            None => base + n < 0 || base + n > u64::MAX,
        },
{
    if n >= 0 {
        let m = n as u64;
        base.checked_add(m)
    } else if n == i64::MIN {
        let back: u64 = 9223372036854775808;
        if base >= back { Some(base - back) } else { None }
    } else {
        let back = (-n) as u64;
        if base >= back { Some(base - back) } else { None }
    }
}

} // verus!
