//! State-format compatibility: legacy format 1 metadata, equivalence of a
//! stored metadata record with the current one, and how recovery failures
//! of a legacy store are reported.
use vstd::prelude::*;
use vstd::string::StringExecFns;
use crate::wire::{bytes_eq, le32};
use super::Error;

verus! {

/// Metadata of legacy format 1: it starts with `1` as a little-endian `u32`.
pub open spec fn is_legacy(bytes: Seq<u8>) -> bool {
    bytes.len() >= 4 && bytes.subrange(0, 4) == le32(1)
}

/// Whether stored metadata is of legacy format 1.
pub fn legacy(bytes: &[u8]) -> (r: bool)
    ensures
        r == is_legacy(bytes@),
{
    if bytes.len() < 4 {
        return false;
    }
    let mut one: Vec<u8> = Vec::new();
    crate::wire::put_u32_le(&mut one, 1);
    proof {
        assert(one@ =~= le32(1));
    }
    bytes_eq(vstd::slice::slice_subrange(bytes, 0, 4), one.as_slice())
}

/// Stored metadata is equivalent to the current one where they are equal,
/// or where the stored one is of legacy format 1, the current one is of
/// format `version`, and they agree after the four version bytes.
pub open spec fn is_equivalent(stored: Seq<u8>, current: Seq<u8>, version: u32) -> bool {
    ||| stored == current
    ||| {
        &&& is_legacy(stored)
        &&& current.len() >= 4
        &&& current.subrange(0, 4) == le32(version)
        &&& stored.subrange(4, stored.len() as int) == current.subrange(4, current.len() as int)
    }
}

/// Whether stored metadata is equivalent to the current metadata of format
/// `version`.
pub fn equivalent(stored: &[u8], current: &[u8], version: u32) -> (r: bool)
    ensures
        r == is_equivalent(stored@, current@, version),
{
    if bytes_eq(stored, current) {
        return true;
    }
    if !legacy(stored) || current.len() < 4 {
        return false;
    }
    let mut v: Vec<u8> = Vec::new();
    crate::wire::put_u32_le(&mut v, version);
    proof {
        assert(v@ =~= le32(version));
    }
    bytes_eq(vstd::slice::slice_subrange(current, 0, 4), v.as_slice())
        && bytes_eq(vstd::slice::slice_subrange(stored, 4, stored.len()), vstd::slice::slice_subrange(current, 4, current.len()))
}

/// What a legacy store that fails to replay with `detail` is reported with.
pub open spec fn replay_message(detail: Seq<char>) -> Seq<char> {
    "legacy native state format 1 does not replay under current commitment semantics ("@ + detail
        + "); preserve the store and use its original writer for diagnosis or explicit export"@
}

/// A store of legacy format 1 that fails to replay as corrupt is reported as
/// unsupported instead, the detail kept in the message; every other failure
/// stands.
pub fn recovery_error(metadata: &[u8], error: Error) -> (r: Error)
    ensures
        is_legacy(metadata@) && error is Corrupt ==> (r matches Error::Unsupported(m) && m@ == replay_message(error->Corrupt_0@)),
        !(is_legacy(metadata@) && error is Corrupt) ==> r == error,
{
    if legacy(metadata) {
        if let Error::Corrupt(detail) = error {
            let mut m = String::from_str("legacy native state format 1 does not replay under current commitment semantics (");
            m.append(detail.as_str());
            m.append("); preserve the store and use its original writer for diagnosis or explicit export");
            return Error::Unsupported(m);
        }
    }
    error
}

} // verus!
