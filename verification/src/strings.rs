//! UTF-8 text from bytes, as std validates it.
use vstd::prelude::*;
use vstd::string::StringSliceAdditionalSpecFns;
use vstd::utf8::{encode_utf8, valid_utf8};

verus! {

/// Calls `std::str::from_utf8`. Trusted, as its documentation states: the
/// bytes are accepted exactly when they are valid UTF-8, and the text
/// returned is made of those bytes.
#[verifier::external_body]
pub(crate) fn utf8(bytes: &[u8]) -> (r: Option<&str>)
    ensures
        r is Some <==> valid_utf8(bytes@),
        r matches Some(s) ==> s.spec_bytes() == bytes@,
{
    std::str::from_utf8(bytes).ok()
}

/// Calls `String::from_utf8`. Trusted, as its documentation states: the
/// bytes are accepted exactly when they are valid UTF-8, and the string
/// holds those bytes.
#[verifier::external_body]
pub(crate) fn utf8_string(bytes: Vec<u8>) -> (r: Option<String>)
    ensures
        r is Some <==> valid_utf8(bytes@),
        r matches Some(s) ==> encode_utf8(s@) == bytes@,
{
    String::from_utf8(bytes).ok()
}

} // verus!
