//! Trusted surface over std's UTF-8 decoding.

use vstd::prelude::*;
use vstd::utf8::{encode_utf8, valid_utf8};

verus! {

/// Relies on String::from_utf8: succeeds exactly on valid UTF-8 and
/// returns the string whose encoding is the input.
#[verifier::external_body]
pub fn string_from_utf8(b: Vec<u8>) -> (r: Option<String>)
    ensures
        match r {
            Some(s) => encode_utf8(s@) == b@,
            None => !valid_utf8(b@),
        },
{
    String::from_utf8(b).ok()
}

} // verus!
