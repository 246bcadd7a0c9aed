//! The store key: 32 bytes, carried through the environment as standard
//! base64 text.

use vstd::prelude::*;

use crate::crypto::{b64_decode, b64_encode, b64_of, random_bytes_32};
use crate::errors::{Error, ErrorKind};

verus! {

/// True when `s` is the base64 text of some 32-byte key.
pub open spec fn is_key_encoding(s: Seq<char>) -> bool {
    exists|b: Seq<u8>| b.len() == 32 && s == b64_of(b)
}

/// Draws a fresh 32-byte key and returns it as base64 text, suitable for
/// the key environment variable.
pub fn generate_key() -> (r: Result<String, Error>)
    ensures
        match r {
            Ok(s) => is_key_encoding(s@),
            Err(e) => e.kind == ErrorKind::CryptoFailure,
        },
{
    match random_bytes_32() {
        Ok(b) => {
            let s = b64_encode(b.as_slice());
            proof {
                assert(b@.len() == 32 && s@ == b64_of(b@));
            }
            Ok(s)
        },
        Err(_) => Err(Error::of(ErrorKind::CryptoFailure)),
    }
}

/// Decodes base64 key text to the 32 key bytes. Fails exactly when the
/// text is not the canonical base64 of a 32-byte value.
pub fn decode_key(s: &str) -> (r: Result<Vec<u8>, Error>)
    ensures
        match r {
            Ok(k) => k@.len() == 32 && b64_of(k@) == s@,
            Err(e) => e.kind == ErrorKind::CryptoKey && !is_key_encoding(s@),
        },
{
    match b64_decode(s) {
        Ok(k) => {
            if k.len() == 32 {
                Ok(k)
            } else {
                proof {
                    assert forall|b: Seq<u8>| b.len() == 32 implies s@ != b64_of(b) by {
                        if s@ == b64_of(b) {
                            assert(k@ == b);
                        }
                    }
                }
                Err(Error::of(ErrorKind::CryptoKey))
            }
        },
        Err(_) => {
            proof {
                assert forall|b: Seq<u8>| b.len() == 32 implies s@ != b64_of(b) by {}
            }
            Err(Error::of(ErrorKind::CryptoKey))
        },
    }
}

} // verus!
