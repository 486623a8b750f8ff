//! A legacy symmetric obfuscation cipher, bit-for-bit compatible with an
//! older database engine's built-in encryption function: a keyed
//! pseudo-random generator, a 256-entry substitution table and its inverse,
//! and a stateful per-byte feedback transform.

use vstd::prelude::*;

pub mod cache;
pub mod crypt;
pub mod laws;
pub mod rnd;

pub use crate::cache::InstanceCache;
pub use crate::crypt::SqlCrypt;

verus! {

/// One-shot decoding: builds a fresh session for `key`, decodes `data`
/// through it, and discards the session.
pub fn decode(data: &[u8], key: &[u8]) -> (r: Vec<u8>)
    ensures
        r@ == crate::crypt::spec_decode(key@, data@),
{
    let mut c = SqlCrypt::from_key(key);
    c.decode(crate::crypt::to_owned_bytes(data))
}

/// One-shot encoding: builds a fresh session for `key`, encodes `data`
/// through it, and discards the session.
pub fn encode(data: &[u8], key: &[u8]) -> (r: Vec<u8>)
    ensures
        r@ == crate::crypt::spec_encode(key@, data@),
{
    let mut c = SqlCrypt::from_key(key);
    c.encode(crate::crypt::to_owned_bytes(data))
}

} // verus!
