//! Randomness and the clock, behind trusted calls: nothing is assumed
//! about the values they produce.

use vstd::bytes::u64_to_le_bytes;
use vstd::prelude::*;

use crate::hashing::{hex_encode_bytes, hex_of, lemma_hex_of_len};

verus! {

/// Relies on uuid's `Uuid::new_v4`: a fresh random identifier, handed
/// on as its 128-bit value.  Nothing is promised of it: two calls may
/// return anything.
#[verifier::external_body]
pub(crate) fn new_v4_u128() -> (r: u128) {
    uuid::Uuid::new_v4().as_u128()
}

/// Relies on chrono's `Utc::now`: the wall clock's seconds since the
/// epoch.  Nothing is promised of it.
#[verifier::external_body]
pub(crate) fn now_seconds() -> (r: i64) {
    chrono::Utc::now().timestamp()
}

/// A fresh secret of `len` lowercase hex characters, drawn from random
/// identifiers.  Only its length is promised; its value is random.
pub fn random_password(len: usize) -> (r: Vec<u8>)
    ensures
        r@.len() == len,
{
    let mut out: Vec<u8> = Vec::new();
    while out.len() < len
        invariant
            out@.len() <= len + 32,
        decreases len + 32 - out.len(),
    {
        let x = new_v4_u128();
        let lo = u64_to_le_bytes(x as u64);
        let hi = u64_to_le_bytes((x >> 64) as u64);
        let mut bytes = lo;
        let mut hi_v = hi;
        bytes.append(&mut hi_v);
        let mut hexed = hex_encode_bytes(bytes.as_slice());
        proof {
            lemma_hex_of_len(bytes@);
        }
        out.append(&mut hexed);
    }
    out.truncate(len);
    out
}

} // verus!
