//! Content hashing: SHA-256 digests, their lowercase hex rendering, and
//! the constant-time comparison used wherever a secret is checked.

use vstd::prelude::*;

verus! {

/// The 32-byte SHA-256 digest of a byte string.  Left without a
/// definition: the digest is a pure function of its input, computed by
/// an outside implementation.
pub uninterp spec fn sha256_of(bytes: Seq<u8>) -> Seq<u8>;

/// The lowercase hex digit for a value below sixteen.
pub open spec fn hex_digit(n: u8) -> u8
    recommends
        n < 16,
{
    if n < 10 {
        (0x30 + n) as u8  // '0'..'9'
    } else {
        (0x61 + (n - 10)) as u8  // 'a'..'f'
    }
}

/// Lowercase hex rendering of a byte string: two digits per byte, high
/// nibble first.
pub open spec fn hex_of(s: Seq<u8>) -> Seq<u8>
    decreases s.len(),
{
    if s.len() == 0 {
        Seq::<u8>::empty()
    } else {
        seq![hex_digit(s[0] / 16), hex_digit(s[0] % 16)] + hex_of(s.drop_first())
    }
}

pub proof fn lemma_hex_of_len(s: Seq<u8>)
    ensures
        hex_of(s).len() == 2 * s.len(),
    decreases s.len(),
{
    if s.len() > 0 {
        lemma_hex_of_len(s.drop_first());
    }
}

/// Relies on sha2's `Sha256`: the digest is 32 bytes and depends on the
/// input bytes alone.
#[verifier::external_body]
fn sha256_digest(b: &[u8]) -> (r: Vec<u8>)
    ensures
        r@ == sha256_of(b@),
        r@.len() == 32,
{
    <sha2::Sha256 as sha2::Digest>::digest(b).to_vec()
}

/// Relies on hex::encode: lowercase hex, two digits per byte, high
/// nibble first.
#[verifier::external_body]
pub(crate) fn hex_encode_bytes(b: &[u8]) -> (r: Vec<u8>)
    ensures
        r@ == hex_of(b@),
{
    hex::encode(b).into_bytes()
}

/// The hex-rendered SHA-256 digest of `b`: 64 lowercase hex characters.
pub fn sha256_hex(b: &[u8]) -> (r: Vec<u8>)
    ensures
        r@ == hex_of(sha256_of(b@)),
        r@.len() == 64,
{
    let digest = sha256_digest(b);
    let r = hex_encode_bytes(digest.as_slice());
    proof {
        lemma_hex_of_len(sha256_of(b@));
    }
    r
}

/// Where a key's blob lives: the hex SHA-256 of the key, used as the
/// file name under the blob area.
pub fn get_file_key_sha256(key: &[u8]) -> (r: Vec<u8>)
    ensures
        r@ == hex_of(sha256_of(key@)),
        r@.len() == 64,
{
    sha256_hex(key)
}

/// Constant-time equality of two byte strings of the same length: the
/// whole strings are always walked, accumulating differences, so the
/// time spent does not reveal the first differing position.
pub fn ct_eq(a: &[u8], b: &[u8]) -> (r: bool)
    ensures
        r == (a@ == b@),
{
    if a.len() != b.len() {
        proof {
            assert(a@.len() != b@.len());
        }
        return false;
    }
    let n = a.len();
    let mut diff: u8 = 0;
    let mut i: usize = 0;
    while i < n
        invariant
            n == a@.len(),
            n == b@.len(),
            i <= n,
            (diff == 0) <==> (forall|j: int| 0 <= j < i ==> a@[j] == b@[j]),
        decreases n - i,
    {
        let x = a[i];
        let y = b[i];
        let d = x ^ y;
        proof {
            assert((d == 0) <==> (x == y)) by (bit_vector)
                requires
                    d == (x ^ y),
            ;
            let old_diff = diff;
            assert(((old_diff | d) == 0) <==> (old_diff == 0 && d == 0)) by (bit_vector);
        }
        diff = diff | d;
        i = i + 1;
    }
    proof {
        if diff == 0 {
            assert(a@ =~= b@);
        }
    }
    diff == 0
}

} // verus!
