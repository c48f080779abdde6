//! Capability tokens: three claim kinds sharing one expiry-and-
//! signature discipline.  A token is the signature's length, the
//! signature over the serialized claims, then the claims themselves;
//! the claims codec is exact and injective, so a token names exactly
//! one set of claims.

use vstd::bytes::{spec_u64_to_le_bytes, u64_from_le_bytes, u64_to_le_bytes};
use vstd::prelude::*;
use vstd::slice::{slice_subrange, slice_to_vec};

use crate::error::StorageError;

verus! {

/// Claims carried by an access token: the bearer acts for a principal.
#[derive(Debug)]
pub struct AccessClaims {
    pub exp: i64,
    pub iat: i64,
    pub iss: Vec<u8>,
    pub nonce: Vec<u8>,
    pub access_id: u128,
}

/// Claims carried by a signed-download token: the bearer may read one
/// object.
#[derive(Debug)]
pub struct SignedTokenClaims {
    pub exp: i64,
    pub iat: i64,
    pub iss: Vec<u8>,
    pub nonce: Vec<u8>,
    pub file_id: i64,
}

/// Claims carried by an upload token: the bearer may stage parts for
/// one destination key.
#[derive(Debug)]
pub struct UploadClaims {
    pub exp: i64,
    pub iat: i64,
    pub iss: Vec<u8>,
    pub nonce: Vec<u8>,
    pub key: Vec<u8>,
}

pub struct AccessClaimsView {
    pub exp: i64,
    pub iat: i64,
    pub iss: Seq<u8>,
    pub nonce: Seq<u8>,
    pub access_id: u128,
}

pub struct SignedTokenClaimsView {
    pub exp: i64,
    pub iat: i64,
    pub iss: Seq<u8>,
    pub nonce: Seq<u8>,
    pub file_id: i64,
}

pub struct UploadClaimsView {
    pub exp: i64,
    pub iat: i64,
    pub iss: Seq<u8>,
    pub nonce: Seq<u8>,
    pub key: Seq<u8>,
}

impl View for AccessClaims {
    type V = AccessClaimsView;

    open spec fn view(&self) -> AccessClaimsView {
        AccessClaimsView {
            exp: self.exp,
            iat: self.iat,
            iss: self.iss@,
            nonce: self.nonce@,
            access_id: self.access_id,
        }
    }
}

impl View for SignedTokenClaims {
    type V = SignedTokenClaimsView;

    open spec fn view(&self) -> SignedTokenClaimsView {
        SignedTokenClaimsView {
            exp: self.exp,
            iat: self.iat,
            iss: self.iss@,
            nonce: self.nonce@,
            file_id: self.file_id,
        }
    }
}

impl View for UploadClaims {
    type V = UploadClaimsView;

    open spec fn view(&self) -> UploadClaimsView {
        UploadClaimsView {
            exp: self.exp,
            iat: self.iat,
            iss: self.iss@,
            nonce: self.nonce@,
            key: self.key@,
        }
    }
}

/// The one tagged union every token carries: a variant per purpose,
/// sharing a single signature-and-expiry verification step.
#[derive(Debug)]
pub enum TokenClaims {
    Access(AccessClaims),
    SignedDownload(SignedTokenClaims),
    Upload(UploadClaims),
}

pub enum TokenClaimsView {
    Access(AccessClaimsView),
    SignedDownload(SignedTokenClaimsView),
    Upload(UploadClaimsView),
}

impl View for TokenClaims {
    type V = TokenClaimsView;

    open spec fn view(&self) -> TokenClaimsView {
        match self {
            TokenClaims::Access(a) => TokenClaimsView::Access(a@),
            TokenClaims::SignedDownload(s) => TokenClaimsView::SignedDownload(s@),
            TokenClaims::Upload(u) => TokenClaimsView::Upload(u@),
        }
    }
}

/// The kind a caller expects a token to have.
#[derive(Clone, Copy, PartialEq, Eq, Structural, Debug)]
pub enum TokenKind {
    Access,
    SignedDownload,
    Upload,
}

pub open spec fn kind_of(c: TokenClaimsView) -> TokenKind {
    match c {
        TokenClaimsView::Access(_) => TokenKind::Access,
        TokenClaimsView::SignedDownload(_) => TokenKind::SignedDownload,
        TokenClaimsView::Upload(_) => TokenKind::Upload,
    }
}

pub open spec fn exp_of(c: TokenClaimsView) -> i64 {
    match c {
        TokenClaimsView::Access(a) => a.exp,
        TokenClaimsView::SignedDownload(s) => s.exp,
        TokenClaimsView::Upload(u) => u.exp,
    }
}

/// Eight little-endian bytes of a `u64`.
pub open spec fn le8(x: u64) -> Seq<u8> {
    spec_u64_to_le_bytes(x)
}

pub proof fn lemma_i64_u64_roundtrip(x: i64)
    ensures
        ((x as u64) as i64) == x,
{
    assert(((x as u64) as i64) == x) by (bit_vector);
}

pub proof fn lemma_u64_i64_roundtrip(x: u64)
    ensures
        ((x as i64) as u64) == x,
{
    assert(((x as i64) as u64) == x) by (bit_vector);
}

pub proof fn lemma_u128_split_join(x: u128)
    ensures
        ((x as u64) as u128) | (((x >> 64) as u64 as u128) << 64) == x,
{
    assert(((x as u64) as u128) | (((x >> 64) as u64 as u128) << 64) == x) by (bit_vector);
}

pub proof fn lemma_u128_join_split(lo: u64, hi: u64)
    ensures
        (((lo as u128) | ((hi as u128) << 64)) as u64) == lo,
        ((((lo as u128) | ((hi as u128) << 64)) >> 64) as u64) == hi,
{
    assert((((lo as u128) | ((hi as u128) << 64)) as u64) == lo) by (bit_vector);
    assert(((((lo as u128) | ((hi as u128) << 64)) >> 64) as u64) == hi) by (bit_vector);
}

/// The common head of every serialized claim set: a kind tag, the two
/// timestamps, then the length-prefixed issuer and nonce.
pub open spec fn enc_header(tag: u8, exp: i64, iat: i64, iss: Seq<u8>, nonce: Seq<u8>) -> Seq<
    u8,
> {
    seq![tag] + le8(exp as u64) + le8(iat as u64) + le8(iss.len() as u64) + iss + le8(
        nonce.len() as u64,
    ) + nonce
}

/// The serialized form of a claim set.
pub open spec fn enc_claims(c: TokenClaimsView) -> Seq<u8> {
    match c {
        TokenClaimsView::Access(a) => enc_header(1, a.exp, a.iat, a.iss, a.nonce) + le8(
            a.access_id as u64,
        ) + le8((a.access_id >> 64) as u64),
        TokenClaimsView::SignedDownload(s) => enc_header(2, s.exp, s.iat, s.iss, s.nonce) + le8(
            s.file_id as u64,
        ),
        TokenClaimsView::Upload(u) => enc_header(3, u.exp, u.iat, u.iss, u.nonce) + le8(
            u.key.len() as u64,
        ) + u.key,
    }
}

/// Field lengths a serializable claim set must respect (they always
/// do for values built in running code).
pub open spec fn wf_claims(c: TokenClaimsView) -> bool {
    match c {
        TokenClaimsView::Access(a) => a.iss.len() <= u64::MAX && a.nonce.len() <= u64::MAX,
        TokenClaimsView::SignedDownload(s) => s.iss.len() <= u64::MAX && s.nonce.len()
            <= u64::MAX,
        TokenClaimsView::Upload(u) => u.iss.len() <= u64::MAX && u.nonce.len() <= u64::MAX
            && u.key.len() <= u64::MAX,
    }
}

/// Append eight little-endian bytes of `x`.
fn push_le8(out: &mut Vec<u8>, x: u64)
    ensures
        final(out)@ == old(out)@ + le8(x),
{
    let bytes = u64_to_le_bytes(x);
    out.extend_from_slice(bytes.as_slice());
}

/// Serialize a claim set to its wire form.
pub fn serialize_claims(c: &TokenClaims) -> (r: Vec<u8>)
    ensures
        r@ == enc_claims(c@),
{
    let mut out: Vec<u8> = Vec::new();
    match c {
        TokenClaims::Access(a) => {
            out.push(1);
            proof {
                assert(out@ =~= seq![1u8]);
            }
            push_le8(&mut out, a.exp as u64);
            push_le8(&mut out, a.iat as u64);
            push_le8(&mut out, a.iss.len() as u64);
            out.extend_from_slice(a.iss.as_slice());
            push_le8(&mut out, a.nonce.len() as u64);
            out.extend_from_slice(a.nonce.as_slice());
            push_le8(&mut out, a.access_id as u64);
            push_le8(&mut out, (a.access_id >> 64) as u64);
            proof {
                assert(out@ =~= enc_claims(c@));
            }
        },
        TokenClaims::SignedDownload(s) => {
            out.push(2);
            proof {
                assert(out@ =~= seq![2u8]);
            }
            push_le8(&mut out, s.exp as u64);
            push_le8(&mut out, s.iat as u64);
            push_le8(&mut out, s.iss.len() as u64);
            out.extend_from_slice(s.iss.as_slice());
            push_le8(&mut out, s.nonce.len() as u64);
            out.extend_from_slice(s.nonce.as_slice());
            push_le8(&mut out, s.file_id as u64);
            proof {
                assert(out@ =~= enc_claims(c@));
            }
        },
        TokenClaims::Upload(u) => {
            out.push(3);
            proof {
                assert(out@ =~= seq![3u8]);
            }
            push_le8(&mut out, u.exp as u64);
            push_le8(&mut out, u.iat as u64);
            push_le8(&mut out, u.iss.len() as u64);
            out.extend_from_slice(u.iss.as_slice());
            push_le8(&mut out, u.nonce.len() as u64);
            out.extend_from_slice(u.nonce.as_slice());
            push_le8(&mut out, u.key.len() as u64);
            out.extend_from_slice(u.key.as_slice());
            proof {
                assert(out@ =~= enc_claims(c@));
            }
        },
    }
    out
}


/// How a serialized claim set decomposes: each field sits at a fixed
/// offset once the issuer and nonce lengths are known.
pub proof fn lemma_enc_parts(c: TokenClaimsView)
    requires
        wf_claims(c),
    ensures
        ({
            let e = enc_claims(c);
            match c {
                TokenClaimsView::Access(a) => {
                    &&& e.len() as int == 49 + a.iss.len() as int + a.nonce.len() as int
                    &&& e[0] == 1u8
                    &&& e.subrange(1, 9) == le8(a.exp as u64)
                    &&& e.subrange(9, 17) == le8(a.iat as u64)
                    &&& e.subrange(17, 25) == le8(a.iss.len() as u64)
                    &&& e.subrange(25, 25 + a.iss.len() as int) == a.iss
                    &&& e.subrange(25 + a.iss.len() as int, 33 + a.iss.len() as int) == le8(
                        a.nonce.len() as u64,
                    )
                    &&& e.subrange(33 + a.iss.len() as int, 33 + a.iss.len() as int + a.nonce.len() as int)
                        == a.nonce
                    &&& e.subrange(
                        33 + a.iss.len() as int + a.nonce.len() as int,
                        41 + a.iss.len() as int + a.nonce.len() as int,
                    ) == le8(a.access_id as u64)
                    &&& e.subrange(
                        41 + a.iss.len() as int + a.nonce.len() as int,
                        49 + a.iss.len() as int + a.nonce.len() as int,
                    ) == le8((a.access_id >> 64) as u64)
                },
                TokenClaimsView::SignedDownload(sd) => {
                    &&& e.len() as int == 41 + sd.iss.len() as int + sd.nonce.len() as int
                    &&& e[0] == 2u8
                    &&& e.subrange(1, 9) == le8(sd.exp as u64)
                    &&& e.subrange(9, 17) == le8(sd.iat as u64)
                    &&& e.subrange(17, 25) == le8(sd.iss.len() as u64)
                    &&& e.subrange(25, 25 + sd.iss.len() as int) == sd.iss
                    &&& e.subrange(25 + sd.iss.len() as int, 33 + sd.iss.len() as int) == le8(
                        sd.nonce.len() as u64,
                    )
                    &&& e.subrange(33 + sd.iss.len() as int, 33 + sd.iss.len() as int + sd.nonce.len() as int)
                        == sd.nonce
                    &&& e.subrange(
                        33 + sd.iss.len() as int + sd.nonce.len() as int,
                        41 + sd.iss.len() as int + sd.nonce.len() as int,
                    ) == le8(sd.file_id as u64)
                },
                TokenClaimsView::Upload(u) => {
                    &&& e.len() as int == 41 + u.iss.len() as int + u.nonce.len() as int + u.key.len() as int
                    &&& e[0] == 3u8
                    &&& e.subrange(1, 9) == le8(u.exp as u64)
                    &&& e.subrange(9, 17) == le8(u.iat as u64)
                    &&& e.subrange(17, 25) == le8(u.iss.len() as u64)
                    &&& e.subrange(25, 25 + u.iss.len() as int) == u.iss
                    &&& e.subrange(25 + u.iss.len() as int, 33 + u.iss.len() as int) == le8(
                        u.nonce.len() as u64,
                    )
                    &&& e.subrange(33 + u.iss.len() as int, 33 + u.iss.len() as int + u.nonce.len() as int)
                        == u.nonce
                    &&& e.subrange(
                        33 + u.iss.len() as int + u.nonce.len() as int,
                        41 + u.iss.len() as int + u.nonce.len() as int,
                    ) == le8(u.key.len() as u64)
                    &&& e.subrange(
                        41 + u.iss.len() as int + u.nonce.len() as int,
                        41 + u.iss.len() as int + u.nonce.len() as int + u.key.len() as int,
                    ) == u.key
                },
            }
        }),
{
    vstd::bytes::lemma_auto_spec_u64_to_from_le_bytes();
    let e = enc_claims(c);
    match c {
        TokenClaimsView::Access(a) => {
            assert(e.subrange(1, 9) =~= le8(a.exp as u64));
            assert(e.subrange(9, 17) =~= le8(a.iat as u64));
            assert(e.subrange(17, 25) =~= le8(a.iss.len() as u64));
            assert(e.subrange(25, 25 + a.iss.len() as int) =~= a.iss);
            assert(e.subrange(25 + a.iss.len() as int, 33 + a.iss.len() as int) =~= le8(
                a.nonce.len() as u64,
            ));
            assert(e.subrange(33 + a.iss.len() as int, 33 + a.iss.len() as int + a.nonce.len() as int) =~= a.nonce);
            assert(e.subrange(
                33 + a.iss.len() as int + a.nonce.len() as int,
                41 + a.iss.len() as int + a.nonce.len() as int,
            ) =~= le8(a.access_id as u64));
            assert(e.subrange(
                41 + a.iss.len() as int + a.nonce.len() as int,
                49 + a.iss.len() as int + a.nonce.len() as int,
            ) =~= le8((a.access_id >> 64) as u64));
        },
        TokenClaimsView::SignedDownload(sd) => {
            assert(e.subrange(1, 9) =~= le8(sd.exp as u64));
            assert(e.subrange(9, 17) =~= le8(sd.iat as u64));
            assert(e.subrange(17, 25) =~= le8(sd.iss.len() as u64));
            assert(e.subrange(25, 25 + sd.iss.len() as int) =~= sd.iss);
            assert(e.subrange(25 + sd.iss.len() as int, 33 + sd.iss.len() as int) =~= le8(
                sd.nonce.len() as u64,
            ));
            assert(e.subrange(33 + sd.iss.len() as int, 33 + sd.iss.len() as int + sd.nonce.len() as int)
                =~= sd.nonce);
            assert(e.subrange(
                33 + sd.iss.len() as int + sd.nonce.len() as int,
                41 + sd.iss.len() as int + sd.nonce.len() as int,
            ) =~= le8(sd.file_id as u64));
        },
        TokenClaimsView::Upload(u) => {
            assert(e.subrange(1, 9) =~= le8(u.exp as u64));
            assert(e.subrange(9, 17) =~= le8(u.iat as u64));
            assert(e.subrange(17, 25) =~= le8(u.iss.len() as u64));
            assert(e.subrange(25, 25 + u.iss.len() as int) =~= u.iss);
            assert(e.subrange(25 + u.iss.len() as int, 33 + u.iss.len() as int) =~= le8(
                u.nonce.len() as u64,
            ));
            assert(e.subrange(33 + u.iss.len() as int, 33 + u.iss.len() as int + u.nonce.len() as int) =~= u.nonce);
            assert(e.subrange(
                33 + u.iss.len() as int + u.nonce.len() as int,
                41 + u.iss.len() as int + u.nonce.len() as int,
            ) =~= le8(u.key.len() as u64));
            assert(e.subrange(
                41 + u.iss.len() as int + u.nonce.len() as int,
                41 + u.iss.len() as int + u.nonce.len() as int + u.key.len() as int,
            ) =~= u.key);
        },
    }
}


/// Read eight little-endian bytes at `pos`.
fn read_le8(b: &[u8], pos: usize) -> (r: u64)
    requires
        pos + 8 <= b@.len(),
    ensures
        le8(r) == b@.subrange(pos as int, pos as int + 8),
{
    let n = b.len();
    let s = slice_subrange(b, pos, pos + 8);
    let r = u64_from_le_bytes(s);
    proof {
        vstd::bytes::lemma_auto_spec_u64_to_from_le_bytes();
    }
    r
}

/// Parse a serialized claim set.  Succeeds exactly on the encoder's
/// outputs, and returns the one claim set that encodes to the input.
#[verifier::rlimit(100)]
pub fn parse_claims(b: &[u8]) -> (r: Result<TokenClaims, StorageError>)
    ensures
        match r {
            Ok(c) => b@ == enc_claims(c@) && wf_claims(c@),
            Err(e) => e == StorageError::Unauthorized && forall|c2: TokenClaimsView|
                wf_claims(c2) ==> enc_claims(c2) != b@,
        },
        forall|c2: TokenClaimsView|
            wf_claims(c2) && enc_claims(c2) == b@ ==> (r matches Ok(cc) && cc@ == c2),
{
    proof {
        vstd::bytes::lemma_auto_spec_u64_to_from_le_bytes();
    }
    let len = b.len();
    if len < 41 {
        proof {
            assert forall|c2: TokenClaimsView| wf_claims(c2) implies enc_claims(c2) != b@ by {
                lemma_enc_parts(c2);
            }
        }
        return Err(StorageError::Unauthorized);
    }
    let tag = b[0];
    if tag < 1 || tag > 3 {
        proof {
            assert forall|c2: TokenClaimsView| wf_claims(c2) implies enc_claims(c2) != b@ by {
                lemma_enc_parts(c2);
                if enc_claims(c2) == b@ {
                    assert(enc_claims(c2)[0] == b@[0]);
                }
            }
        }
        return Err(StorageError::Unauthorized);
    }
    let exp_u = read_le8(b, 1);
    let iat_u = read_le8(b, 9);
    let iss_len_u = read_le8(b, 17);
    if iss_len_u > (len - 41) as u64 {
        proof {
            assert forall|c2: TokenClaimsView| wf_claims(c2) implies enc_claims(c2) != b@ by {
                lemma_enc_parts(c2);
                if enc_claims(c2) == b@ {
                    let il = match c2 {
                        TokenClaimsView::Access(a) => a.iss.len(),
                        TokenClaimsView::SignedDownload(sd) => sd.iss.len(),
                        TokenClaimsView::Upload(u) => u.iss.len(),
                    };
                    assert(b@.subrange(17, 25) == le8(il as u64));
                    assert(iss_len_u == il as u64);
                    assert(il <= len - 41);
                }
            }
        }
        return Err(StorageError::Unauthorized);
    }
    let iss_len = iss_len_u as usize;
    let pos = 25 + iss_len;
    let nonce_len_u = read_le8(b, pos);
    if nonce_len_u > (len - pos - 16) as u64 {
        proof {
            assert forall|c2: TokenClaimsView| wf_claims(c2) implies enc_claims(c2) != b@ by {
                lemma_enc_parts(c2);
                if enc_claims(c2) == b@ {
                    let il = match c2 {
                        TokenClaimsView::Access(a) => a.iss.len(),
                        TokenClaimsView::SignedDownload(sd) => sd.iss.len(),
                        TokenClaimsView::Upload(u) => u.iss.len(),
                    };
                    let nl = match c2 {
                        TokenClaimsView::Access(a) => a.nonce.len(),
                        TokenClaimsView::SignedDownload(sd) => sd.nonce.len(),
                        TokenClaimsView::Upload(u) => u.nonce.len(),
                    };
                    assert(b@.subrange(17, 25) == le8(il as u64));
                    assert(iss_len == il);
                    assert(b@.subrange(25 + il as int, 33 + il as int) == le8(nl as u64));
                    assert(nonce_len_u == nl as u64);
                    assert(nl <= len - pos - 16);
                }
            }
        }
        return Err(StorageError::Unauthorized);
    }
    let nonce_len = nonce_len_u as usize;
    let pos2 = pos + 8 + nonce_len;
    let iss = slice_to_vec(slice_subrange(b, 25, pos));
    let nonce = slice_to_vec(slice_subrange(b, pos + 8, pos2));
    let exp: i64 = exp_u as i64;
    let iat: i64 = iat_u as i64;
    proof {
        lemma_u64_i64_roundtrip(exp_u);
        lemma_u64_i64_roundtrip(iat_u);
    }
    if tag == 1 {
        if len - pos2 != 16 {
            proof {
                assert forall|c2: TokenClaimsView| wf_claims(c2) implies enc_claims(c2)
                    != b@ by {
                    lemma_enc_parts(c2);
                    if enc_claims(c2) == b@ {
                        match c2 {
                            TokenClaimsView::Access(a) => {
                                assert(b@.subrange(17, 25) == le8(a.iss.len() as u64));
                                assert(iss_len == a.iss.len());
                                assert(b@.subrange(25 + a.iss.len() as int, 33 + a.iss.len() as int)
                                    == le8(a.nonce.len() as u64));
                                assert(nonce_len == a.nonce.len());
                                assert(len == pos2 + 16);
                            },
                            TokenClaimsView::SignedDownload(_) => {
                                assert(enc_claims(c2)[0] == 2);
                            },
                            TokenClaimsView::Upload(_) => {
                                assert(enc_claims(c2)[0] == 3);
                            },
                        }
                    }
                }
            }
            return Err(StorageError::Unauthorized);
        }
        let lo = read_le8(b, pos2);
        let hi = read_le8(b, pos2 + 8);
        let access_id: u128 = (lo as u128) | ((hi as u128) << 64);
        let c = TokenClaims::Access(
            AccessClaims { exp, iat, iss, nonce, access_id },
        );
        proof {
            lemma_u128_join_split(lo, hi);
            lemma_enc_parts(c@);
            assert(b@ =~= enc_claims(c@));
            assert forall|c2: TokenClaimsView| wf_claims(c2) && enc_claims(c2) == b@ implies c2
                == c@ by {
                lemma_enc_parts(c2);
                match c2 {
                    TokenClaimsView::Access(a) => {
                        assert(b@.subrange(17, 25) == le8(a.iss.len() as u64));
                        assert(iss_len == a.iss.len());
                        assert(b@.subrange(25 + a.iss.len() as int, 33 + a.iss.len() as int)
                            == le8(a.nonce.len() as u64));
                        assert(nonce_len == a.nonce.len());
                        assert(a.iss =~= iss@);
                        assert(a.nonce =~= nonce@);
                        assert(le8(a.exp as u64) == b@.subrange(1, 9));
                        assert(a.exp as u64 == exp_u);
                        lemma_i64_u64_roundtrip(a.exp);
                        assert(le8(a.iat as u64) == b@.subrange(9, 17));
                        assert(a.iat as u64 == iat_u);
                        lemma_i64_u64_roundtrip(a.iat);
                        assert(le8(a.access_id as u64) == b@.subrange(
                            pos2 as int,
                            pos2 as int + 8,
                        ));
                        assert(a.access_id as u64 == lo);
                        assert(le8((a.access_id >> 64) as u64) == b@.subrange(
                            pos2 as int + 8,
                            pos2 as int + 16,
                        ));
                        assert((a.access_id >> 64) as u64 == hi);
                        lemma_u128_split_join(a.access_id);
                        assert(a.access_id == access_id);
                    },
                    TokenClaimsView::SignedDownload(_) => {
                        assert(enc_claims(c2)[0] == 2);
                    },
                    TokenClaimsView::Upload(_) => {
                        assert(enc_claims(c2)[0] == 3);
                    },
                }
            }
        }
        Ok(c)
    } else if tag == 2 {
        if len - pos2 != 8 {
            proof {
                assert forall|c2: TokenClaimsView| wf_claims(c2) implies enc_claims(c2)
                    != b@ by {
                    lemma_enc_parts(c2);
                    if enc_claims(c2) == b@ {
                        match c2 {
                            TokenClaimsView::SignedDownload(sd) => {
                                assert(b@.subrange(17, 25) == le8(sd.iss.len() as u64));
                                assert(iss_len == sd.iss.len());
                                assert(b@.subrange(25 + sd.iss.len() as int, 33 + sd.iss.len() as int)
                                    == le8(sd.nonce.len() as u64));
                                assert(nonce_len == sd.nonce.len());
                                assert(len == pos2 + 8);
                            },
                            TokenClaimsView::Access(_) => {
                                assert(enc_claims(c2)[0] == 1);
                            },
                            TokenClaimsView::Upload(_) => {
                                assert(enc_claims(c2)[0] == 3);
                            },
                        }
                    }
                }
            }
            return Err(StorageError::Unauthorized);
        }
        let fid_u = read_le8(b, pos2);
        let file_id: i64 = fid_u as i64;
        proof {
            lemma_u64_i64_roundtrip(fid_u);
        }
        let c = TokenClaims::SignedDownload(
            SignedTokenClaims { exp, iat, iss, nonce, file_id },
        );
        proof {
            lemma_enc_parts(c@);
            assert(b@ =~= enc_claims(c@));
            assert forall|c2: TokenClaimsView| wf_claims(c2) && enc_claims(c2) == b@ implies c2
                == c@ by {
                lemma_enc_parts(c2);
                match c2 {
                    TokenClaimsView::SignedDownload(sd) => {
                        assert(b@.subrange(17, 25) == le8(sd.iss.len() as u64));
                        assert(iss_len == sd.iss.len());
                        assert(b@.subrange(25 + sd.iss.len() as int, 33 + sd.iss.len() as int)
                            == le8(sd.nonce.len() as u64));
                        assert(nonce_len == sd.nonce.len());
                        assert(sd.iss =~= iss@);
                        assert(sd.nonce =~= nonce@);
                        assert(le8(sd.exp as u64) == b@.subrange(1, 9));
                        assert(sd.exp as u64 == exp_u);
                        lemma_i64_u64_roundtrip(sd.exp);
                        assert(le8(sd.iat as u64) == b@.subrange(9, 17));
                        assert(sd.iat as u64 == iat_u);
                        lemma_i64_u64_roundtrip(sd.iat);
                        assert(le8(sd.file_id as u64) == b@.subrange(
                            pos2 as int,
                            pos2 as int + 8,
                        ));
                        assert(sd.file_id as u64 == fid_u);
                        lemma_i64_u64_roundtrip(sd.file_id);
                    },
                    TokenClaimsView::Access(_) => {
                        assert(enc_claims(c2)[0] == 1);
                    },
                    TokenClaimsView::Upload(_) => {
                        assert(enc_claims(c2)[0] == 3);
                    },
                }
            }
        }
        Ok(c)
    } else {
        if len - pos2 < 8 {
            proof {
                assert forall|c2: TokenClaimsView| wf_claims(c2) implies enc_claims(c2)
                    != b@ by {
                    lemma_enc_parts(c2);
                    if enc_claims(c2) == b@ {
                        match c2 {
                            TokenClaimsView::Upload(u) => {
                                assert(b@.subrange(17, 25) == le8(u.iss.len() as u64));
                                assert(iss_len == u.iss.len());
                                assert(b@.subrange(25 + u.iss.len() as int, 33 + u.iss.len() as int)
                                    == le8(u.nonce.len() as u64));
                                assert(nonce_len == u.nonce.len());
                                assert(len == pos2 + 8 + u.key.len());
                            },
                            TokenClaimsView::Access(_) => {
                                assert(enc_claims(c2)[0] == 1);
                            },
                            TokenClaimsView::SignedDownload(_) => {
                                assert(enc_claims(c2)[0] == 2);
                            },
                        }
                    }
                }
            }
            return Err(StorageError::Unauthorized);
        }
        let key_len_u = read_le8(b, pos2);
        if key_len_u != (len - pos2 - 8) as u64 {
            proof {
                assert forall|c2: TokenClaimsView| wf_claims(c2) implies enc_claims(c2)
                    != b@ by {
                    lemma_enc_parts(c2);
                    if enc_claims(c2) == b@ {
                        match c2 {
                            TokenClaimsView::Upload(u) => {
                                assert(b@.subrange(17, 25) == le8(u.iss.len() as u64));
                                assert(iss_len == u.iss.len());
                                assert(b@.subrange(25 + u.iss.len() as int, 33 + u.iss.len() as int)
                                    == le8(u.nonce.len() as u64));
                                assert(nonce_len == u.nonce.len());
                                assert(b@.subrange(pos2 as int, pos2 as int + 8) == le8(
                                    u.key.len() as u64,
                                ));
                                assert(key_len_u == u.key.len() as u64);
                                assert(len == pos2 + 8 + u.key.len());
                            },
                            TokenClaimsView::Access(_) => {
                                assert(enc_claims(c2)[0] == 1);
                            },
                            TokenClaimsView::SignedDownload(_) => {
                                assert(enc_claims(c2)[0] == 2);
                            },
                        }
                    }
                }
            }
            return Err(StorageError::Unauthorized);
        }
        let key = slice_to_vec(slice_subrange(b, pos2 + 8, len));
        let c = TokenClaims::Upload(
            UploadClaims { exp, iat, iss, nonce, key },
        );
        proof {
            lemma_enc_parts(c@);
            assert(b@ =~= enc_claims(c@));
            assert forall|c2: TokenClaimsView| wf_claims(c2) && enc_claims(c2) == b@ implies c2
                == c@ by {
                lemma_enc_parts(c2);
                match c2 {
                    TokenClaimsView::Upload(u) => {
                        assert(b@.subrange(17, 25) == le8(u.iss.len() as u64));
                        assert(iss_len == u.iss.len());
                        assert(b@.subrange(25 + u.iss.len() as int, 33 + u.iss.len() as int)
                            == le8(u.nonce.len() as u64));
                        assert(nonce_len == u.nonce.len());
                        assert(u.iss =~= iss@);
                        assert(u.nonce =~= nonce@);
                        assert(le8(u.exp as u64) == b@.subrange(1, 9));
                        assert(u.exp as u64 == exp_u);
                        lemma_i64_u64_roundtrip(u.exp);
                        assert(le8(u.iat as u64) == b@.subrange(9, 17));
                        assert(u.iat as u64 == iat_u);
                        lemma_i64_u64_roundtrip(u.iat);
                        assert(len == pos2 + 8 + u.key.len());
                        assert(u.key =~= key@);
                    },
                    TokenClaimsView::Access(_) => {
                        assert(enc_claims(c2)[0] == 1);
                    },
                    TokenClaimsView::SignedDownload(_) => {
                        assert(enc_claims(c2)[0] == 2);
                    },
                }
            }
        }
        Ok(c)
    }
}


/// The HMAC-SHA256 signature (base64url text, as the signing primitive
/// hands it out) over a message under a symmetric secret.  Left
/// without a definition: it is a pure function of secret and message,
/// computed by an outside implementation.
pub uninterp spec fn hs256_sig_of(secret: Seq<u8>, msg: Seq<u8>) -> Seq<u8>;

/// Relies on jsonwebtoken's `crypto::sign` with `Algorithm::HS256` and
/// `EncodingKey::from_secret`: HMAC-SHA256, deterministic in secret
/// and message alone, returned base64url-encoded (43 characters for
/// the 32-byte mac).  The call cannot fail: `from_secret` yields a
/// key of the Hmac family, the family check is the signer's only
/// error, and `Hmac::new_from_slice` accepts a key of any length, so
/// `try_sign` and the base64 encoding are total.
#[verifier::external_body]
fn hs256_sign(secret: &[u8], msg: &[u8]) -> (r: Vec<u8>)
    ensures
        r@ == hs256_sig_of(secret@, msg@),
        r@.len() == 43,
{
    let key = jsonwebtoken::EncodingKey::from_secret(secret);
    jsonwebtoken::crypto::sign(msg, &key, jsonwebtoken::Algorithm::HS256).unwrap().into_bytes()
}

/// A token's wire form: the signature's length, the signature, then
/// the payload it signs.
pub open spec fn wire(sig: Seq<u8>, payload: Seq<u8>) -> Seq<u8> {
    le8(sig.len() as u64) + sig + payload
}

/// The one token a secret issues for a claim set.
pub open spec fn token_bytes(secret: Seq<u8>, c: TokenClaimsView) -> Seq<u8> {
    wire(hs256_sig_of(secret, enc_claims(c)), enc_claims(c))
}

/// Serialize and sign a claim set: every claim set yields its token.
pub fn issue(claims: &TokenClaims, secret: &[u8]) -> (t: Vec<u8>)
    ensures
        t@ == token_bytes(secret@, claims@),
{
    let payload = serialize_claims(claims);
    let sig = hs256_sign(secret, payload.as_slice());
    let mut out: Vec<u8> = Vec::new();
    push_le8(&mut out, sig.len() as u64);
    out.extend_from_slice(sig.as_slice());
    out.extend_from_slice(payload.as_slice());
    proof {
        assert(out@ =~= token_bytes(secret@, claims@));
    }
    out
}

/// The exact token check, over an already recomputed signature: the
/// token must be the wire form of that signature over some claim set
/// of the expected kind whose expiry lies beyond `now` - exactly then
/// does it yield the claims, and any failure is `Unauthorized`.
#[verifier::rlimit(60)]
pub fn validate_parts(token: &[u8], computed_sig: &[u8], expected: TokenKind, now: i64) -> (r:
    Result<TokenClaims, StorageError>)
    ensures
        r matches Ok(c) ==> token@ == wire(computed_sig@, enc_claims(c@)) && wf_claims(c@)
            && kind_of(c@) == expected && exp_of(c@) > now,
        forall|c2: TokenClaimsView|
            wf_claims(c2) && token@ == wire(computed_sig@, enc_claims(c2)) && kind_of(c2)
                == expected && exp_of(c2) > now ==> (r matches Ok(cc) && cc@ == c2),
        r matches Err(e) ==> e == StorageError::Unauthorized,
{
    proof {
        vstd::bytes::lemma_auto_spec_u64_to_from_le_bytes();
    }
    let len = token.len();
    let ns = computed_sig.len();
    if len < 8 {
        return Err(StorageError::Unauthorized);
    }
    let n_u = read_le8(token, 0);
    if n_u != ns as u64 {
        proof {
            assert forall|c2: TokenClaimsView|
                wf_claims(c2) && token@ == wire(computed_sig@, enc_claims(c2)) implies false by {
                assert(token@.subrange(0, 8) =~= le8(computed_sig@.len() as u64));
            }
        }
        return Err(StorageError::Unauthorized);
    }
    if len - 8 < ns {
        proof {
            assert forall|c2: TokenClaimsView|
                wf_claims(c2) && token@ == wire(computed_sig@, enc_claims(c2)) implies false by {}
        }
        return Err(StorageError::Unauthorized);
    }
    let sig = slice_subrange(token, 8, 8 + ns);
    let payload = slice_subrange(token, 8 + ns, len);
    if !crate::hashing::ct_eq(sig, computed_sig) {
        proof {
            assert forall|c2: TokenClaimsView|
                wf_claims(c2) && token@ == wire(computed_sig@, enc_claims(c2)) implies false by {
                assert(token@.subrange(8, 8 + ns as int) =~= computed_sig@);
            }
        }
        return Err(StorageError::Unauthorized);
    }
    match parse_claims(payload) {
        Err(_e) => {
            proof {
                assert forall|c2: TokenClaimsView|
                    wf_claims(c2) && token@ == wire(computed_sig@, enc_claims(c2)) implies
                    false by {
                    assert(token@.subrange(8 + ns as int, len as int) =~= enc_claims(c2));
                    assert(payload@ == enc_claims(c2));
                }
            }
            Err(StorageError::Unauthorized)
        },
        Ok(c) => {
            let kind = match &c {
                TokenClaims::Access(_) => TokenKind::Access,
                TokenClaims::SignedDownload(_) => TokenKind::SignedDownload,
                TokenClaims::Upload(_) => TokenKind::Upload,
            };
            let exp = match &c {
                TokenClaims::Access(a) => a.exp,
                TokenClaims::SignedDownload(sd) => sd.exp,
                TokenClaims::Upload(u) => u.exp,
            };
            proof {
                assert(kind == kind_of(c@));
                assert(exp == exp_of(c@));
            }
            if kind != expected || exp <= now {
                proof {
                    assert forall|c2: TokenClaimsView|
                        wf_claims(c2) && token@ == wire(computed_sig@, enc_claims(c2))
                            && kind_of(c2) == expected && exp_of(c2) > now implies false by {
                        assert(token@.subrange(8 + ns as int, len as int) =~= enc_claims(c2));
                        assert(payload@ == enc_claims(c2));
                        assert(c@ == c2);
                    }
                }
                return Err(StorageError::Unauthorized);
            }
            proof {
                assert(token@ =~= wire(computed_sig@, enc_claims(c@)));
                assert forall|c2: TokenClaimsView|
                    wf_claims(c2) && token@ == wire(computed_sig@, enc_claims(c2)) && kind_of(
                        c2,
                    ) == expected && exp_of(c2) > now implies c2 == c@ by {
                    assert(token@.subrange(8 + ns as int, len as int) =~= enc_claims(c2));
                    assert(payload@ == enc_claims(c2));
                }
            }
            Ok(c)
        },
    }
}

/// Verify a token end to end: split it, recompute its signature under
/// the secret, and hold token, signature, kind and expiry to
/// `validate_parts`.  A token is accepted exactly when it is the wire
/// form the secret issues for some claim set of the expected kind
/// whose expiry lies beyond `now`; every failure, signature, decoding
/// or expiry alike, is `Unauthorized`.
#[verifier::rlimit(60)]
pub fn validate(token: &[u8], secret: &[u8], expected: TokenKind, now: i64) -> (r: Result<
    TokenClaims,
    StorageError,
>)
    ensures
        r matches Ok(c) ==> token@ == token_bytes(secret@, c@) && wf_claims(c@) && kind_of(c@)
            == expected && exp_of(c@) > now,
        forall|c2: TokenClaimsView|
            wf_claims(c2) && token@ == token_bytes(secret@, c2) && kind_of(c2) == expected
                && exp_of(c2) > now ==> (r matches Ok(cc) && cc@ == c2),
        r matches Err(e) ==> e == StorageError::Unauthorized,
{
    proof {
        vstd::bytes::lemma_auto_spec_u64_to_from_le_bytes();
    }
    let len = token.len();
    if len < 8 {
        proof {
            assert forall|c2: TokenClaimsView|
                wf_claims(c2) && token@ == token_bytes(secret@, c2) implies false by {
                assert(token@.len() >= 8);
            }
        }
        return Err(StorageError::Unauthorized);
    }
    let n_u = read_le8(token, 0);
    if n_u > (len - 8) as u64 {
        proof {
            assert forall|c2: TokenClaimsView|
                wf_claims(c2) && token@ == token_bytes(secret@, c2) implies false by {
                let sg = hs256_sig_of(secret@, enc_claims(c2));
                assert(token@.len() == 8 + sg.len() + enc_claims(c2).len());
                assert(token@.subrange(0, 8) =~= le8(sg.len() as u64));
                assert(n_u == sg.len() as u64);
                assert(sg.len() <= len - 8);
            }
        }
        return Err(StorageError::Unauthorized);
    }
    let n = n_u as usize;
    let payload = slice_subrange(token, 8 + n, len);
    let sig = hs256_sign(secret, payload);
    let r = validate_parts(token, sig.as_slice(), expected, now);
    proof {
        match &r {
            Ok(c) => {
                assert(token@ == wire(sig@, enc_claims(c@)));
                assert(sig@.len() == n) by {
                    assert(token@.subrange(0, 8) =~= le8(sig@.len() as u64));
                }
                assert(token@.subrange(8 + n as int, len as int) =~= enc_claims(c@));
                assert(payload@ == enc_claims(c@));
                assert(sig@ == hs256_sig_of(secret@, enc_claims(c@)));
                assert(token@ == token_bytes(secret@, c@));
            },
            Err(_) => {},
        }
        // a token the secret really issued reaches validate_parts with
        // exactly its own payload and signature, so it is accepted
        assert forall|c2: TokenClaimsView|
            wf_claims(c2) && token@ == token_bytes(secret@, c2) && kind_of(c2) == expected
                && exp_of(c2) > now implies (r matches Ok(cc) && cc@ == c2) by {
            let p = enc_claims(c2);
            let sg = hs256_sig_of(secret@, p);
            assert(token@ == le8(sg.len() as u64) + sg + p);
            assert(token@.len() == 8 + sg.len() + p.len());
            assert(token@.subrange(0, 8) =~= le8(sg.len() as u64));
            assert(sg.len() <= len - 8);
            assert(n_u == sg.len() as u64);
            assert(n == sg.len());
            assert(token@.subrange(8 + n as int, len as int) =~= p);
            assert(payload@ == p);
            assert(sig@ == sg);
            assert(wire(sig@, p) =~= token@);
        }
    }
    r
}

/// The scheme prefix of a bearer authorization header.
pub open spec fn bearer_prefix() -> Seq<u8> {
    seq![0x42u8, 0x65u8, 0x61u8, 0x72u8, 0x65u8, 0x72u8, 0x20u8]
}

/// Split a bearer authorization header into its token part: the seven
/// characters of the scheme and its space are stripped, anything else
/// is refused.
pub fn extract_bearer(header: &[u8]) -> (r: Option<&[u8]>)
    ensures
        match r {
            Some(tok) => header@ == bearer_prefix() + tok@,
            None => !crate::meta::is_prefix_of(bearer_prefix(), header@),
        },
{
    let mut prefix: Vec<u8> = Vec::new();
    prefix.push(0x42);
    prefix.push(0x65);
    prefix.push(0x61);
    prefix.push(0x72);
    prefix.push(0x65);
    prefix.push(0x72);
    prefix.push(0x20);
    proof {
        assert(prefix@ =~= bearer_prefix());
    }
    if !crate::meta::starts_with(header, prefix.as_slice()) {
        return None;
    }
    let tok = slice_subrange(header, 7, header.len());
    proof {
        assert(header@ =~= bearer_prefix() + tok@);
    }
    Some(tok)
}

/// What an upload token's fingerprint hashes: expiry, issue time,
/// issuer and destination key.  The nonce stays out, so re-presenting
/// the same issued token lands on the same staging directory.
pub open spec fn fingerprint_msg(u: UploadClaimsView) -> Seq<u8> {
    le8(u.exp as u64) + le8(u.iat as u64) + u.iss + u.key
}

impl AccessClaims {
    /// Fresh access claims: expiry `expires_in_seconds` past
    /// `now_in_seconds`, with a random 64-character nonce.
    pub fn new(access_id: u128, now_in_seconds: i64, expires_in_seconds: i64, iss: Vec<u8>) -> (r:
        AccessClaims)
        requires
            i64::MIN <= now_in_seconds + expires_in_seconds <= i64::MAX,
        ensures
            r.exp == now_in_seconds + expires_in_seconds,
            r.iat == now_in_seconds,
            r.iss@ == iss@,
            r.access_id == access_id,
            r.nonce@.len() == 64,
    {
        AccessClaims {
            exp: now_in_seconds + expires_in_seconds,
            iat: now_in_seconds,
            iss: iss,
            nonce: crate::random::random_password(64),
            access_id: access_id,
        }
    }
}

impl SignedTokenClaims {
    /// Fresh signed-download claims for one object.
    pub fn new(file_id: i64, now_in_seconds: i64, expires_in_seconds: i64, iss: Vec<u8>) -> (r:
        SignedTokenClaims)
        requires
            i64::MIN <= now_in_seconds + expires_in_seconds <= i64::MAX,
        ensures
            r.exp == now_in_seconds + expires_in_seconds,
            r.iat == now_in_seconds,
            r.iss@ == iss@,
            r.file_id == file_id,
            r.nonce@.len() == 64,
    {
        SignedTokenClaims {
            exp: now_in_seconds + expires_in_seconds,
            iat: now_in_seconds,
            iss: iss,
            nonce: crate::random::random_password(64),
            file_id: file_id,
        }
    }
}

impl UploadClaims {
    /// Fresh upload claims for one destination key.
    pub fn new(key: Vec<u8>, now_in_seconds: i64, expires_in_seconds: i64, iss: Vec<u8>) -> (r:
        UploadClaims)
        requires
            i64::MIN <= now_in_seconds + expires_in_seconds <= i64::MAX,
        ensures
            r.exp == now_in_seconds + expires_in_seconds,
            r.iat == now_in_seconds,
            r.iss@ == iss@,
            r.key@ == key@,
            r.nonce@.len() == 64,
    {
        UploadClaims {
            exp: now_in_seconds + expires_in_seconds,
            iat: now_in_seconds,
            iss: iss,
            nonce: crate::random::random_password(64),
            key: key,
        }
    }

    /// The upload's fingerprint: the hex SHA-256 over expiry, issue
    /// time, issuer and destination key.  Identical claims always
    /// yield the identical fingerprint, so one issued token always
    /// lands on one staging directory.
    pub fn sha256(&self) -> (r: Vec<u8>)
        ensures
            r@ == crate::hashing::hex_of(crate::hashing::sha256_of(fingerprint_msg(self@))),
            r@.len() == 64,
    {
        let mut msg: Vec<u8> = Vec::new();
        push_le8(&mut msg, self.exp as u64);
        push_le8(&mut msg, self.iat as u64);
        msg.extend_from_slice(self.iss.as_slice());
        msg.extend_from_slice(self.key.as_slice());
        proof {
            assert(msg@ =~= fingerprint_msg(self@));
        }
        crate::hashing::sha256_hex(msg.as_slice())
    }
}

} // verus!
