//! The request-level flows: each takes already-extracted plain values,
//! drives the token service, the access store and the storage engine,
//! and leaves all transport concerns to the caller.

use vstd::prelude::*;
use vstd::slice::slice_to_vec;

use crate::access::{first_with_aid, hash_of_secret, spec_validate, AccessRow, AccessStore};
use crate::error::StorageError;
use crate::hashing::{hex_of, sha256_of};
use crate::meta::{first_with_id, first_with_path, norm_path, MetaTable, ObjectRow};
use crate::storage::{
    blob_content, blobs_view, concat_parts, first_with_fp, insert_part, location_of,
    staging_view, PartView, StagingView, Storage,
};
use crate::token::{
    fingerprint_msg, issue, token_bytes, validate, wf_claims, AccessClaims, AccessClaimsView,
    SignedTokenClaims, SignedTokenClaimsView, TokenClaims, TokenClaimsView, TokenKind,
    UploadClaims, UploadClaimsView,
};

verus! {

/// The token is one this secret issued for these upload claims, still
/// unexpired at `now`.
pub open spec fn valid_upload_token(
    token: Seq<u8>,
    jwt_secret: Seq<u8>,
    u: UploadClaimsView,
    now: i64,
) -> bool {
    &&& wf_claims(TokenClaimsView::Upload(u))
    &&& token == token_bytes(jwt_secret, TokenClaimsView::Upload(u))
    &&& u.exp > now
}

/// The token is one this secret issued for these signed-download
/// claims, still unexpired at `now`.
pub open spec fn valid_signed_token(
    token: Seq<u8>,
    jwt_secret: Seq<u8>,
    s: SignedTokenClaimsView,
    now: i64,
) -> bool {
    &&& wf_claims(TokenClaimsView::SignedDownload(s))
    &&& token == token_bytes(jwt_secret, TokenClaimsView::SignedDownload(s))
    &&& s.exp > now
}

/// The staging directory an upload token's claims land on.
pub open spec fn upload_fp(u: UploadClaimsView) -> Seq<u8> {
    hex_of(sha256_of(fingerprint_msg(u)))
}

/// Exchange an id and secret for an access token: a token is owed
/// exactly when the pair validates, and the only failure is
/// `Unauthorized`.
pub fn create_token(
    store: &AccessStore,
    id: u128,
    secret: &[u8],
    jwt_secret: &[u8],
    now: i64,
    expires_in_seconds: i64,
    iss: &[u8],
) -> (r: Result<Vec<u8>, StorageError>)
    requires
        store.wf(),
        i64::MIN <= now + expires_in_seconds <= i64::MAX,
    ensures
        match r {
            Ok(t) => spec_validate(store@, id, hash_of_secret(secret@)) is Some && exists|
                n: Seq<u8>,
            |
                n.len() == 64 && t@ == token_bytes(
                    jwt_secret@,
                    TokenClaimsView::Access(
                        AccessClaimsView {
                            exp: (now + expires_in_seconds) as i64,
                            iat: now,
                            iss: iss@,
                            nonce: n,
                            access_id: id,
                        },
                    ),
                ),
            Err(e) => e == StorageError::Unauthorized && spec_validate(
                store@,
                id,
                hash_of_secret(secret@),
            ) is None,
        },
{
    let access = match store.validate_access(id, secret) {
        Some(a) => a,
        None => {
            return Err(StorageError::Unauthorized);
        },
    };
    proof {
        crate::access::lemma_first_with_aid_id(store@, id);
        assert(access@.id == id);
    }
    let claims = AccessClaims::new(access.id, now, expires_in_seconds, slice_to_vec(iss));
    let ghost cv = claims@;
    let t = issue(&TokenClaims::Access(claims), jwt_secret);
    proof {
        assert(cv == (AccessClaimsView {
            exp: (now + expires_in_seconds) as i64,
            iat: now,
            iss: iss@,
            nonce: cv.nonce,
            access_id: id,
        }));
        assert(cv.nonce.len() == 64);
        assert(t@ == token_bytes(jwt_secret@, TokenClaimsView::Access(cv)));
    }
    Ok(t)
}

/// Mint a signed-download token for the object at a key: a token is
/// owed exactly when the key has a row, and the only failure is
/// `NotFound`.
pub fn signed_token(
    meta: &MetaTable,
    key: &[u8],
    jwt_secret: &[u8],
    now: i64,
    expires_in_seconds: i64,
    iss: &[u8],
) -> (r: Result<Vec<u8>, StorageError>)
    requires
        meta.wf(),
        i64::MIN <= now + expires_in_seconds <= i64::MAX,
    ensures
        match r {
            Ok(t) => first_with_path(meta@, norm_path(key@)) is Some && exists|n: Seq<u8>|
                n.len() == 64 && t@ == token_bytes(
                    jwt_secret@,
                    TokenClaimsView::SignedDownload(
                        SignedTokenClaimsView {
                            exp: (now + expires_in_seconds) as i64,
                            iat: now,
                            iss: iss@,
                            nonce: n,
                            file_id: (first_with_path(meta@, norm_path(key@))->Some_0).id,
                        },
                    ),
                ),
            Err(e) => e == StorageError::NotFound && first_with_path(
                meta@,
                norm_path(key@),
            ) is None,
        },
{
    let row = match meta.get_by_path(key) {
        Some(row) => row,
        None => {
            return Err(StorageError::NotFound);
        },
    };
    let claims = SignedTokenClaims::new(row.id, now, expires_in_seconds, slice_to_vec(iss));
    let ghost cv = claims@;
    let t = issue(&TokenClaims::SignedDownload(claims), jwt_secret);
    proof {
        assert(cv == (SignedTokenClaimsView {
            exp: (now + expires_in_seconds) as i64,
            iat: now,
            iss: iss@,
            nonce: cv.nonce,
            file_id: (first_with_path(meta@, norm_path(key@))->Some_0).id,
        }));
        assert(cv.nonce.len() == 64);
        assert(t@ == token_bytes(jwt_secret@, TokenClaimsView::SignedDownload(cv)));
    }
    Ok(t)
}

/// Mint an upload token for a destination key and make sure its
/// staging directory exists: every request is answered with a token,
/// and a pre-existing staging directory is kept as it is.  Presenting
/// the token later lands on that directory, because the fingerprint
/// covers expiry, issue time, issuer and key alone.
pub fn create_upload_token(
    storage: &mut Storage,
    key: &[u8],
    jwt_secret: &[u8],
    now: i64,
    expires_in_seconds: i64,
    iss: &[u8],
) -> (t: Vec<u8>)
    requires
        old(storage).wf(),
        i64::MIN <= now + expires_in_seconds <= i64::MAX,
    ensures
        final(storage).wf(),
        final(storage).meta@ == old(storage).meta@,
        blobs_view(final(storage).blobs@) == blobs_view(old(storage).blobs@),
        ({
            let u = UploadClaimsView {
                exp: (now + expires_in_seconds) as i64,
                iat: now,
                iss: iss@,
                nonce: Seq::<u8>::empty(),
                key: key@,
            };
            &&& exists|n: Seq<u8>|
                n.len() == 64 && t@ == token_bytes(
                    jwt_secret@,
                    TokenClaimsView::Upload(
                        UploadClaimsView {
                            exp: (now + expires_in_seconds) as i64,
                            iat: now,
                            iss: iss@,
                            nonce: n,
                            key: key@,
                        },
                    ),
                )
            &&& first_with_fp(staging_view(final(storage).staging@), upload_fp(u)) is Some
            &&& match first_with_fp(staging_view(old(storage).staging@), upload_fp(u)) {
                Some(_d) => staging_view(final(storage).staging@) == staging_view(
                    old(storage).staging@,
                ),
                None => staging_view(final(storage).staging@) == staging_view(
                    old(storage).staging@,
                ).push(
                    (StagingView { fingerprint: upload_fp(u), parts: Seq::<PartView>::empty() }),
                ),
            }
        }),
{
    let claims = UploadClaims::new(
        slice_to_vec(key),
        now,
        expires_in_seconds,
        slice_to_vec(iss),
    );
    let fingerprint = claims.sha256();
    let ghost cv = claims@;
    let token = issue(&TokenClaims::Upload(claims), jwt_secret);
    storage.create_upload(fingerprint.as_slice());
    proof {
        assert(fingerprint_msg(cv) == fingerprint_msg(
            UploadClaimsView {
                exp: (now + expires_in_seconds) as i64,
                iat: now,
                iss: iss@,
                nonce: Seq::<u8>::empty(),
                key: key@,
            },
        ));
        assert(token@ == token_bytes(jwt_secret@, TokenClaimsView::Upload(cv)));
        assert(cv.nonce.len() == 64);
    }
    token
}

/// Receive one part of an upload.  Exactly the tokens this secret
/// issued as upload tokens, unexpired at `now`, get past the check:
/// anything else is `Unauthorized` with nothing changed.  With a valid
/// token, `Internal` happens exactly when the token's staging
/// directory is missing, again with nothing changed; otherwise the
/// part lands in that directory and its content hash comes back.
pub fn upload_part_with_token(
    storage: &mut Storage,
    token: &[u8],
    jwt_secret: &[u8],
    index: u64,
    bytes: &[u8],
    now: i64,
) -> (r: Result<Vec<u8>, StorageError>)
    requires
        old(storage).wf(),
    ensures
        final(storage).wf(),
        final(storage).meta@ == old(storage).meta@,
        blobs_view(final(storage).blobs@) == blobs_view(old(storage).blobs@),
        match r {
            Ok(h) => h@ == hex_of(sha256_of(bytes@)) && exists|u: UploadClaimsView|
                {
                    &&& valid_upload_token(token@, jwt_secret@, u, now)
                    &&& exists|i: int|
                        {
                            &&& 0 <= i < staging_view(old(storage).staging@).len()
                            &&& staging_view(old(storage).staging@)[i].fingerprint == upload_fp(u)
                            &&& staging_view(final(storage).staging@) == staging_view(
                                old(storage).staging@,
                            ).update(
                                i,
                                (StagingView {
                                    fingerprint: upload_fp(u),
                                    parts: insert_part(
                                        staging_view(old(storage).staging@)[i].parts,
                                        (PartView { index: index, data: bytes@ }),
                                    ),
                                }),
                            )
                        }
                },
            Err(e) => {
                &&& (e == StorageError::Unauthorized || e == StorageError::Internal)
                &&& staging_view(final(storage).staging@) == staging_view(old(storage).staging@)
                &&& (e == StorageError::Unauthorized ==> forall|u: UploadClaimsView|
                    !valid_upload_token(token@, jwt_secret@, u, now))
                &&& (e == StorageError::Internal ==> exists|u: UploadClaimsView|
                    valid_upload_token(token@, jwt_secret@, u, now) && first_with_fp(
                        staging_view(old(storage).staging@),
                        upload_fp(u),
                    ) is None)
            },
        },
{
    let claims = match validate(token, jwt_secret, TokenKind::Upload, now) {
        Ok(c) => c,
        Err(_e) => {
            proof {
                assert forall|u: UploadClaimsView| !valid_upload_token(
                    token@,
                    jwt_secret@,
                    u,
                    now,
                ) by {}
            }
            return Err(StorageError::Unauthorized);
        },
    };
    let upload = match claims {
        TokenClaims::Upload(u) => u,
        TokenClaims::Access(_a) => {
            proof {
                assert(false);
            }
            return Err(StorageError::Internal);
        },
        TokenClaims::SignedDownload(_s) => {
            proof {
                assert(false);
            }
            return Err(StorageError::Internal);
        },
    };
    let ghost uv = upload@;
    let fingerprint = upload.sha256();
    let r = storage.upload_part(fingerprint.as_slice(), index, bytes);
    proof {
        assert(valid_upload_token(token@, jwt_secret@, uv, now));
        assert(fingerprint@ == upload_fp(uv));
    }
    r
}

/// Finish an upload through its token.  Exactly the unexpired upload
/// tokens of this secret get past the check; `Internal` happens
/// exactly when the token's staging directory is gone (nothing
/// changed); on success the staged parts are assembled into the
/// token's destination key, blob written, staging removed, row
/// upserted; a `Database` failure after the blob write leaves exactly
/// the stated divergence.
pub fn finish_with_token(
    storage: &mut Storage,
    token: &[u8],
    jwt_secret: &[u8],
    now: i64,
) -> (r: Result<ObjectRow, StorageError>)
    requires
        old(storage).wf(),
    ensures
        final(storage).wf(),
        match r {
            Ok(row) => exists|u: UploadClaimsView|
                {
                    &&& valid_upload_token(token@, jwt_secret@, u, now)
                    &&& exists|i: int|
                        {
                            &&& 0 <= i < staging_view(old(storage).staging@).len()
                            &&& staging_view(old(storage).staging@)[i].fingerprint == upload_fp(u)
                            &&& staging_view(final(storage).staging@) == staging_view(
                                old(storage).staging@,
                            ).remove(i)
                            &&& forall|l: Seq<u8>|
                                #[trigger] blob_content(blobs_view(final(storage).blobs@), l)
                                    == if l == location_of(u.key) {
                                    Some(
                                        concat_parts(
                                            staging_view(old(storage).staging@)[i].parts,
                                        ),
                                    )
                                } else {
                                    blob_content(blobs_view(old(storage).blobs@), l)
                                }
                            &&& crate::meta::upsert_post(
                                old(storage).meta@,
                                old(storage).meta.next_id,
                                final(storage).meta@,
                                final(storage).meta.next_id,
                                u.key,
                                hex_of(
                                    sha256_of(
                                        concat_parts(
                                            staging_view(old(storage).staging@)[i].parts,
                                        ),
                                    ),
                                ),
                                concat_parts(
                                    staging_view(old(storage).staging@)[i].parts,
                                ).len() as u64,
                                now,
                                row@,
                            )
                        }
                },
            Err(e) => {
                &&& (e == StorageError::Unauthorized || e == StorageError::Internal || e
                    == StorageError::Database)
                &&& (e == StorageError::Unauthorized ==> (forall|u: UploadClaimsView|
                    !valid_upload_token(token@, jwt_secret@, u, now)) && final(storage).meta@
                    == old(storage).meta@ && staging_view(final(storage).staging@)
                    == staging_view(old(storage).staging@) && blobs_view(final(storage).blobs@)
                    == blobs_view(old(storage).blobs@))
                &&& (e == StorageError::Internal ==> (exists|u: UploadClaimsView|
                    valid_upload_token(token@, jwt_secret@, u, now) && first_with_fp(
                        staging_view(old(storage).staging@),
                        upload_fp(u),
                    ) is None) && final(storage).meta@ == old(storage).meta@ && staging_view(
                    final(storage).staging@,
                ) == staging_view(old(storage).staging@) && blobs_view(final(storage).blobs@)
                    == blobs_view(old(storage).blobs@))
                &&& (e == StorageError::Database ==> final(storage).meta@ == old(storage).meta@
                    && old(storage).meta.next_id == i64::MAX && exists|u: UploadClaimsView|
                    {
                        &&& valid_upload_token(token@, jwt_secret@, u, now)
                        &&& crate::meta::first_with_path(
                            old(storage).meta@,
                            norm_path(u.key),
                        ) is None
                        &&& exists|i: int|
                            {
                                &&& 0 <= i < staging_view(old(storage).staging@).len()
                                &&& staging_view(old(storage).staging@)[i].fingerprint
                                    == upload_fp(u)
                                &&& staging_view(final(storage).staging@) == staging_view(
                                    old(storage).staging@,
                                ).remove(i)
                                &&& forall|l: Seq<u8>|
                                    #[trigger] blob_content(
                                        blobs_view(final(storage).blobs@),
                                        l,
                                    ) == if l == location_of(u.key) {
                                        Some(
                                            concat_parts(
                                                staging_view(old(storage).staging@)[i].parts,
                                            ),
                                        )
                                    } else {
                                        blob_content(blobs_view(old(storage).blobs@), l)
                                    }
                            }
                    })
            },
        },
{
    let claims = match validate(token, jwt_secret, TokenKind::Upload, now) {
        Ok(c) => c,
        Err(_e) => {
            proof {
                assert forall|u: UploadClaimsView| !valid_upload_token(
                    token@,
                    jwt_secret@,
                    u,
                    now,
                ) by {}
            }
            return Err(StorageError::Unauthorized);
        },
    };
    let upload = match claims {
        TokenClaims::Upload(u) => u,
        TokenClaims::Access(_a) => {
            proof {
                assert(false);
            }
            return Err(StorageError::Internal);
        },
        TokenClaims::SignedDownload(_s) => {
            proof {
                assert(false);
            }
            return Err(StorageError::Internal);
        },
    };
    let ghost uv = upload@;
    let fingerprint = upload.sha256();
    let r = storage.finish(upload.key.as_slice(), fingerprint.as_slice(), now);
    proof {
        assert(valid_upload_token(token@, jwt_secret@, uv, now));
        assert(fingerprint@ == upload_fp(uv));
    }
    r
}

/// Serve a signed download.  Exactly the unexpired signed-download
/// tokens of this secret get past the check; with a valid token,
/// `NotFound` happens exactly when the token's object has no row,
/// `Internal` exactly when the row's blob is missing, and otherwise
/// the stored bytes at the object's location come back.
pub fn read_by_signed_token(storage: &Storage, token: &[u8], jwt_secret: &[u8], now: i64) -> (r:
    Result<Vec<u8>, StorageError>)
    requires
        storage.wf(),
    ensures
        match r {
            Ok(bytes) => exists|s: SignedTokenClaimsView|
                {
                    &&& valid_signed_token(token@, jwt_secret@, s, now)
                    &&& first_with_id(storage.meta@, s.file_id) is Some
                    &&& blob_content(
                        blobs_view(storage.blobs@),
                        location_of((first_with_id(storage.meta@, s.file_id)->Some_0).path),
                    ) == Some(bytes@)
                },
            Err(e) => {
                &&& (e == StorageError::Unauthorized || e == StorageError::NotFound || e
                    == StorageError::Internal)
                &&& (e == StorageError::Unauthorized ==> forall|s: SignedTokenClaimsView|
                    !valid_signed_token(token@, jwt_secret@, s, now))
                &&& (e == StorageError::NotFound ==> exists|s: SignedTokenClaimsView|
                    valid_signed_token(token@, jwt_secret@, s, now) && first_with_id(
                        storage.meta@,
                        s.file_id,
                    ) is None)
                &&& (e == StorageError::Internal ==> exists|s: SignedTokenClaimsView|
                    valid_signed_token(token@, jwt_secret@, s, now) && first_with_id(
                        storage.meta@,
                        s.file_id,
                    ) is Some && blob_content(
                        blobs_view(storage.blobs@),
                        location_of((first_with_id(storage.meta@, s.file_id)->Some_0).path),
                    ) is None)
            },
        },
{
    let claims = match validate(token, jwt_secret, TokenKind::SignedDownload, now) {
        Ok(c) => c,
        Err(_e) => {
            proof {
                assert forall|s: SignedTokenClaimsView| !valid_signed_token(
                    token@,
                    jwt_secret@,
                    s,
                    now,
                ) by {}
            }
            return Err(StorageError::Unauthorized);
        },
    };
    let signed = match claims {
        TokenClaims::SignedDownload(s) => s,
        TokenClaims::Access(_a) => {
            proof {
                assert(false);
            }
            return Err(StorageError::Internal);
        },
        TokenClaims::Upload(_u) => {
            proof {
                assert(false);
            }
            return Err(StorageError::Internal);
        },
    };
    let ghost sv = signed@;
    let row = match storage.meta.get_by_id(signed.file_id) {
        Some(row) => row,
        None => {
            proof {
                assert(valid_signed_token(token@, jwt_secret@, sv, now));
            }
            return Err(StorageError::NotFound);
        },
    };
    proof {
        assert(valid_signed_token(token@, jwt_secret@, sv, now));
        assert(first_with_id(storage.meta@, sv.file_id) == Some(row@));
    }
    match storage.read(row.path.as_slice()) {
        Some(bytes) => Ok(bytes),
        None => Err(StorageError::Internal),
    }
}

/// The cache-refresh rule for third-party service-account tokens: a
/// cached token is accepted while `now` has not reached its issue
/// time plus its lifetime, less a small skew; at or past that point
/// the caller refreshes.
pub fn token_cache_fresh(now: i64, issued_at: i64, expires_in: i64, skew: i64) -> (r: bool)
    requires
        i64::MIN <= issued_at + expires_in <= i64::MAX,
        i64::MIN <= issued_at + expires_in - skew <= i64::MAX,
    ensures
        r == (now <= issued_at + expires_in - skew),
{
    now <= issued_at + expires_in - skew
}

/// Create a principal on behalf of a caller: an admin-only operation,
/// refused with `Forbidden` for anyone else.
pub fn create_access_authorized(
    store: &mut AccessStore,
    caller: &AccessRow,
    admin: bool,
    now: i64,
) -> (r: Result<(AccessRow, Vec<u8>), StorageError>)
    requires
        old(store).wf(),
    ensures
        final(store).wf(),
        !caller@.admin ==> (r matches Err(e) && e == StorageError::Forbidden && final(store)@
            == old(store)@),
        match r {
            Ok((row, secret)) => {
                &&& caller@.admin
                &&& secret@.len() == 64
                &&& row@.secret_hash == hash_of_secret(secret@)
                &&& row@.admin == admin
                &&& row@.enabled
                &&& final(store)@ == old(store)@.push(row@)
            },
            Err(e) => final(store)@ == old(store)@ && (e == StorageError::Forbidden || e
                == StorageError::Database),
        },
{
    if !crate::access::can_administer(caller) {
        return Err(StorageError::Forbidden);
    }
    store.create_access(admin, now)
}

/// Reset a principal's secret on behalf of a caller: admin-only, and
/// for an administrator `NotFound` happens exactly when the id has no
/// row.
pub fn reset_access_authorized(
    store: &mut AccessStore,
    caller: &AccessRow,
    id: u128,
    now: i64,
) -> (r: Result<(AccessRow, Vec<u8>), StorageError>)
    requires
        old(store).wf(),
    ensures
        final(store).wf(),
        !caller@.admin ==> (r matches Err(e) && e == StorageError::Forbidden && final(store)@
            == old(store)@),
        match r {
            Ok((row, secret)) => {
                &&& caller@.admin
                &&& first_with_aid(old(store)@, id) is Some
                &&& secret@.len() == 64
                &&& row@.enabled
                &&& row@.secret_hash == hash_of_secret(secret@)
                &&& row@.id == id
            },
            Err(e) => {
                &&& final(store)@ == old(store)@
                &&& (e == StorageError::Forbidden || e == StorageError::NotFound)
                &&& (e == StorageError::Forbidden <==> !caller@.admin)
                &&& (e == StorageError::NotFound ==> caller@.admin && first_with_aid(
                    old(store)@,
                    id,
                ) is None)
            },
        },
{
    if !crate::access::can_administer(caller) {
        return Err(StorageError::Forbidden);
    }
    store.reset_access(id, now)
}

/// Soft-disable a principal on behalf of a caller: the caller may
/// remove itself, an administrator may remove anyone; others are
/// refused with `Forbidden`.
pub fn delete_access_authorized(
    store: &mut AccessStore,
    caller: &AccessRow,
    id: u128,
) -> (r: Result<bool, StorageError>)
    requires
        old(store).wf(),
    ensures
        final(store).wf(),
        match r {
            Ok(found) => (caller@.admin || caller@.id == id) && found == (first_with_aid(
                old(store)@,
                id,
            ) is Some),
            Err(e) => {
                &&& e == StorageError::Forbidden
                &&& !caller@.admin
                &&& caller@.id != id
                &&& final(store)@ == old(store)@
            },
        },
{
    if !crate::access::can_delete_access(caller, id) {
        return Err(StorageError::Forbidden);
    }
    Ok(store.delete_access(id))
}

} // verus!
