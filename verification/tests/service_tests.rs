use object_storage::access::AccessStore;
use object_storage::error::StorageError;
use object_storage::service::{
    create_token, create_upload_token, finish_with_token, signed_token, token_cache_fresh,
    upload_part_with_token,
};
use object_storage::storage::Storage;
use object_storage::token::{validate, TokenClaims, TokenKind};

const JWT_SECRET: &[u8] = b"SECRET-REDACTED";

#[test]
fn token_exchange_requires_a_valid_secret() {
    let mut access = AccessStore::new();
    let now = 1_700_000_000;
    let (principal, secret) = access.create_access(false, now).unwrap();

    let token = create_token(&access, principal.id, &secret, JWT_SECRET, now, 600, b"iss")
        .unwrap();
    let claims = validate(&token, JWT_SECRET, TokenKind::Access, now).unwrap();
    match claims {
        TokenClaims::Access(a) => assert_eq!(a.access_id, principal.id),
        _ => panic!("wrong claim kind"),
    }

    let err = create_token(&access, principal.id, b"wrong", JWT_SECRET, now, 600, b"iss")
        .unwrap_err();
    assert_eq!(err, StorageError::Unauthorized);
}

#[test]
fn signed_token_names_the_object() {
    let mut storage = Storage::new();
    let now = 5;
    let row = storage.store(b"file.bin", b"xyz", now).unwrap();
    let token = signed_token(&storage.meta, b"file.bin", JWT_SECRET, now, 60, b"iss").unwrap();
    match validate(&token, JWT_SECRET, TokenKind::SignedDownload, now).unwrap() {
        TokenClaims::SignedDownload(s) => assert_eq!(s.file_id, row.id),
        _ => panic!("wrong claim kind"),
    }
    let err = signed_token(&storage.meta, b"absent", JWT_SECRET, now, 60, b"iss").unwrap_err();
    assert_eq!(err, StorageError::NotFound);
}

#[test]
fn full_upload_flow_through_tokens() {
    let mut storage = Storage::new();
    let now = 1_700_000_000;
    let key = b"uploads/data.bin";

    let token = create_upload_token(&mut storage, key, JWT_SECRET, now, 3600, b"iss");
    let h1 = upload_part_with_token(&mut storage, &token, JWT_SECRET, 1, b"-tail", now).unwrap();
    let h0 = upload_part_with_token(&mut storage, &token, JWT_SECRET, 0, b"head", now).unwrap();
    assert_ne!(h0, h1);

    let row = finish_with_token(&mut storage, &token, JWT_SECRET, now).unwrap();
    assert_eq!(row.path, key.to_vec());
    assert_eq!(row.size, 9);
    assert_eq!(storage.read(key).unwrap(), b"head-tail".to_vec());

    // a token for a different secret is turned away before any change
    let err =
        upload_part_with_token(&mut storage, &token, b"other-secret", 2, b"x", now).unwrap_err();
    assert_eq!(err, StorageError::Unauthorized);

    // finishing again fails: the staging directory is gone
    let err = finish_with_token(&mut storage, &token, JWT_SECRET, now).unwrap_err();
    assert_eq!(err, StorageError::Internal);
}

#[test]
fn expired_upload_token_is_refused_everywhere() {
    let mut storage = Storage::new();
    let now = 1_700_000_000;
    let token = create_upload_token(&mut storage, b"k", JWT_SECRET, now - 7200, 3600, b"iss");
    let err = upload_part_with_token(&mut storage, &token, JWT_SECRET, 0, b"x", now).unwrap_err();
    assert_eq!(err, StorageError::Unauthorized);
    let err = finish_with_token(&mut storage, &token, JWT_SECRET, now).unwrap_err();
    assert_eq!(err, StorageError::Unauthorized);
}

#[test]
fn signed_download_serves_the_blob() {
    let mut storage = Storage::new();
    let now = 9;
    storage.store(b"a/file.bin", b"blob bytes", now).unwrap();
    let token = signed_token(&storage.meta, b"a/file.bin", JWT_SECRET, now, 60, b"iss").unwrap();
    let bytes =
        object_storage::service::read_by_signed_token(&storage, &token, JWT_SECRET, now).unwrap();
    assert_eq!(bytes, b"blob bytes".to_vec());
    // expired, the same token serves nothing
    let err = object_storage::service::read_by_signed_token(&storage, &token, JWT_SECRET, now + 61)
        .unwrap_err();
    assert_eq!(err, StorageError::Unauthorized);
}

#[test]
fn edit_requires_an_existing_row() {
    let mut storage = Storage::new();
    let err = storage.edit(b"missing", b"x", 1).unwrap_err();
    assert_eq!(err, StorageError::NotFound);
    storage.store(b"present", b"v1", 1).unwrap();
    let row = storage.edit(b"present", b"version two", 2).unwrap();
    assert_eq!(row.size, 11);
    assert_eq!(storage.read(b"present").unwrap(), b"version two".to_vec());
}

#[test]
fn cache_freshness_follows_the_skew_rule() {
    // a token issued at 1000 for 300 seconds with 5s skew is fresh
    // through 1295 and stale from 1296
    assert!(token_cache_fresh(1295, 1000, 300, 5));
    assert!(!token_cache_fresh(1296, 1000, 300, 5));
}
