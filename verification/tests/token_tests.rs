use object_storage::error::StorageError;
use object_storage::token::{
    extract_bearer, issue, parse_claims, serialize_claims, validate, AccessClaims,
    SignedTokenClaims, TokenClaims, TokenKind, UploadClaims,
};

const SECRET: &[u8] = b"SECRET-REDACTED";

#[test]
fn issue_then_validate_round_trip() {
    let now = 1_700_000_000;
    let claims = TokenClaims::Upload(UploadClaims::new(
        b"a/b.txt".to_vec(),
        now,
        3600,
        b"https://issuer.example".to_vec(),
    ));
    let token = issue(&claims, SECRET);
    let back = validate(token.as_slice(), SECRET, TokenKind::Upload, now).unwrap();
    match back {
        TokenClaims::Upload(u) => {
            assert_eq!(u.key, b"a/b.txt".to_vec());
            assert_eq!(u.exp, now + 3600);
            assert_eq!(u.iat, now);
            assert_eq!(u.iss, b"https://issuer.example".to_vec());
            assert_eq!(u.nonce.len(), 64);
        }
        _ => panic!("wrong claim kind came back"),
    }
}

#[test]
fn expired_token_is_rejected() {
    // the signature is perfectly valid; only the expiry is in the past
    let now = 1_700_000_000;
    let claims = TokenClaims::Access(AccessClaims::new(42, now - 7200, 3600, b"iss".to_vec()));
    let token = issue(&claims, SECRET);
    let err = validate(token.as_slice(), SECRET, TokenKind::Access, now).unwrap_err();
    assert_eq!(err, StorageError::Unauthorized);
    // the same token is accepted before its expiry
    assert!(validate(token.as_slice(), SECRET, TokenKind::Access, now - 7000).is_ok());
}

#[test]
fn tampered_token_is_rejected() {
    let now = 10;
    let claims = TokenClaims::SignedDownload(SignedTokenClaims::new(7, now, 100, b"iss".to_vec()));
    let mut token = issue(&claims, SECRET);
    let last = token.len() - 1;
    token[last] ^= 1;
    let err = validate(token.as_slice(), SECRET, TokenKind::SignedDownload, now).unwrap_err();
    assert_eq!(err, StorageError::Unauthorized);
}

#[test]
fn wrong_secret_is_rejected() {
    let now = 10;
    let claims = TokenClaims::SignedDownload(SignedTokenClaims::new(7, now, 100, b"iss".to_vec()));
    let token = issue(&claims, SECRET);
    let err =
        validate(token.as_slice(), b"some-other-secret", TokenKind::SignedDownload, now)
            .unwrap_err();
    assert_eq!(err, StorageError::Unauthorized);
}

#[test]
fn wrong_kind_is_rejected() {
    let now = 10;
    let claims = TokenClaims::Upload(UploadClaims::new(b"k".to_vec(), now, 100, b"iss".to_vec()));
    let token = issue(&claims, SECRET);
    let err = validate(token.as_slice(), SECRET, TokenKind::Access, now).unwrap_err();
    assert_eq!(err, StorageError::Unauthorized);
}

#[test]
fn garbage_tokens_are_rejected() {
    assert!(validate(b"", SECRET, TokenKind::Access, 0).is_err());
    assert!(validate(b"short", SECRET, TokenKind::Access, 0).is_err());
    assert!(validate(&[0u8; 64], SECRET, TokenKind::Access, 0).is_err());
}

#[test]
fn claims_codec_round_trip() {
    let c = TokenClaims::Access(AccessClaims {
        exp: -5,
        iat: i64::MIN,
        iss: b"issuer".to_vec(),
        nonce: b"n".to_vec(),
        access_id: u128::MAX - 3,
    });
    let bytes = serialize_claims(&c);
    match parse_claims(bytes.as_slice()).unwrap() {
        TokenClaims::Access(a) => {
            assert_eq!(a.exp, -5);
            assert_eq!(a.iat, i64::MIN);
            assert_eq!(a.iss, b"issuer".to_vec());
            assert_eq!(a.nonce, b"n".to_vec());
            assert_eq!(a.access_id, u128::MAX - 3);
        }
        _ => panic!("variant changed in the codec"),
    }

    let u = TokenClaims::Upload(UploadClaims {
        exp: 1,
        iat: 2,
        iss: Vec::new(),
        nonce: Vec::new(),
        key: b"deep/nested/key".to_vec(),
    });
    let bytes = serialize_claims(&u);
    match parse_claims(bytes.as_slice()).unwrap() {
        TokenClaims::Upload(uu) => {
            assert_eq!(uu.key, b"deep/nested/key".to_vec());
            assert_eq!(uu.iss, Vec::<u8>::new());
        }
        _ => panic!("variant changed in the codec"),
    }
}

#[test]
fn claims_parser_rejects_malformed_input() {
    assert_eq!(parse_claims(b"").unwrap_err(), StorageError::Unauthorized);
    assert_eq!(parse_claims(&[9u8; 60]).unwrap_err(), StorageError::Unauthorized);
    // a valid encoding truncated by one byte no longer parses
    let c = TokenClaims::SignedDownload(SignedTokenClaims {
        exp: 1,
        iat: 2,
        iss: b"i".to_vec(),
        nonce: b"nn".to_vec(),
        file_id: 3,
    });
    let bytes = serialize_claims(&c);
    assert!(parse_claims(&bytes[..bytes.len() - 1]).is_err());
    assert!(parse_claims(bytes.as_slice()).is_ok());
}

#[test]
fn fingerprint_is_deterministic_and_ignores_nonce() {
    let now = 1_700_000_000;
    // two separately issued tokens for the same destination carry
    // different nonces yet land on the same staging directory
    let a = UploadClaims::new(b"same/key".to_vec(), now, 60, b"iss".to_vec());
    let b = UploadClaims::new(b"same/key".to_vec(), now, 60, b"iss".to_vec());
    assert_ne!(a.nonce, b.nonce);
    assert_eq!(a.sha256(), b.sha256());
    assert_eq!(a.sha256().len(), 64);
    // and a different key lands elsewhere
    let c = UploadClaims::new(b"other/key".to_vec(), now, 60, b"iss".to_vec());
    assert_ne!(a.sha256(), c.sha256());
}

#[test]
fn fingerprint_matches_direct_hash() {
    let u = UploadClaims {
        exp: 0x0102030405060708,
        iat: 0,
        iss: b"i".to_vec(),
        nonce: b"ignored".to_vec(),
        key: b"k".to_vec(),
    };
    let mut msg: Vec<u8> = Vec::new();
    msg.extend_from_slice(&(0x0102030405060708u64).to_le_bytes());
    msg.extend_from_slice(&0u64.to_le_bytes());
    msg.extend_from_slice(b"i");
    msg.extend_from_slice(b"k");
    let digest = <sha2::Sha256 as sha2::Digest>::digest(&msg);
    assert_eq!(u.sha256(), hex::encode(digest).into_bytes());
}

#[test]
fn bearer_header_splits_off_the_scheme() {
    assert_eq!(extract_bearer(b"Bearer abc.def").unwrap(), b"abc.def");
    assert_eq!(extract_bearer(b"Bearer ").unwrap(), b"");
    assert!(extract_bearer(b"Basic abc").is_none());
    assert!(extract_bearer(b"Bear").is_none());
    assert!(extract_bearer(b"").is_none());
}
