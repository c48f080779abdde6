use object_storage::storage::Storage;
use object_storage::token::UploadClaims;

fn sha256_hex_of(bytes: &[u8]) -> Vec<u8> {
    let digest = <sha2::Sha256 as sha2::Digest>::digest(bytes);
    hex::encode(digest).into_bytes()
}

fn upload_fingerprint(key: &[u8], now: i64) -> Vec<u8> {
    let claims = UploadClaims::new(key.to_vec(), now, 3600, b"issuer".to_vec());
    claims.sha256()
}

#[test]
fn upload_order_independence() {
    // parts uploaded out of order assemble by index, not arrival
    let now = 1_700_000_000;
    let key = b"a/b.txt";

    let mut forward = Storage::new();
    let fp = upload_fingerprint(key, now);
    forward.create_upload(fp.as_slice());
    forward.upload_part(fp.as_slice(), 0, b"Hello, ").unwrap();
    forward.upload_part(fp.as_slice(), 1, b"World").unwrap();
    let row_fwd = forward.finish(key, fp.as_slice(), now).unwrap();

    let mut backward = Storage::new();
    let fp2 = upload_fingerprint(key, now);
    assert_eq!(fp, fp2);
    backward.create_upload(fp2.as_slice());
    backward.upload_part(fp2.as_slice(), 1, b"World").unwrap();
    backward.upload_part(fp2.as_slice(), 0, b"Hello, ").unwrap();
    let row_bwd = backward.finish(key, fp2.as_slice(), now).unwrap();

    assert_eq!(forward.read(key).unwrap(), b"Hello, World".to_vec());
    assert_eq!(backward.read(key).unwrap(), b"Hello, World".to_vec());
    assert_eq!(row_fwd.hash, sha256_hex_of(b"Hello, World"));
    assert_eq!(row_bwd.hash, row_fwd.hash);
    assert_eq!(row_fwd.size, 12);
    assert_eq!(row_bwd.size, 12);
}

#[test]
fn refinish_fails_cleanly() {
    // a second finish after the staging directory is gone must fail
    // without touching the row written by the first
    let now = 1_700_000_000;
    let key = b"a/b.txt";
    let mut s = Storage::new();
    let fp = upload_fingerprint(key, now);
    s.create_upload(fp.as_slice());
    s.upload_part(fp.as_slice(), 0, b"Hello").unwrap();
    let row = s.finish(key, fp.as_slice(), now).unwrap();

    let err = s.finish(key, fp.as_slice(), now + 5).unwrap_err();
    assert_eq!(err, object_storage::error::StorageError::Internal);
    let still = s.meta.get_by_path(key).unwrap();
    assert_eq!(still.hash, row.hash);
    assert_eq!(still.size, row.size);
    assert_eq!(still.updated_at, now);
    assert_eq!(s.read(key).unwrap(), b"Hello".to_vec());
}

#[test]
fn upload_part_overwrites_same_index() {
    let now = 7;
    let key = b"k.txt";
    let mut s = Storage::new();
    let fp = upload_fingerprint(key, now);
    s.create_upload(fp.as_slice());
    let h1 = s.upload_part(fp.as_slice(), 0, b"first").unwrap();
    assert_eq!(h1, sha256_hex_of(b"first"));
    let h2 = s.upload_part(fp.as_slice(), 0, b"second").unwrap();
    assert_eq!(h2, sha256_hex_of(b"second"));
    s.finish(key, fp.as_slice(), now).unwrap();
    assert_eq!(s.read(key).unwrap(), b"second".to_vec());
}

#[test]
fn upload_part_without_staging_fails() {
    let mut s = Storage::new();
    let err = s.upload_part(b"nosuchfingerprint", 0, b"x").unwrap_err();
    assert_eq!(err, object_storage::error::StorageError::Internal);
}

#[test]
fn create_upload_is_idempotent() {
    let now = 1;
    let key = b"k";
    let mut s = Storage::new();
    let fp = upload_fingerprint(key, now);
    s.create_upload(fp.as_slice());
    s.upload_part(fp.as_slice(), 0, b"data").unwrap();
    // creating the same staging directory again keeps its parts
    s.create_upload(fp.as_slice());
    s.finish(key, fp.as_slice(), now).unwrap();
    assert_eq!(s.read(key).unwrap(), b"data".to_vec());
}

#[test]
fn store_read_round_trip() {
    let mut s = Storage::new();
    let row = s.store(b"docs/readme.md", b"contents here", 42).unwrap();
    assert_eq!(s.read(b"docs/readme.md").unwrap(), b"contents here".to_vec());
    assert_eq!(row.size, 13);
    assert_eq!(row.hash, sha256_hex_of(b"contents here"));
    assert_eq!(row.path, b"docs/readme.md".to_vec());
}

#[test]
fn create_guard_rejects_existing_blob() {
    let mut s = Storage::new();
    s.store(b"present.txt", b"already here", 1).unwrap();
    let rows_before = s.meta.rows.len();
    let err = s.create_object(b"present.txt", None, 2).unwrap_err();
    assert_eq!(err, object_storage::error::StorageError::BadRequest);
    // nothing was created or mutated
    assert_eq!(s.meta.rows.len(), rows_before);
    let row = s.meta.get_by_path(b"present.txt").unwrap();
    assert_eq!(row.updated_at, 1);
    assert_eq!(s.read(b"present.txt").unwrap(), b"already here".to_vec());
}

#[test]
fn create_object_starts_empty() {
    let mut s = Storage::new();
    let row = s.create_object(b"fresh.bin", Some(b"application/octet-stream".to_vec()), 9).unwrap();
    assert_eq!(row.size, 0);
    assert_eq!(row.hash, sha256_hex_of(b""));
    assert_eq!(row.kind, Some(b"application/octet-stream".to_vec()));
    assert_eq!(s.read(b"fresh.bin").unwrap(), Vec::<u8>::new());
}

#[test]
fn append_accumulates_size() {
    let mut s = Storage::new();
    let row = s.create_object(b"log.txt", None, 1).unwrap();
    let r1 = s.append(row.id, b"one,", 2).unwrap();
    assert_eq!(r1.size, 4);
    let r2 = s.append(row.id, b"two", 3).unwrap();
    assert_eq!(r2.size, 7);
    assert_eq!(r2.updated_at, 3);
    assert_eq!(s.read(b"log.txt").unwrap(), b"one,two".to_vec());
}

#[test]
fn append_unknown_id_not_found() {
    let mut s = Storage::new();
    let err = s.append(77, b"x", 1).unwrap_err();
    assert_eq!(err, object_storage::error::StorageError::NotFound);
}

#[test]
fn delete_removes_row_and_blob() {
    let mut s = Storage::new();
    let row = s.store(b"gone.txt", b"bye", 1).unwrap();
    let deleted = s.delete_object(row.id).unwrap();
    assert_eq!(deleted.path, b"gone.txt".to_vec());
    assert!(s.read(b"gone.txt").is_none());
    assert!(s.meta.get_by_id(row.id).is_none());
    assert!(s.delete_object(row.id).is_none());
}

#[test]
fn move_relocates_blob() {
    let mut s = Storage::new();
    let row = s.store(b"old/name.txt", b"payload", 1).unwrap();
    let moved = s.move_object(row.id, b"new/name.txt", None, 2).unwrap().unwrap();
    assert_eq!(moved.path, b"new/name.txt".to_vec());
    assert_eq!(moved.size, 7);
    assert_eq!(s.read(b"new/name.txt").unwrap(), b"payload".to_vec());
    assert!(s.read(b"old/name.txt").is_none());
}

#[test]
fn move_merges_kind_like_coalesce() {
    let mut s = Storage::new();
    let row = s.create_object(b"a.txt", Some(b"text/plain".to_vec()), 1).unwrap();
    // no kind supplied: the stored kind is preserved
    let kept = s.move_object(row.id, b"b.txt", None, 2).unwrap().unwrap();
    assert_eq!(kept.kind, Some(b"text/plain".to_vec()));
    // a supplied kind replaces it
    let changed = s.move_object(row.id, b"c.txt", Some(b"text/markdown".to_vec()), 3).unwrap().unwrap();
    assert_eq!(changed.kind, Some(b"text/markdown".to_vec()));
}

#[test]
fn finish_upserts_over_prior_contents() {
    // the last finish to complete wins at the destination key
    let now = 50;
    let key = b"target.txt";
    let mut s = Storage::new();
    s.store(key, b"old contents", 1).unwrap();
    let fp = upload_fingerprint(key, now);
    s.create_upload(fp.as_slice());
    s.upload_part(fp.as_slice(), 0, b"new").unwrap();
    let row = s.finish(key, fp.as_slice(), now).unwrap();
    assert_eq!(row.size, 3);
    assert_eq!(row.created_at, 1);
    assert_eq!(row.updated_at, now);
    assert_eq!(s.read(key).unwrap(), b"new".to_vec());
}
