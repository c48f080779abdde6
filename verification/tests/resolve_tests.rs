use object_storage::hashing::get_file_key_sha256;
use object_storage::meta::{normalize_path, MetaTable, ObjectRow};
use object_storage::models::{AtomicValue, CreateObjectRequest, Health, Pagination};
use object_storage::error::StorageError;
use object_storage::resolve::get_objects_and_folders;

fn table_with(rows: &[(&[u8], u64, i64, i64)]) -> MetaTable {
    // (path, size, created_at, updated_at)
    let mut meta = MetaTable::new();
    for (path, size, created, updated) in rows {
        let row = meta.create(path, None, *size, b"", *created).unwrap();
        if created != updated {
            meta.update_size(row.id, *size, *updated).unwrap();
        }
    }
    meta
}

fn entry<'a>(entries: &'a [ObjectRow], path: &[u8]) -> &'a ObjectRow {
    entries
        .iter()
        .find(|e| e.path == path.to_vec())
        .expect("expected entry is missing")
}

#[test]
fn folds_root_into_one_dir_and_one_file() {
    let meta = table_with(&[(b"a/x", 10, 5, 5), (b"a/y", 20, 5, 5), (b"b", 5, 5, 5)]);
    let (entries, has_more) = get_objects_and_folders(&meta, None, None, None);
    assert!(!has_more);
    assert_eq!(entries.len(), 2);
    let dir = entry(&entries, b"a");
    assert!(dir.is_dir());
    assert_eq!(dir.id, 0);
    assert_eq!(dir.size, 30);
    assert_eq!(dir.kind, Some(b"directory".to_vec()));
    let file = entry(&entries, b"b");
    assert!(!file.is_dir());
    assert_eq!(file.size, 5);
}

#[test]
fn folder_timestamps_aggregate_earliest_created_latest_updated() {
    let meta = table_with(&[(b"a/x", 1, 10, 100), (b"a/y", 2, 20, 50)]);
    let (entries, _more) = get_objects_and_folders(&meta, None, None, None);
    let dir = entry(&entries, b"a");
    assert_eq!(dir.created_at, 10);
    assert_eq!(dir.updated_at, 100);
}

#[test]
fn listing_under_a_prefix_shows_direct_children() {
    let meta = table_with(&[
        (b"a/x", 1, 1, 1),
        (b"a/deep/z", 4, 1, 1),
        (b"a/deep/w", 6, 1, 1),
        (b"b", 9, 1, 1),
    ]);
    let (entries, _more) = get_objects_and_folders(&meta, Some(b"a"), None, None);
    assert_eq!(entries.len(), 2);
    let dir = entry(&entries, b"a/deep");
    assert!(dir.is_dir());
    assert_eq!(dir.size, 10);
    let file = entry(&entries, b"a/x");
    assert!(!file.is_dir());
    // rows outside the prefix stay out
    assert!(entries.iter().all(|e| e.path != b"b".to_vec()));
}

#[test]
fn prefix_is_normalized_before_matching() {
    let meta = table_with(&[(b"a/x", 1, 1, 1)]);
    let (entries, _more) = get_objects_and_folders(&meta, Some(b"/a/"), None, None);
    assert_eq!(entries.len(), 1);
    assert_eq!(entries[0].path, b"a/x".to_vec());
}

#[test]
fn pagination_windows_raw_rows_before_folding() {
    let meta = table_with(&[(b"a/x", 1, 1, 1), (b"a/y", 2, 1, 1), (b"a/z", 4, 1, 1)]);
    // the window covers two of the three rows: the folded folder only
    // aggregates what the window fetched
    let (entries, has_more) = get_objects_and_folders(&meta, None, Some(2), None);
    assert!(has_more);
    let dir = entry(&entries, b"a");
    assert_eq!(dir.size, 3);
    // the last window is not full, so no more is reported
    let (entries2, has_more2) = get_objects_and_folders(&meta, None, Some(2), Some(2));
    assert!(!has_more2);
    let dir2 = entry(&entries2, b"a");
    assert_eq!(dir2.size, 4);
}

#[test]
fn empty_prefix_window_is_empty() {
    let meta = table_with(&[(b"a/x", 1, 1, 1)]);
    let (entries, has_more) = get_objects_and_folders(&meta, Some(b"nothing/here"), None, None);
    assert!(entries.is_empty());
    assert!(!has_more);
}

#[test]
fn paths_normalize_by_trimming_slashes() {
    assert_eq!(normalize_path(b"/a/b/"), b"a/b".to_vec());
    assert_eq!(normalize_path(b"///x///"), b"x".to_vec());
    assert_eq!(normalize_path(b""), Vec::<u8>::new());
    assert_eq!(normalize_path(b"////"), Vec::<u8>::new());
    assert_eq!(normalize_path(b"a//b"), b"a//b".to_vec());
}

#[test]
fn meta_lookups_normalize_keys() {
    let mut meta = MetaTable::new();
    let row = meta.create(b"/spaced/key/", None, 3, b"h", 1).unwrap();
    assert_eq!(row.path, b"spaced/key".to_vec());
    let found = meta.get_by_path(b"spaced/key").unwrap();
    assert_eq!(found.id, row.id);
    let found2 = meta.get_by_path(b"/spaced/key").unwrap();
    assert_eq!(found2.id, row.id);
    assert!(meta.get_by_path(b"spaced").is_none());
}

#[test]
fn meta_create_rejects_duplicate_key() {
    let mut meta = MetaTable::new();
    meta.create(b"dup", None, 1, b"", 1).unwrap();
    assert!(meta.create(b"/dup/", None, 2, b"", 2).is_err());
}

#[test]
fn meta_update_path_rejects_conflicts() {
    let mut meta = MetaTable::new();
    let a = meta.create(b"a", None, 1, b"", 1).unwrap();
    let _b = meta.create(b"b", None, 1, b"", 1).unwrap();
    assert!(meta.update_path(a.id, b"b", None, 2).is_err());
    let moved = meta.update_path(a.id, b"c", None, 2).unwrap().unwrap();
    assert_eq!(moved.path, b"c".to_vec());
    assert_eq!(meta.update_path(999, b"d", None, 2).unwrap().is_none(), true);
}

#[test]
fn key_location_matches_direct_hash() {
    let digest = <sha2::Sha256 as sha2::Digest>::digest(b"some/key");
    assert_eq!(get_file_key_sha256(b"some/key"), hex::encode(digest).into_bytes());
}

#[test]
fn status_codes_follow_the_fixed_mapping() {
    assert_eq!(StorageError::Unauthorized.status_code(), 401);
    assert_eq!(StorageError::Forbidden.status_code(), 403);
    assert_eq!(StorageError::NotFound.status_code(), 404);
    assert_eq!(StorageError::BadRequest.status_code(), 400);
    assert_eq!(StorageError::Internal.status_code(), 500);
    assert_eq!(StorageError::Database.status_code(), 500);
}

#[test]
fn model_helpers_behave() {
    let h = Health { db: true };
    assert!(h.is_healthy());
    assert!(!Health { db: false }.is_healthy());

    let page = Pagination::new(true, vec![1u32, 2, 3]);
    assert!(page.has_more);
    assert_eq!(page.items, vec![1, 2, 3]);

    let req = CreateObjectRequest::new(String::from("a/b"));
    assert_eq!(req.path, "a/b");
    assert!(req.kind.is_none());

    let mut cell: AtomicValue<u32> = AtomicValue::empty();
    assert!(cell.is_empty());
    cell.set(7);
    assert!(!cell.is_empty());
    assert_eq!(cell.get(), 7);
    let filled = AtomicValue::new(9u32);
    assert_eq!(filled.get(), 9);
}
