use object_storage::access::{can_administer, can_delete_access, AccessStore};
use object_storage::error::StorageError;
use object_storage::service::{
    create_access_authorized, delete_access_authorized, reset_access_authorized,
};

#[test]
fn create_then_validate_succeeds() {
    let mut store = AccessStore::new();
    let (row, secret) = store.create_access(true, 100).unwrap();
    assert_eq!(secret.len(), 64);
    assert!(row.enabled);
    assert!(row.admin);
    let found = store.validate_access(row.id, secret.as_slice()).unwrap();
    assert_eq!(found.id, row.id);
    assert!(found.admin);
}

#[test]
fn wrong_secret_never_validates() {
    let mut store = AccessStore::new();
    let (row, secret) = store.create_access(false, 100).unwrap();
    let mut wrong = secret.clone();
    wrong[0] = if wrong[0] == b'a' { b'b' } else { b'a' };
    assert!(store.validate_access(row.id, wrong.as_slice()).is_none());
    assert!(store.validate_access(row.id, b"").is_none());
    assert!(store.validate_access(row.id, b"guessed-secret").is_none());
    // and an unknown principal validates under nothing
    assert!(store.validate_access(row.id.wrapping_add(1), secret.as_slice()).is_none());
}

#[test]
fn delete_disables_validation_but_keeps_row() {
    let mut store = AccessStore::new();
    let (row, secret) = store.create_access(false, 100).unwrap();
    assert!(store.delete_access(row.id));
    // the previously valid secret no longer validates
    assert!(store.validate_access(row.id, secret.as_slice()).is_none());
    // the row persists, soft-disabled, for audit
    assert_eq!(store.rows.len(), 1);
    assert!(!store.rows[0].enabled);
    // deleting again still reports the row's presence
    assert!(store.delete_access(row.id));
    assert!(!store.delete_access(row.id.wrapping_add(1)));
}

#[test]
fn reset_swaps_the_valid_secret_and_reenables() {
    let mut store = AccessStore::new();
    let (row, old_secret) = store.create_access(false, 100).unwrap();
    assert!(store.delete_access(row.id));
    let (fresh, new_secret) = store.reset_access(row.id, 200).unwrap();
    assert_ne!(old_secret, new_secret);
    assert!(fresh.enabled);
    assert_eq!(fresh.updated_at, 200);
    // only the newly returned secret validates now
    assert!(store.validate_access(row.id, old_secret.as_slice()).is_none());
    let found = store.validate_access(row.id, new_secret.as_slice()).unwrap();
    assert_eq!(found.id, row.id);
}

#[test]
fn reset_unknown_principal_is_not_found() {
    let mut store = AccessStore::new();
    let err = store.reset_access(12345, 1).unwrap_err();
    assert_eq!(err, StorageError::NotFound);
}

#[test]
fn get_access_by_id_hides_disabled_rows() {
    let mut store = AccessStore::new();
    let (row, _secret) = store.create_access(true, 1).unwrap();
    assert!(store.get_access_by_id(row.id).is_some());
    store.delete_access(row.id);
    assert!(store.get_access_by_id(row.id).is_none());
}

#[test]
fn authorization_policy() {
    let mut store = AccessStore::new();
    let (admin, _s1) = store.create_access(true, 1).unwrap();
    let (user, _s2) = store.create_access(false, 1).unwrap();
    assert!(can_administer(&admin));
    assert!(!can_administer(&user));
    // self-delete is allowed; deleting another takes an administrator
    assert!(can_delete_access(&user, user.id));
    assert!(!can_delete_access(&user, admin.id));
    assert!(can_delete_access(&admin, user.id));
}

#[test]
fn secret_is_stored_only_as_hash() {
    let mut store = AccessStore::new();
    let (row, secret) = store.create_access(false, 1).unwrap();
    let digest = <sha2::Sha256 as sha2::Digest>::digest(&secret);
    assert_eq!(row.encrypted_secret, hex::encode(digest).into_bytes());
    assert_ne!(row.encrypted_secret, secret);
}

#[test]
fn admin_guards_refuse_non_admins() {
    let mut store = AccessStore::new();
    let (admin, _s1) = store.create_access(true, 1).unwrap();
    let (user, _s2) = store.create_access(false, 1).unwrap();

    // a plain principal may not create or reset others
    let err = create_access_authorized(&mut store, &user, false, 2).unwrap_err();
    assert_eq!(err, StorageError::Forbidden);
    let err = reset_access_authorized(&mut store, &user, admin.id, 2).unwrap_err();
    assert_eq!(err, StorageError::Forbidden);
    let err = delete_access_authorized(&mut store, &user, admin.id).unwrap_err();
    assert_eq!(err, StorageError::Forbidden);

    // it may delete itself, and an admin may do everything
    assert!(delete_access_authorized(&mut store, &user, user.id).unwrap());
    let (made, _secret) = create_access_authorized(&mut store, &admin, false, 3).unwrap();
    assert!(!made.admin);
    let (reset, _secret) = reset_access_authorized(&mut store, &admin, made.id, 4).unwrap();
    assert!(reset.enabled);
}
