//! Access store: principal records backing the access token kind.
//! A principal's secret is kept only as a hash and compared in
//! constant time; deleting soft-disables the row, which stays for
//! audit; resetting replaces the secret and re-enables.

use vstd::prelude::*;
use vstd::slice::slice_to_vec;

use crate::error::StorageError;
use crate::hashing::{ct_eq, hex_of, sha256_hex, sha256_of};

verus! {

/// One principal row.
#[derive(Debug)]
pub struct AccessRow {
    pub id: u128,
    pub encrypted_secret: Vec<u8>,
    pub admin: bool,
    pub enabled: bool,
    pub created_at: i64,
    pub updated_at: i64,
}

pub struct AccessRowView {
    pub id: u128,
    pub secret_hash: Seq<u8>,
    pub admin: bool,
    pub enabled: bool,
    pub created_at: i64,
    pub updated_at: i64,
}

impl View for AccessRow {
    type V = AccessRowView;

    open spec fn view(&self) -> AccessRowView {
        AccessRowView {
            id: self.id,
            secret_hash: self.encrypted_secret@,
            admin: self.admin,
            enabled: self.enabled,
            created_at: self.created_at,
            updated_at: self.updated_at,
        }
    }
}

impl AccessRow {
    /// A field-for-field copy of the row.
    pub fn duplicate(&self) -> (r: AccessRow)
        ensures
            r@ == self@,
    {
        AccessRow {
            id: self.id,
            encrypted_secret: slice_to_vec(self.encrypted_secret.as_slice()),
            admin: self.admin,
            enabled: self.enabled,
            created_at: self.created_at,
            updated_at: self.updated_at,
        }
    }
}

/// How a presented secret is stored and compared: its hex SHA-256.
pub open spec fn hash_of_secret(secret: Seq<u8>) -> Seq<u8> {
    hex_of(sha256_of(secret))
}

pub open spec fn access_view(v: Seq<AccessRow>) -> Seq<AccessRowView> {
    v.map_values(|r: AccessRow| r@)
}

pub open spec fn first_with_aid(v: Seq<AccessRowView>, id: u128) -> Option<AccessRowView>
    decreases v.len(),
{
    if v.len() == 0 {
        None
    } else if v[0].id == id {
        Some(v[0])
    } else {
        first_with_aid(v.drop_first(), id)
    }
}

/// What validating `id` against a secret hash yields: the enabled row
/// whose stored hash matches, and nothing otherwise.  A missing
/// principal, a disabled one and a wrong secret are indistinguishable
/// to the caller.
pub open spec fn spec_validate(v: Seq<AccessRowView>, id: u128, h: Seq<u8>) -> Option<
    AccessRowView,
> {
    match first_with_aid(v, id) {
        Some(a) => if a.enabled && a.secret_hash == h {
            Some(a)
        } else {
            None
        },
        None => None,
    }
}

pub proof fn lemma_first_with_aid_skip(v: Seq<AccessRowView>, id: u128, i: int)
    requires
        0 <= i <= v.len(),
        forall|j: int| 0 <= j < i ==> v[j].id != id,
    ensures
        first_with_aid(v, id) == first_with_aid(v.skip(i), id),
    decreases i,
{
    if i > 0 {
        assert(v.drop_first() =~= v.skip(1));
        lemma_first_with_aid_skip(v.skip(1), id, i - 1);
        assert(v.skip(1).skip(i - 1) =~= v.skip(i));
    } else {
        assert(v.skip(0) =~= v);
    }
}

pub proof fn lemma_first_with_aid_at(v: Seq<AccessRowView>, id: u128, i: int)
    requires
        0 <= i < v.len(),
        v[i].id == id,
        forall|j: int| 0 <= j < i ==> v[j].id != id,
    ensures
        first_with_aid(v, id) == Some(v[i]),
{
    lemma_first_with_aid_skip(v, id, i);
    assert(v.skip(i)[0] == v[i]);
}

pub proof fn lemma_first_with_aid_none(v: Seq<AccessRowView>, id: u128)
    ensures
        (first_with_aid(v, id) is None) <==> (forall|j: int|
            0 <= j < v.len() ==> v[j].id != id),
    decreases v.len(),
{
    if v.len() > 0 && v[0].id != id {
        lemma_first_with_aid_none(v.drop_first(), id);
        if first_with_aid(v, id) is None {
            assert forall|j: int| 0 <= j < v.len() implies v[j].id != id by {
                if j >= 1 {
                    assert(v.drop_first()[j - 1].id != id);
                }
            }
        } else {
            let j = choose|j: int| 0 <= j < v.drop_first().len() && v.drop_first()[j].id == id;
            assert(v[j + 1].id == id);
        }
    }
}

/// A found row carries the id it was looked up by.
pub proof fn lemma_first_with_aid_id(v: Seq<AccessRowView>, id: u128)
    ensures
        match first_with_aid(v, id) {
            Some(a) => a.id == id,
            None => true,
        },
    decreases v.len(),
{
    if v.len() > 0 && v[0].id != id {
        lemma_first_with_aid_id(v.drop_first(), id);
    }
}

/// The principal records.
pub struct AccessStore {
    pub rows: Vec<AccessRow>,
}

impl View for AccessStore {
    type V = Seq<AccessRowView>;

    open spec fn view(&self) -> Seq<AccessRowView> {
        access_view(self.rows@)
    }
}

impl AccessStore {
    pub open spec fn wf(&self) -> bool {
        forall|i: int, j: int| 0 <= i < j < self@.len() ==> #[trigger] self@[i].id != #[trigger] self@[j].id
    }

    pub fn new() -> (r: AccessStore)
        ensures
            r.wf(),
            r@.len() == 0,
    {
        let r = AccessStore { rows: Vec::new() };
        proof {
            assert(r@ =~= Seq::<AccessRowView>::empty());
        }
        r
    }

    /// Index of the row for an id.
    fn find_index(&self, id: u128) -> (r: Option<usize>)
        ensures
            match r {
                Some(i) => i < self@.len() && self@[i as int].id == id && first_with_aid(
                    self@,
                    id,
                ) == Some(self@[i as int]),
                None => first_with_aid(self@, id) is None,
            },
    {
        let n = self.rows.len();
        let mut i: usize = 0;
        while i < n
            invariant
                n == self@.len(),
                i <= n,
                forall|j: int| 0 <= j < i ==> self@[j].id != id,
            decreases n - i,
        {
            if self.rows[i].id == id {
                proof {
                    assert(self@[i as int] == self.rows@[i as int]@);
                    lemma_first_with_aid_at(self@, id, i as int);
                }
                return Some(i);
            }
            i = i + 1;
        }
        proof {
            lemma_first_with_aid_skip(self@, id, n as int);
            assert(self@.skip(n as int) =~= Seq::<AccessRowView>::empty());
        }
        None
    }

    /// The enabled principal with this id, if any: a disabled row is
    /// invisible here though it persists.
    pub fn get_access_by_id(&self, id: u128) -> (r: Option<AccessRow>)
        requires
            self.wf(),
        ensures
            match r {
                Some(row) => first_with_aid(self@, id) == Some(row@) && row@.enabled,
                None => match first_with_aid(self@, id) {
                    Some(a) => !a.enabled,
                    None => true,
                },
            },
            r is None ==> (first_with_aid(self@, id) is None || !(first_with_aid(
                self@,
                id,
            )->Some_0).enabled),
    {
        match self.find_index(id) {
            None => None,
            Some(i) => {
                if self.rows[i].enabled {
                    Some(self.rows[i].duplicate())
                } else {
                    None
                }
            },
        }
    }

    /// Check a presented secret: the enabled row whose stored hash is
    /// the secret's hash, compared in constant time.  No-match and
    /// disabled are indistinguishable.
    pub fn validate_access(&self, id: u128, secret: &[u8]) -> (r: Option<AccessRow>)
        requires
            self.wf(),
        ensures
            match r {
                Some(row) => spec_validate(self@, id, hash_of_secret(secret@)) == Some(row@),
                None => spec_validate(self@, id, hash_of_secret(secret@)) is None,
            },
    {
        match self.get_access_by_id(id) {
            None => None,
            Some(row) => {
                let h = sha256_hex(secret);
                if ct_eq(h.as_slice(), row.encrypted_secret.as_slice()) {
                    Some(row)
                } else {
                    None
                }
            },
        }
    }

    /// Insert a fresh principal under a caller-supplied id and
    /// plaintext secret; only the secret's hash is stored.  Fails with
    /// `Database` exactly when the id is taken.
    pub fn insert_access(&mut self, id: u128, secret: &[u8], admin: bool, now: i64) -> (r: Result<
        AccessRow,
        StorageError,
    >)
        requires
            old(self).wf(),
        ensures
            final(self).wf(),
            match r {
                Ok(row) => {
                    &&& first_with_aid(old(self)@, id) is None
                    &&& row@ == (AccessRowView {
                        id: id,
                        secret_hash: hash_of_secret(secret@),
                        admin: admin,
                        enabled: true,
                        created_at: now,
                        updated_at: now,
                    })
                    &&& final(self)@ == old(self)@.push(row@)
                },
                Err(e) => {
                    &&& final(self)@ == old(self)@
                    &&& e == StorageError::Database
                    &&& first_with_aid(old(self)@, id) is Some
                },
            },
    {
        if let Some(_i) = self.find_index(id) {
            return Err(StorageError::Database);
        }
        proof {
            lemma_first_with_aid_none(self@, id);
        }
        let h = sha256_hex(secret);
        let row = AccessRow {
            id: id,
            encrypted_secret: h,
            admin: admin,
            enabled: true,
            created_at: now,
            updated_at: now,
        };
        let out = row.duplicate();
        self.rows.push(row);
        proof {
            assert(self@ =~= old(self)@.push(out@));
            assert forall|a: int, b: int| 0 <= a < b < self@.len() implies #[trigger] self@[a].id
                != #[trigger] self@[b].id by {
                assert(self@[a] == old(self)@[a]);
                if b < old(self)@.len() {
                    assert(self@[b] == old(self)@[b]);
                } else {
                    assert(self@[b] == out@);
                    assert(old(self)@[a].id != id);
                }
            }
        }
        Ok(out)
    }

    /// Create a principal: a fresh random id and a fresh 64-character
    /// secret, whose plaintext is returned exactly this once.  The
    /// vanishingly unlikely id collision surfaces as `Database`.
    pub fn create_access(&mut self, admin: bool, now: i64) -> (r: Result<
        (AccessRow, Vec<u8>),
        StorageError,
    >)
        requires
            old(self).wf(),
        ensures
            final(self).wf(),
            match r {
                Ok((row, secret)) => {
                    &&& secret@.len() == 64
                    &&& first_with_aid(old(self)@, row@.id) is None
                    &&& row@.secret_hash == hash_of_secret(secret@)
                    &&& row@.admin == admin
                    &&& row@.enabled
                    &&& row@.created_at == now
                    &&& row@.updated_at == now
                    &&& final(self)@ == old(self)@.push(row@)
                },
                Err(e) => {
                    &&& final(self)@ == old(self)@
                    &&& e == StorageError::Database
                },
            },
    {
        let id = crate::random::new_v4_u128();
        let secret = crate::random::random_password(64);
        match self.insert_access(id, secret.as_slice(), admin, now) {
            Ok(row) => Ok((row, secret)),
            Err(e) => Err(e),
        }
    }

    /// Replace a principal's secret with a fresh one and re-enable the
    /// row; the prior secret stops validating.  `NotFound` exactly
    /// when the id has no row.
    pub fn reset_access(&mut self, id: u128, now: i64) -> (r: Result<
        (AccessRow, Vec<u8>),
        StorageError,
    >)
        requires
            old(self).wf(),
        ensures
            final(self).wf(),
            match r {
                Ok((row, secret)) => {
                    &&& secret@.len() == 64
                    &&& first_with_aid(old(self)@, id) is Some
                    &&& row@ == (AccessRowView {
                        id: id,
                        secret_hash: hash_of_secret(secret@),
                        admin: (first_with_aid(old(self)@, id)->Some_0).admin,
                        enabled: true,
                        created_at: (first_with_aid(old(self)@, id)->Some_0).created_at,
                        updated_at: now,
                    })
                    &&& final(self)@.len() == old(self)@.len()
                    &&& forall|j: int|
                        0 <= j < old(self)@.len() && old(self)@[j].id != id ==> final(self)@[j]
                            == #[trigger] old(self)@[j]
                    &&& forall|j: int|
                        0 <= j < old(self)@.len() && #[trigger] old(self)@[j].id == id
                            ==> final(self)@[j] == row@
                },
                Err(e) => {
                    &&& final(self)@ == old(self)@
                    &&& e == StorageError::NotFound
                    &&& first_with_aid(old(self)@, id) is None
                },
            },
    {
        match self.find_index(id) {
            None => Err(StorageError::NotFound),
            Some(i) => {
                let secret = crate::random::random_password(64);
                let h = sha256_hex(secret.as_slice());
                let old_row = self.rows[i].duplicate();
                let new_row = AccessRow {
                    id: id,
                    encrypted_secret: h,
                    admin: old_row.admin,
                    enabled: true,
                    created_at: old_row.created_at,
                    updated_at: now,
                };
                let out = new_row.duplicate();
                let _ = self.rows.remove(i);
                self.rows.insert(i, new_row);
                proof {
                    assert(self@ =~= old(self)@.update(i as int, out@));
                    assert forall|a: int, b: int| 0 <= a < b < self@.len() implies
                        #[trigger] self@[a].id != #[trigger] self@[b].id by {
                        if a != i as int && b != i as int {
                            assert(self@[a] == old(self)@[a] && self@[b] == old(self)@[b]);
                        } else if a == i as int {
                            assert(self@[b] == old(self)@[b]);
                            assert(old(self)@[a].id != old(self)@[b].id);
                        } else {
                            assert(self@[a] == old(self)@[a]);
                            assert(old(self)@[a].id != old(self)@[b].id);
                        }
                    }
                    let iw = i as int;
                    assert(first_with_aid(old(self)@, id) == Some(old(self)@[iw]));
                    assert forall|j: int|
                        0 <= j < old(self)@.len() && #[trigger] old(self)@[j].id == id implies
                        self@[j] == out@ by {
                        if j != iw {
                            if j < iw {
                                assert(old(self)@[j].id != old(self)@[iw].id);
                            } else {
                                assert(old(self)@[iw].id != old(self)@[j].id);
                            }
                        }
                    }
                }
                Ok((out, secret))
            },
        }
    }

    /// Soft-disable a principal: the row stays, validation stops
    /// seeing it.  Reports whether a row was there to disable.
    pub fn delete_access(&mut self, id: u128) -> (r: bool)
        requires
            old(self).wf(),
        ensures
            final(self).wf(),
            r == (first_with_aid(old(self)@, id) is Some),
            if r {
                exists|i: int|
                    {
                        &&& 0 <= i < old(self)@.len()
                        &&& old(self)@[i].id == id
                        &&& first_with_aid(old(self)@, id) == Some(old(self)@[i])
                        &&& final(self)@ == old(self)@.update(
                            i,
                            (AccessRowView {
                                id: old(self)@[i].id,
                                secret_hash: old(self)@[i].secret_hash,
                                admin: old(self)@[i].admin,
                                enabled: false,
                                created_at: old(self)@[i].created_at,
                                updated_at: old(self)@[i].updated_at,
                            }),
                        )
                    }
            } else {
                final(self)@ == old(self)@
            },
    {
        match self.find_index(id) {
            None => false,
            Some(i) => {
                let old_row = self.rows[i].duplicate();
                let new_row = AccessRow {
                    id: old_row.id,
                    encrypted_secret: old_row.encrypted_secret,
                    admin: old_row.admin,
                    enabled: false,
                    created_at: old_row.created_at,
                    updated_at: old_row.updated_at,
                };
                let ghost nv = new_row@;
                let _ = self.rows.remove(i);
                self.rows.insert(i, new_row);
                proof {
                    assert(self@ =~= old(self)@.update(i as int, nv));
                    assert forall|a: int, b: int| 0 <= a < b < self@.len() implies
                        #[trigger] self@[a].id != #[trigger] self@[b].id by {
                        if a != i as int && b != i as int {
                            assert(self@[a] == old(self)@[a] && self@[b] == old(self)@[b]);
                        } else if a == i as int {
                            assert(self@[b] == old(self)@[b]);
                            assert(old(self)@[a].id != old(self)@[b].id);
                        } else {
                            assert(self@[a] == old(self)@[a]);
                            assert(old(self)@[a].id != old(self)@[b].id);
                        }
                    }
                }
                true
            },
        }
    }
}

/// Only an administrator may create or reset principals.
pub fn can_administer(caller: &AccessRow) -> (r: bool)
    ensures
        r == caller@.admin,
{
    caller.admin
}

/// A principal may delete itself; an administrator may delete anyone.
pub fn can_delete_access(caller: &AccessRow, target_id: u128) -> (r: bool)
    ensures
        r == (caller@.admin || caller@.id == target_id),
{
    caller.admin || caller.id == target_id
}

/// A freshly created principal validates under the secret it was
/// handed: pushing an enabled row with a fresh id makes validation of
/// that id and that secret hash yield exactly the new row.
pub proof fn lemma_create_then_validate(v: Seq<AccessRowView>, row: AccessRowView)
    requires
        row.enabled,
        forall|j: int| 0 <= j < v.len() ==> v[j].id != row.id,
    ensures
        spec_validate(v.push(row), row.id, row.secret_hash) == Some(row),
{
    let w = v.push(row);
    assert forall|j: int| 0 <= j < v.len() implies w[j].id != row.id by {
        assert(w[j] == v[j]);
    }
    lemma_first_with_aid_at(w, row.id, v.len() as int);
}

/// A secret whose hash differs from the stored one never validates,
/// whatever else the store holds.
pub proof fn lemma_validate_wrong_secret(
    v: Seq<AccessRowView>,
    id: u128,
    h_stored: Seq<u8>,
    h_wrong: Seq<u8>,
)
    requires
        h_stored != h_wrong,
        match first_with_aid(v, id) {
            Some(a) => a.secret_hash == h_stored,
            None => true,
        },
    ensures
        spec_validate(v, id, h_wrong) is None,
{
}

/// After a soft-disable, no secret validates for that id, the
/// previously valid one included.
pub proof fn lemma_delete_then_validate(v: Seq<AccessRowView>, i: int, h: Seq<u8>)
    requires
        0 <= i < v.len(),
        forall|a: int, b: int| 0 <= a < b < v.len() ==> #[trigger] v[a].id != #[trigger] v[b].id,
    ensures
        ({
            let disabled = AccessRowView {
                id: v[i].id,
                secret_hash: v[i].secret_hash,
                admin: v[i].admin,
                enabled: false,
                created_at: v[i].created_at,
                updated_at: v[i].updated_at,
            };
            spec_validate(v.update(i, disabled), v[i].id, h) is None
        }),
{
    let disabled = AccessRowView {
        id: v[i].id,
        secret_hash: v[i].secret_hash,
        admin: v[i].admin,
        enabled: false,
        created_at: v[i].created_at,
        updated_at: v[i].updated_at,
    };
    let w = v.update(i, disabled);
    assert forall|j: int| 0 <= j < i implies w[j].id != v[i].id by {
        assert(w[j] == v[j]);
    }
    lemma_first_with_aid_at(w, v[i].id, i);
}

/// After a reset, only the new secret validates: the old hash is
/// refused and the new one yields the re-enabled row.
pub proof fn lemma_reset_then_validate(
    v: Seq<AccessRowView>,
    i: int,
    fresh: AccessRowView,
    h_old: Seq<u8>,
)
    requires
        0 <= i < v.len(),
        forall|a: int, b: int| 0 <= a < b < v.len() ==> #[trigger] v[a].id != #[trigger] v[b].id,
        fresh.id == v[i].id,
        fresh.enabled,
        fresh.secret_hash != h_old,
    ensures
        spec_validate(v.update(i, fresh), fresh.id, fresh.secret_hash) == Some(fresh),
        spec_validate(v.update(i, fresh), fresh.id, h_old) is None,
{
    let w = v.update(i, fresh);
    assert forall|j: int| 0 <= j < i implies w[j].id != fresh.id by {
        assert(w[j] == v[j]);
    }
    lemma_first_with_aid_at(w, fresh.id, i);
}

} // verus!
