//! Metadata repository: one row per logical key, point lookups, insert,
//! partial update, upsert and delete over an in-memory table.  Keys are
//! slash-segmented byte strings, stored without leading or trailing
//! slashes; ids are positive and unique; the id zero is reserved for
//! synthetic directory entries.

use vstd::prelude::*;
use vstd::slice::{slice_subrange, slice_to_vec};

use crate::error::StorageError;

verus! {

/// One metadata row.  `id == 0` marks a synthetic directory entry,
/// which is never stored in the table.
#[derive(Debug)]
pub struct ObjectRow {
    pub id: i64,
    pub path: Vec<u8>,
    pub kind: Option<Vec<u8>>,
    pub size: u64,
    pub hash: Vec<u8>,
    pub created_at: i64,
    pub updated_at: i64,
}

/// The mathematical model of a row.
pub struct RowView {
    pub id: i64,
    pub path: Seq<u8>,
    pub kind: Option<Seq<u8>>,
    pub size: u64,
    pub hash: Seq<u8>,
    pub created_at: i64,
    pub updated_at: i64,
}

impl View for ObjectRow {
    type V = RowView;

    open spec fn view(&self) -> RowView {
        RowView {
            id: self.id,
            path: self.path@,
            kind: match self.kind {
                Some(k) => Some(k@),
                None => None,
            },
            size: self.size,
            hash: self.hash@,
            created_at: self.created_at,
            updated_at: self.updated_at,
        }
    }
}

impl ObjectRow {
    /// A synthetic entry stands for a folder; a stored row never does.
    pub fn is_dir(&self) -> (r: bool)
        ensures
            r == (self@.id == 0),
    {
        self.id == 0
    }

    /// A field-for-field copy of the row.
    pub fn duplicate(&self) -> (r: ObjectRow)
        ensures
            r@ == self@,
    {
        ObjectRow {
            id: self.id,
            path: slice_to_vec(self.path.as_slice()),
            kind: match &self.kind {
                Some(k) => Some(slice_to_vec(k.as_slice())),
                None => None,
            },
            size: self.size,
            hash: slice_to_vec(self.hash.as_slice()),
            created_at: self.created_at,
            updated_at: self.updated_at,
        }
    }
}

/// The path separator.
pub open spec fn slash() -> u8 {
    47
}

pub open spec fn drop_leading_slashes(s: Seq<u8>) -> Seq<u8>
    decreases s.len(),
{
    if s.len() > 0 && s[0] == slash() {
        drop_leading_slashes(s.drop_first())
    } else {
        s
    }
}

pub open spec fn drop_trailing_slashes(s: Seq<u8>) -> Seq<u8>
    decreases s.len(),
{
    if s.len() > 0 && s[s.len() - 1] == slash() {
        drop_trailing_slashes(s.drop_last())
    } else {
        s
    }
}

/// A key as stored: no leading or trailing slash.
pub open spec fn norm_path(s: Seq<u8>) -> Seq<u8> {
    drop_trailing_slashes(drop_leading_slashes(s))
}

pub open spec fn is_normalized(s: Seq<u8>) -> bool {
    norm_path(s) == s
}

/// `p` starts the byte string `s`.
pub open spec fn is_prefix_of(p: Seq<u8>, s: Seq<u8>) -> bool {
    s.len() >= p.len() && s.subrange(0, p.len() as int) == p
}

/// Strip all leading and trailing slashes from a key.
pub fn normalize_path(p: &[u8]) -> (r: Vec<u8>)
    ensures
        r@ == norm_path(p@),
{
    let len = p.len();
    proof {
        assert(p@.subrange(0, len as int) =~= p@);
    }
    let mut start: usize = 0;
    while start < len && p[start] == 47
        invariant
            start <= len,
            len == p@.len(),
            drop_leading_slashes(p@) == drop_leading_slashes(p@.subrange(start as int, len as int)),
        decreases len - start,
    {
        proof {
            let tail = p@.subrange(start as int, len as int);
            assert(tail[0] == slash());
            assert(tail.drop_first() =~= p@.subrange(start as int + 1, len as int));
        }
        start = start + 1;
    }
    proof {
        assert(drop_leading_slashes(p@) == p@.subrange(start as int, len as int));
    }
    let mut end: usize = len;
    while end > start && p[end - 1] == 47
        invariant
            start <= end <= len,
            len == p@.len(),
            drop_leading_slashes(p@) == p@.subrange(start as int, len as int),
            drop_trailing_slashes(p@.subrange(start as int, len as int)) == drop_trailing_slashes(
                p@.subrange(start as int, end as int),
            ),
        decreases end,
    {
        proof {
            let cur = p@.subrange(start as int, end as int);
            assert(cur[cur.len() - 1] == slash());
            assert(cur.drop_last() =~= p@.subrange(start as int, end as int - 1));
        }
        end = end - 1;
    }
    proof {
        let cur = p@.subrange(start as int, end as int);
        assert(drop_trailing_slashes(cur) == cur);
        assert(norm_path(p@) == cur);
    }
    slice_to_vec(slice_subrange(p, start, end))
}

/// Byte-string equality.
pub fn bytes_eq(a: &[u8], b: &[u8]) -> (r: bool)
    ensures
        r == (a@ == b@),
{
    crate::hashing::ct_eq(a, b)
}

/// Does `s` start with `p`?
pub fn starts_with(s: &[u8], p: &[u8]) -> (r: bool)
    ensures
        r == is_prefix_of(p@, s@),
{
    if s.len() < p.len() {
        return false;
    }
    let head = slice_subrange(s, 0, p.len());
    bytes_eq(head, p)
}

/// The first row of `rows` whose path is `p`, if any.
pub open spec fn first_with_path(rows: Seq<RowView>, p: Seq<u8>) -> Option<RowView>
    decreases rows.len(),
{
    if rows.len() == 0 {
        None
    } else if rows[0].path == p {
        Some(rows[0])
    } else {
        first_with_path(rows.drop_first(), p)
    }
}

/// The first row of `rows` whose id is `id`, if any.
pub open spec fn first_with_id(rows: Seq<RowView>, id: i64) -> Option<RowView>
    decreases rows.len(),
{
    if rows.len() == 0 {
        None
    } else if rows[0].id == id {
        Some(rows[0])
    } else {
        first_with_id(rows.drop_first(), id)
    }
}

pub proof fn lemma_first_with_path_skip(rows: Seq<RowView>, p: Seq<u8>, i: int)
    requires
        0 <= i <= rows.len(),
        forall|j: int| 0 <= j < i ==> rows[j].path != p,
    ensures
        first_with_path(rows, p) == first_with_path(rows.skip(i), p),
    decreases i,
{
    if i > 0 {
        assert(rows.drop_first() =~= rows.skip(1));
        lemma_first_with_path_skip(rows.skip(1), p, i - 1);
        assert(rows.skip(1).skip(i - 1) =~= rows.skip(i));
    } else {
        assert(rows.skip(0) =~= rows);
    }
}

pub proof fn lemma_first_with_id_skip(rows: Seq<RowView>, id: i64, i: int)
    requires
        0 <= i <= rows.len(),
        forall|j: int| 0 <= j < i ==> rows[j].id != id,
    ensures
        first_with_id(rows, id) == first_with_id(rows.skip(i), id),
    decreases i,
{
    if i > 0 {
        assert(rows.drop_first() =~= rows.skip(1));
        lemma_first_with_id_skip(rows.skip(1), id, i - 1);
        assert(rows.skip(1).skip(i - 1) =~= rows.skip(i));
    } else {
        assert(rows.skip(0) =~= rows);
    }
}

/// Row-sequence well-formedness: ids positive, unique and below
/// `next_id`; paths unique and stored in normalized form.
pub open spec fn wf_rows(v: Seq<RowView>, next_id: i64) -> bool {
    &&& forall|i: int| 0 <= i < v.len() ==> 1 <= #[trigger] v[i].id < next_id
    &&& forall|i: int, j: int| 0 <= i < j < v.len() ==> #[trigger] v[i].id != #[trigger] v[j].id
    &&& forall|i: int, j: int|
        0 <= i < j < v.len() ==> #[trigger] v[i].path != #[trigger] v[j].path
    &&& forall|i: int| 0 <= i < v.len() ==> is_normalized(#[trigger] v[i].path)
}

/// The in-memory metadata table.
pub struct MetaTable {
    pub rows: Vec<ObjectRow>,
    pub next_id: i64,
}

/// The models of a row sequence.
pub open spec fn rows_view(v: Seq<ObjectRow>) -> Seq<RowView> {
    v.map_values(|r: ObjectRow| r@)
}

impl View for MetaTable {
    type V = Seq<RowView>;

    open spec fn view(&self) -> Seq<RowView> {
        rows_view(self.rows@)
    }
}

impl MetaTable {
    /// Table well-formedness: ids positive, unique and below `next_id`;
    /// paths unique and stored in normalized form.
    pub open spec fn wf(&self) -> bool {
        &&& self.next_id >= 1
        &&& wf_rows(self@, self.next_id)
    }

    pub fn new() -> (r: MetaTable)
        ensures
            r.wf(),
            r@.len() == 0,
            r.next_id == 1,
    {
        let r = MetaTable { rows: Vec::new(), next_id: 1 };
        proof {
            assert(r@ =~= Seq::<RowView>::empty());
        }
        r
    }

    /// Point lookup by key; the key is normalized first.
    pub fn get_by_path(&self, path: &[u8]) -> (r: Option<ObjectRow>)
        requires
            self.wf(),
        ensures
            match r {
                Some(row) => first_with_path(self@, norm_path(path@)) == Some(row@),
                None => first_with_path(self@, norm_path(path@)) is None,
            },
    {
        let p = normalize_path(path);
        let ghost target = norm_path(path@);
        let n = self.rows.len();
        let mut i: usize = 0;
        while i < n
            invariant
                n == self@.len(),
                i <= n,
                p@ == target,
                target == norm_path(path@),
                forall|j: int| 0 <= j < i ==> self@[j].path != target,
            decreases n - i,
        {
            if bytes_eq(self.rows[i].path.as_slice(), p.as_slice()) {
                proof {
                    lemma_first_with_path_skip(self@, target, i as int);
                    assert(self@[i as int] == self.rows@[i as int]@);
                    assert(self@.skip(i as int).len() > 0);
                    assert(self@.skip(i as int)[0] == self@[i as int]);
                    assert(self@.skip(i as int)[0].path == target);
                    assert(first_with_path(self@.skip(i as int), target) == Some(
                        self@.skip(i as int)[0],
                    ));
                }
                return Some(self.rows[i].duplicate());
            }
            i = i + 1;
        }
        proof {
            lemma_first_with_path_skip(self@, target, n as int);
            assert(self@.skip(n as int) =~= Seq::<RowView>::empty());
        }
        None
    }

    /// Point lookup by id.
    pub fn get_by_id(&self, id: i64) -> (r: Option<ObjectRow>)
        requires
            self.wf(),
        ensures
            match r {
                Some(row) => first_with_id(self@, id) == Some(row@),
                None => first_with_id(self@, id) is None,
            },
    {
        let n = self.rows.len();
        let mut i: usize = 0;
        while i < n
            invariant
                n == self@.len(),
                i <= n,
                forall|j: int| 0 <= j < i ==> self@[j].id != id,
            decreases n - i,
        {
            if self.rows[i].id == id {
                proof {
                    lemma_first_with_id_skip(self@, id, i as int);
                    assert(self@.skip(i as int)[0] == self@[i as int]);
                }
                return Some(self.rows[i].duplicate());
            }
            i = i + 1;
        }
        proof {
            lemma_first_with_id_skip(self@, id, n as int);
            assert(self@.skip(n as int) =~= Seq::<RowView>::empty());
        }
        None
    }
}


pub proof fn lemma_first_with_path_none(rows: Seq<RowView>, p: Seq<u8>)
    ensures
        (first_with_path(rows, p) is None) <==> (forall|j: int|
            0 <= j < rows.len() ==> rows[j].path != p),
    decreases rows.len(),
{
    if rows.len() > 0 && rows[0].path != p {
        lemma_first_with_path_none(rows.drop_first(), p);
        if first_with_path(rows, p) is None {
            assert forall|j: int| 0 <= j < rows.len() implies rows[j].path != p by {
                if j >= 1 {
                    assert(rows.drop_first()[j - 1].path != p);
                }
            }
        } else {
            let j = choose|j: int|
                0 <= j < rows.drop_first().len() && rows.drop_first()[j].path == p;
            assert(rows[j + 1].path == p);
        }
    }
}

pub proof fn lemma_first_with_id_none(rows: Seq<RowView>, id: i64)
    ensures
        (first_with_id(rows, id) is None) <==> (forall|j: int|
            0 <= j < rows.len() ==> rows[j].id != id),
    decreases rows.len(),
{
    if rows.len() > 0 && rows[0].id != id {
        lemma_first_with_id_none(rows.drop_first(), id);
        if first_with_id(rows, id) is None {
            assert forall|j: int| 0 <= j < rows.len() implies rows[j].id != id by {
                if j >= 1 {
                    assert(rows.drop_first()[j - 1].id != id);
                }
            }
        } else {
            let j = choose|j: int|
                0 <= j < rows.drop_first().len() && rows.drop_first()[j].id == id;
            assert(rows[j + 1].id == id);
        }
    }
}

pub proof fn lemma_first_with_id_some(rows: Seq<RowView>, id: i64)
    requires
        first_with_id(rows, id) is Some,
    ensures
        exists|i: int|
            0 <= i < rows.len() && rows[i] == first_with_id(rows, id)->Some_0 && rows[i].id == id,
    decreases rows.len(),
{
    if rows.len() > 0 && rows[0].id != id {
        lemma_first_with_id_some(rows.drop_first(), id);
        let i = choose|i: int|
            0 <= i < rows.drop_first().len() && rows.drop_first()[i] == first_with_id(
                rows.drop_first(),
                id,
            )->Some_0 && rows.drop_first()[i].id == id;
        assert(rows[i + 1] == rows.drop_first()[i]);
    }
}


pub proof fn lemma_drop_leading_first(s: Seq<u8>)
    ensures
        drop_leading_slashes(s).len() == 0 || drop_leading_slashes(s)[0] != slash(),
    decreases s.len(),
{
    if s.len() > 0 && s[0] == slash() {
        lemma_drop_leading_first(s.drop_first());
    }
}

pub proof fn lemma_drop_trailing_last(s: Seq<u8>)
    ensures
        drop_trailing_slashes(s).len() == 0 || drop_trailing_slashes(s)[drop_trailing_slashes(
            s,
        ).len() - 1] != slash(),
    decreases s.len(),
{
    if s.len() > 0 && s[s.len() - 1] == slash() {
        lemma_drop_trailing_last(s.drop_last());
    }
}

pub proof fn lemma_drop_trailing_prefix(s: Seq<u8>)
    ensures
        drop_trailing_slashes(s).len() <= s.len(),
        drop_trailing_slashes(s) == s.subrange(0, drop_trailing_slashes(s).len() as int),
    decreases s.len(),
{
    if s.len() > 0 && s[s.len() - 1] == slash() {
        lemma_drop_trailing_prefix(s.drop_last());
        assert(s.drop_last() =~= s.subrange(0, s.len() - 1));
        let k = drop_trailing_slashes(s.drop_last()).len() as int;
        assert(s.drop_last().subrange(0, k) =~= s.subrange(0, k));
    } else {
        assert(s.subrange(0, s.len() as int) =~= s);
    }
}

/// Normalizing is idempotent: a normalized key normalizes to itself.
pub proof fn lemma_norm_normalized(s: Seq<u8>)
    ensures
        is_normalized(norm_path(s)),
{
    let t = drop_leading_slashes(s);
    let u = drop_trailing_slashes(t);
    lemma_drop_leading_first(s);
    lemma_drop_trailing_last(s);
    lemma_drop_trailing_prefix(t);
    lemma_drop_trailing_last(t);
    if u.len() > 0 {
        assert(u[0] == t.subrange(0, u.len() as int)[0]);
        assert(u[0] != slash());
        assert(drop_leading_slashes(u) == u);
        assert(drop_trailing_slashes(u) == u);
    } else {
        assert(drop_leading_slashes(u) == u);
        assert(drop_trailing_slashes(u) == u);
    }
}

/// `kind` as a model value.
pub open spec fn opt_bytes_view(k: Option<Vec<u8>>) -> Option<Seq<u8>> {
    match k {
        Some(v) => Some(v@),
        None => None,
    }
}

impl MetaTable {
    /// Index of the row with the given (already normalized) path.
    fn find_index_by_path(&self, p: &[u8]) -> (r: Option<usize>)
        ensures
            match r {
                Some(i) => i < self@.len() && self@[i as int].path == p@ && first_with_path(
                    self@,
                    p@,
                ) == Some(self@[i as int]),
                None => first_with_path(self@, p@) is None,
            },
    {
        let n = self.rows.len();
        let mut i: usize = 0;
        while i < n
            invariant
                n == self@.len(),
                i <= n,
                forall|j: int| 0 <= j < i ==> self@[j].path != p@,
            decreases n - i,
        {
            if bytes_eq(self.rows[i].path.as_slice(), p) {
                proof {
                    lemma_first_with_path_skip(self@, p@, i as int);
                    assert(self@.skip(i as int)[0] == self@[i as int]);
                }
                return Some(i);
            }
            i = i + 1;
        }
        proof {
            lemma_first_with_path_skip(self@, p@, n as int);
            assert(self@.skip(n as int) =~= Seq::<RowView>::empty());
        }
        None
    }

    /// Index of the row with the given id.
    fn find_index_by_id(&self, id: i64) -> (r: Option<usize>)
        ensures
            match r {
                Some(i) => i < self@.len() && self@[i as int].id == id && first_with_id(self@, id)
                    == Some(self@[i as int]),
                None => first_with_id(self@, id) is None,
            },
    {
        let n = self.rows.len();
        let mut i: usize = 0;
        while i < n
            invariant
                n == self@.len(),
                i <= n,
                forall|j: int| 0 <= j < i ==> self@[j].id != id,
            decreases n - i,
        {
            if self.rows[i].id == id {
                proof {
                    lemma_first_with_id_skip(self@, id, i as int);
                    assert(self@.skip(i as int)[0] == self@[i as int]);
                }
                return Some(i);
            }
            i = i + 1;
        }
        proof {
            lemma_first_with_id_skip(self@, id, n as int);
            assert(self@.skip(n as int) =~= Seq::<RowView>::empty());
        }
        None
    }

    /// Insert a new row for a key that has none yet.  The key is
    /// normalized first; the row gets the next free id and both
    /// timestamps set to `now`.  Fails with `Database` exactly when the
    /// key already has a row or the id space is exhausted.
    pub fn create(
        &mut self,
        path: &[u8],
        kind: Option<Vec<u8>>,
        size: u64,
        hash: &[u8],
        now: i64,
    ) -> (r: Result<ObjectRow, StorageError>)
        requires
            old(self).wf(),
        ensures
            final(self).wf(),
            match r {
                Ok(row) => {
                    &&& first_with_path(old(self)@, norm_path(path@)) is None
                    &&& old(self).next_id < i64::MAX
                    &&& row@ == (RowView {
                        id: old(self).next_id,
                        path: norm_path(path@),
                        kind: opt_bytes_view(kind),
                        size: size,
                        hash: hash@,
                        created_at: now,
                        updated_at: now,
                    })
                    &&& final(self)@ == old(self)@.push(row@)
                    &&& final(self).next_id == old(self).next_id + 1
                },
                Err(e) => {
                    &&& final(self)@ == old(self)@
                    &&& final(self).next_id == old(self).next_id
                    &&& e == StorageError::Database
                    &&& (first_with_path(old(self)@, norm_path(path@)) is Some || old(
                        self,
                    ).next_id == i64::MAX)
                },
            },
    {
        let p = normalize_path(path);
        if let Some(_i) = self.find_index_by_path(p.as_slice()) {
            return Err(StorageError::Database);
        }
        if self.next_id == i64::MAX {
            return Err(StorageError::Database);
        }
        let row = ObjectRow {
            id: self.next_id,
            path: p,
            kind: kind,
            size: size,
            hash: slice_to_vec(hash),
            created_at: now,
            updated_at: now,
        };
        let out = row.duplicate();
        proof {
            lemma_first_with_path_none(self@, norm_path(path@));
            lemma_norm_normalized(path@);
        }
        self.rows.push(row);
        self.next_id = self.next_id + 1;
        proof {
            assert(self@ =~= old(self)@.push(out@));
            let newv = self@;
            let oldv = old(self)@;
            let rv = out@;
            assert forall|i: int| 0 <= i < newv.len() implies 1 <= #[trigger] newv[i].id
                < self.next_id by {
                if i < oldv.len() {
                    assert(newv[i] == oldv[i]);
                } else {
                    assert(newv[i] == rv);
                }
            }
            assert forall|i: int, j: int| 0 <= i < j < newv.len() implies #[trigger] newv[i].id
                != #[trigger] newv[j].id by {
                assert(newv[i] == oldv[i]);
                if j < oldv.len() {
                    assert(newv[j] == oldv[j]);
                } else {
                    assert(newv[j] == rv);
                }
            }
            assert forall|i: int, j: int| 0 <= i < j < newv.len() implies #[trigger] newv[i].path
                != #[trigger] newv[j].path by {
                assert(newv[i] == oldv[i]);
                if j < oldv.len() {
                    assert(newv[j] == oldv[j]);
                } else {
                    assert(newv[j] == rv);
                }
            }
            assert forall|i: int| 0 <= i < newv.len() implies is_normalized(
                #[trigger] newv[i].path,
            ) by {
                if i < oldv.len() {
                    assert(newv[i] == oldv[i]);
                } else {
                    assert(newv[i] == rv);
                }
            }
        }
        Ok(out)
    }
}


/// What a successful create-or-update write leaves behind: either the
/// key's existing row with the new hash, size and update time, or a
/// fresh row under the next free id.
pub open spec fn upsert_post(
    oldv: Seq<RowView>,
    old_next: i64,
    newv: Seq<RowView>,
    new_next: i64,
    path: Seq<u8>,
    hash: Seq<u8>,
    size: u64,
    now: i64,
    row: RowView,
) -> bool {
    if first_with_path(oldv, norm_path(path)) is Some {
        exists|i: int|
            {
                &&& 0 <= i < oldv.len()
                &&& oldv[i].path == norm_path(path)
                &&& row == (RowView {
                    id: oldv[i].id,
                    path: oldv[i].path,
                    kind: oldv[i].kind,
                    size: size,
                    hash: hash,
                    created_at: oldv[i].created_at,
                    updated_at: now,
                })
                &&& newv == oldv.update(i, row)
                &&& new_next == old_next
            }
    } else {
        &&& old_next < i64::MAX
        &&& row == (RowView {
            id: old_next,
            path: norm_path(path),
            kind: None,
            size: size,
            hash: hash,
            created_at: now,
            updated_at: now,
        })
        &&& newv == oldv.push(row)
        &&& new_next == old_next + 1
    }
}

pub proof fn lemma_update_preserves_wf(v: Seq<RowView>, i: int, rv: RowView, next_id: i64)
    requires
        wf_rows(v, next_id),
        0 <= i < v.len(),
        rv.id == v[i].id,
        is_normalized(rv.path),
        forall|j: int| 0 <= j < v.len() && j != i ==> v[j].path != rv.path,
    ensures
        wf_rows(v.update(i, rv), next_id),
{
    let w = v.update(i, rv);
    assert forall|a: int, b: int| 0 <= a < b < w.len() implies #[trigger] w[a].path
        != #[trigger] w[b].path by {
        if a != i && b != i {
            assert(w[a] == v[a] && w[b] == v[b]);
        }
    }
    assert forall|a: int, b: int| 0 <= a < b < w.len() implies #[trigger] w[a].id
        != #[trigger] w[b].id by {
        if a != i && b != i {
            assert(w[a] == v[a] && w[b] == v[b]);
        }
    }
}

pub proof fn lemma_remove_preserves_wf(v: Seq<RowView>, i: int, next_id: i64)
    requires
        wf_rows(v, next_id),
        0 <= i < v.len(),
    ensures
        wf_rows(v.remove(i), next_id),
{
    let w = v.remove(i);
    assert forall|a: int| 0 <= a < w.len() implies (1 <= #[trigger] w[a].id < next_id
        && is_normalized(w[a].path)) by {
        if a < i {
            assert(w[a] == v[a]);
        } else {
            assert(w[a] == v[a + 1]);
        }
    }
    assert forall|a: int, b: int| 0 <= a < b < w.len() implies #[trigger] w[a].id
        != #[trigger] w[b].id && #[trigger] w[a].path != #[trigger] w[b].path by {
        let aa = if a < i { a } else { a + 1 };
        let bb = if b < i { b } else { b + 1 };
        assert(w[a] == v[aa] && w[b] == v[bb]);
    }
}

impl MetaTable {
    /// Replace the row at `i`, keeping every other row in place.
    fn replace_at(&mut self, i: usize, row: ObjectRow)
        requires
            i < old(self)@.len(),
        ensures
            final(self)@ == old(self)@.update(i as int, row@),
            final(self).next_id == old(self).next_id,
    {
        let ghost rv = row@;
        let _ = self.rows.remove(i);
        self.rows.insert(i, row);
        proof {
            assert(self@ =~= old(self)@.update(i as int, rv));
        }
    }

    /// Set a row's size (an absolute value, not an increment) and stamp
    /// the update time.  Returns the updated row, or `None` for an
    /// unknown id.
    pub fn update_size(&mut self, id: i64, size: u64, now: i64) -> (r: Option<ObjectRow>)
        requires
            old(self).wf(),
        ensures
            final(self).wf(),
            final(self).next_id == old(self).next_id,
            match r {
                Some(row) => exists|i: int|
                    {
                        &&& 0 <= i < old(self)@.len()
                        &&& old(self)@[i].id == id
                        &&& first_with_id(old(self)@, id) == Some(old(self)@[i])
                        &&& row@ == (RowView {
                            id: old(self)@[i].id,
                            path: old(self)@[i].path,
                            kind: old(self)@[i].kind,
                            size: size,
                            hash: old(self)@[i].hash,
                            created_at: old(self)@[i].created_at,
                            updated_at: now,
                        })
                        &&& final(self)@ == old(self)@.update(i, row@)
                    },
                None => final(self)@ == old(self)@ && first_with_id(old(self)@, id) is None,
            },
    {
        match self.find_index_by_id(id) {
            None => None,
            Some(i) => {
                let old_row = self.rows[i].duplicate();
                let new_row = ObjectRow {
                    id: old_row.id,
                    path: old_row.path,
                    kind: old_row.kind,
                    size: size,
                    hash: old_row.hash,
                    created_at: old_row.created_at,
                    updated_at: now,
                };
                let out = new_row.duplicate();
                proof {
                    assert(new_row@.path == self@[i as int].path);
                    assert forall|j: int|
                        0 <= j < self@.len() && j != i as int implies self@[j].path
                        != new_row@.path by {
                        if j < i as int {
                            assert(self@[j].path != self@[i as int].path);
                        } else {
                            assert(self@[i as int].path != self@[j].path);
                        }
                    }
                    lemma_update_preserves_wf(self@, i as int, new_row@, self.next_id);
                }
                self.replace_at(i, new_row);
                Some(out)
            },
        }
    }

    /// Move a row to a new key, merging `kind` in the way a
    /// `COALESCE` does: a supplied kind replaces the stored one, an
    /// absent kind keeps it.  The new key is normalized; aiming at a
    /// key that another row holds fails with `Database` and changes
    /// nothing.
    pub fn update_path(&mut self, id: i64, path: &[u8], kind: Option<Vec<u8>>, now: i64) -> (r:
        Result<Option<ObjectRow>, StorageError>)
        requires
            old(self).wf(),
        ensures
            final(self).wf(),
            final(self).next_id == old(self).next_id,
            match r {
                Ok(None) => final(self)@ == old(self)@ && first_with_id(old(self)@, id) is None,
                Ok(Some(row)) => exists|i: int|
                    {
                        &&& 0 <= i < old(self)@.len()
                        &&& old(self)@[i].id == id
                        &&& first_with_id(old(self)@, id) == Some(old(self)@[i])
                        &&& row@ == (RowView {
                            id: old(self)@[i].id,
                            path: norm_path(path@),
                            kind: match opt_bytes_view(kind) {
                                Some(k) => Some(k),
                                None => old(self)@[i].kind,
                            },
                            size: old(self)@[i].size,
                            hash: old(self)@[i].hash,
                            created_at: old(self)@[i].created_at,
                            updated_at: now,
                        })
                        &&& final(self)@ == old(self)@.update(i, row@)
                    },
                Err(e) => {
                    &&& final(self)@ == old(self)@
                    &&& e == StorageError::Database
                    &&& first_with_id(old(self)@, id) is Some
                    &&& exists|j: int|
                        0 <= j < old(self)@.len() && #[trigger] old(self)@[j].path == norm_path(
                            path@,
                        ) && old(self)@[j].id != id
                },
            },
    {
        let p = normalize_path(path);
        match self.find_index_by_id(id) {
            None => Ok(None),
            Some(i) => {
                let found = self.find_index_by_path(p.as_slice());
                let conflict = match found {
                    Some(j) => j != i,
                    None => false,
                };
                if conflict {
                    proof {
                        let j = found->Some_0 as int;
                        assert(self@[j].path == norm_path(path@));
                        assert(self@[j].id != id) by {
                            if self@[j].id == id {
                                if (i as int) < j {
                                    assert(self@[i as int].id != self@[j].id);
                                } else {
                                    assert(self@[j].id != self@[i as int].id);
                                }
                            }
                        }
                    }
                    return Err(StorageError::Database);
                }
                let old_row = self.rows[i].duplicate();
                let new_row = ObjectRow {
                    id: old_row.id,
                    path: p,
                    kind: match kind {
                        Some(k) => Some(k),
                        None => old_row.kind,
                    },
                    size: old_row.size,
                    hash: old_row.hash,
                    created_at: old_row.created_at,
                    updated_at: now,
                };
                let out = new_row.duplicate();
                proof {
                    lemma_norm_normalized(path@);
                    assert(new_row@.path == norm_path(path@));
                    assert forall|j: int|
                        0 <= j < self@.len() && j != i as int implies self@[j].path
                        != new_row@.path by {
                        match found {
                            Some(jj) => {
                                assert(jj == i);
                                assert(self@[i as int].path == norm_path(path@));
                                if j < i as int {
                                    assert(self@[j].path != self@[i as int].path);
                                } else {
                                    assert(self@[i as int].path != self@[j].path);
                                }
                            },
                            None => {
                                lemma_first_with_path_none(self@, norm_path(path@));
                            },
                        }
                    }
                    lemma_update_preserves_wf(self@, i as int, new_row@, self.next_id);
                }
                self.replace_at(i, new_row);
                Ok(Some(out))
            },
        }
    }

    /// Remove the row with the given id and hand it back.
    pub fn delete(&mut self, id: i64) -> (r: Option<ObjectRow>)
        requires
            old(self).wf(),
        ensures
            final(self).wf(),
            final(self).next_id == old(self).next_id,
            match r {
                Some(row) => exists|i: int|
                    {
                        &&& 0 <= i < old(self)@.len()
                        &&& old(self)@[i].id == id
                        &&& first_with_id(old(self)@, id) == Some(old(self)@[i])
                        &&& row@ == old(self)@[i]
                        &&& final(self)@ == old(self)@.remove(i)
                    },
                None => final(self)@ == old(self)@ && first_with_id(old(self)@, id) is None,
            },
    {
        match self.find_index_by_id(id) {
            None => None,
            Some(i) => {
                proof {
                    lemma_remove_preserves_wf(self@, i as int, self.next_id);
                }
                let row = self.rows.remove(i);
                proof {
                    assert(self@ =~= old(self)@.remove(i as int));
                }
                Some(row)
            },
        }
    }

    /// Remove the row at the given key (normalized first) and hand it
    /// back.
    pub fn delete_by_path(&mut self, path: &[u8]) -> (r: Option<ObjectRow>)
        requires
            old(self).wf(),
        ensures
            final(self).wf(),
            final(self).next_id == old(self).next_id,
            match r {
                Some(row) => exists|i: int|
                    {
                        &&& 0 <= i < old(self)@.len()
                        &&& old(self)@[i].path == norm_path(path@)
                        &&& first_with_path(old(self)@, norm_path(path@)) == Some(old(self)@[i])
                        &&& row@ == old(self)@[i]
                        &&& final(self)@ == old(self)@.remove(i)
                    },
                None => final(self)@ == old(self)@ && first_with_path(
                    old(self)@,
                    norm_path(path@),
                ) is None,
            },
    {
        let p = normalize_path(path);
        match self.find_index_by_path(p.as_slice()) {
            None => None,
            Some(i) => {
                proof {
                    lemma_remove_preserves_wf(self@, i as int, self.next_id);
                }
                let row = self.rows.remove(i);
                proof {
                    assert(self@ =~= old(self)@.remove(i as int));
                }
                Some(row)
            },
        }
    }

    /// Create the row for a key or update its hash and size: the
    /// create-or-update write that finishing an upload performs.  The
    /// last writer wins; there is no optimistic concurrency.
    pub fn upsert(&mut self, path: &[u8], hash: &[u8], size: u64, now: i64) -> (r: Result<
        ObjectRow,
        StorageError,
    >)
        requires
            old(self).wf(),
        ensures
            final(self).wf(),
            match r {
                Ok(row) => upsert_post(
                    old(self)@,
                    old(self).next_id,
                    final(self)@,
                    final(self).next_id,
                    path@,
                    hash@,
                    size,
                    now,
                    row@,
                ),
                Err(e) => {
                    &&& final(self)@ == old(self)@
                    &&& final(self).next_id == old(self).next_id
                    &&& e == StorageError::Database
                    &&& first_with_path(old(self)@, norm_path(path@)) is None
                    &&& old(self).next_id == i64::MAX
                },
            },
    {
        let p = normalize_path(path);
        match self.find_index_by_path(p.as_slice()) {
            Some(i) => {
                let old_row = self.rows[i].duplicate();
                let new_row = ObjectRow {
                    id: old_row.id,
                    path: old_row.path,
                    kind: old_row.kind,
                    size: size,
                    hash: slice_to_vec(hash),
                    created_at: old_row.created_at,
                    updated_at: now,
                };
                let out = new_row.duplicate();
                proof {
                    lemma_update_preserves_wf(self@, i as int, new_row@, self.next_id);
                }
                self.replace_at(i, new_row);
                Ok(out)
            },
            None => self.create(path, None, size, hash, now),
        }
    }
}


/// Is a row under the given normalized prefix?  An empty prefix scopes
/// every row; otherwise the row's key must continue the prefix past a
/// slash, so the prefix names a strict ancestor folder.
pub open spec fn row_in_scope(prefix: Seq<u8>, r: RowView) -> bool {
    if prefix.len() == 0 {
        true
    } else {
        is_prefix_of(prefix + seq![slash()], r.path)
    }
}

/// The rows under a prefix, in table order.
pub open spec fn scoped_rows(v: Seq<RowView>, prefix: Seq<u8>) -> Seq<RowView> {
    v.filter(|r: RowView| row_in_scope(prefix, r))
}

/// An `offset`/`limit` window over a row sequence, clamped to its
/// length.
pub open spec fn page_of(s: Seq<RowView>, offset: Option<usize>, limit: Option<usize>) -> Seq<
    RowView,
> {
    let off: int = match offset {
        Some(o) => if o <= s.len() {
            o as int
        } else {
            s.len() as int
        },
        None => 0,
    };
    let rest = s.skip(off);
    match limit {
        Some(l) => if l <= rest.len() {
            rest.take(l as int)
        } else {
            rest
        },
        None => rest,
    }
}

impl MetaTable {
    /// The raw row window that a listing folds: the rows whose keys sit
    /// under `prefix` (all rows for an absent or empty prefix), with
    /// `offset` and `limit` applied at the row level, before any folder
    /// aggregation.
    pub fn get_rows_with_prefix(
        &self,
        prefix: Option<&[u8]>,
        limit: Option<usize>,
        offset: Option<usize>,
    ) -> (r: Vec<ObjectRow>)
        requires
            self.wf(),
        ensures
            rows_view(r@) == page_of(
                scoped_rows(
                    self@,
                    match prefix {
                        Some(p) => norm_path(p@),
                        None => Seq::<u8>::empty(),
                    },
                ),
                offset,
                limit,
            ),
    {
        let p: Vec<u8> = match prefix {
            Some(p) => normalize_path(p),
            None => Vec::new(),
        };
        let ghost pfx = p@;
        proof {
            assert(match prefix {
                Some(pp) => pfx == norm_path(pp@),
                None => pfx == Seq::<u8>::empty(),
            });
        }
        // the prefix followed by a slash, against which keys are tested
        let mut pslash: Vec<u8> = slice_to_vec(p.as_slice());
        pslash.push(47);

        let n = self.rows.len();
        let mut matches: Vec<ObjectRow> = Vec::new();
        let mut i: usize = 0;
        while i < n
            invariant
                n == self@.len(),
                i <= n,
                p@ == pfx,
                pslash@ == pfx + seq![slash()],
                rows_view(matches@) == scoped_rows(self@.take(i as int), pfx),
            decreases n - i,
        {
            let ghost pre = self@.take(i as int);
            let in_scope = if p.len() == 0 {
                true
            } else {
                starts_with(self.rows[i].path.as_slice(), pslash.as_slice())
            };
            proof {
                let row = self@[i as int];
                assert(self@.take(i as int + 1) =~= pre.push(row));
                assert(pre.push(row).drop_last() =~= pre);
                assert(pre.push(row).last() == row);
                assert(in_scope == row_in_scope(pfx, row));
                reveal_with_fuel(Seq::<_>::filter, 2);
                assert(scoped_rows(self@.take(i as int + 1), pfx) == if in_scope {
                    scoped_rows(pre, pfx).push(row)
                } else {
                    scoped_rows(pre, pfx)
                });
            }
            if in_scope {
                let ghost before = matches@;
                matches.push(self.rows[i].duplicate());
                proof {
                    assert(rows_view(matches@) =~= rows_view(before).push(self@[i as int]));
                }
            }
            i = i + 1;
        }
        proof {
            assert(self@.take(n as int) =~= self@);
        }
        // apply the offset/limit window over the matching rows
        let m = matches.len();
        let start: usize = match offset {
            Some(o) => if o <= m {
                o
            } else {
                m
            },
            None => 0,
        };
        let end: usize = match limit {
            Some(l) => if l <= m - start {
                start + l
            } else {
                m
            },
            None => m,
        };
        let mut out: Vec<ObjectRow> = Vec::new();
        let mut j: usize = start;
        while j < end
            invariant
                start <= j <= end <= m,
                m == matches@.len(),
                rows_view(out@) == rows_view(matches@).subrange(start as int, j as int),
            decreases end - j,
        {
            let ghost before = out@;
            out.push(matches[j].duplicate());
            proof {
                assert(rows_view(out@) =~= rows_view(before).push(matches@[j as int]@));
                assert(rows_view(matches@)[j as int] == matches@[j as int]@);
                assert(rows_view(out@) =~= rows_view(matches@).subrange(
                    start as int,
                    j as int + 1,
                ));
            }
            j = j + 1;
        }
        proof {
            let scoped = scoped_rows(self@, pfx);
            assert(rows_view(matches@) == scoped);
            assert(rows_view(out@) =~= page_of(scoped, offset, limit));
        }
        out
    }
}

} // verus!
