//! Virtual-directory resolver: folds a window of flat metadata rows
//! sharing a key prefix into synthetic folder entries followed by
//! direct file entries.  A folder entry carries the sum of its
//! children's sizes, the latest `updated_at` and the earliest
//! `created_at` among them; that aggregate policy is fixed here and
//! covered by tests.

use vstd::prelude::*;
use vstd::slice::{slice_subrange, slice_to_vec};

use crate::meta::{
    bytes_eq, drop_leading_slashes, drop_trailing_slashes, is_normalized, is_prefix_of,
    norm_path, page_of, row_in_scope, rows_view, scoped_rows, slash, MetaTable, ObjectRow,
    RowView,
};

verus! {

/// Index of the first slash in `s`, or its length when it has none.
pub open spec fn first_slash_at(s: Seq<u8>) -> int
    decreases s.len(),
{
    if s.len() == 0 {
        0
    } else if s[0] == slash() {
        0
    } else {
        1 + first_slash_at(s.drop_first())
    }
}

pub proof fn lemma_first_slash_char(s: Seq<u8>, k: int)
    requires
        0 <= k <= s.len(),
        forall|j: int| 0 <= j < k ==> s[j] != slash(),
        k == s.len() || s[k] == slash(),
    ensures
        first_slash_at(s) == k,
    decreases k,
{
    if s.len() > 0 && s[0] != slash() {
        lemma_first_slash_char(s.drop_first(), k - 1);
    }
}

pub proof fn lemma_first_slash_props(s: Seq<u8>)
    ensures
        0 <= first_slash_at(s) <= s.len(),
        first_slash_at(s) < s.len() ==> s[first_slash_at(s)] == slash(),
        forall|j: int| 0 <= j < first_slash_at(s) ==> s[j] != slash(),
    decreases s.len(),
{
    if s.len() > 0 && s[0] != slash() {
        lemma_first_slash_props(s.drop_first());
        assert forall|j: int| 0 <= j < first_slash_at(s) implies s[j] != slash() by {
            if j > 0 {
                assert(s.drop_first()[j - 1] != slash());
            }
        }
    }
}

/// The part of a key below the prefix: the whole key at the root,
/// otherwise what follows the prefix and its slash.
pub open spec fn suffix_of(prefix: Seq<u8>, path: Seq<u8>) -> Seq<u8> {
    if prefix.len() == 0 {
        path
    } else {
        path.skip(prefix.len() as int + 1)
    }
}

/// A key is a direct child of the prefix when its suffix has no
/// further slash.
pub open spec fn is_direct(suffix: Seq<u8>) -> bool {
    first_slash_at(suffix) == suffix.len()
}

/// The first segment of a suffix.
pub open spec fn seg_of(suffix: Seq<u8>) -> Seq<u8> {
    suffix.take(first_slash_at(suffix))
}

/// The full key of the synthetic folder for a segment.
pub open spec fn dir_path(prefix: Seq<u8>, seg: Seq<u8>) -> Seq<u8> {
    if prefix.len() == 0 {
        seg
    } else {
        prefix + seq![slash()] + seg
    }
}

/// The kind every synthetic folder entry carries.
pub open spec fn dir_kind() -> Seq<u8> {
    seq![0x64u8, 0x69u8, 0x72u8, 0x65u8, 0x63u8, 0x74u8, 0x6fu8, 0x72u8, 0x79u8]
}

/// The rows folded into the folder for `seg`: those whose suffix
/// continues past `seg` into deeper segments.
pub open spec fn folder_rows(rv: Seq<RowView>, prefix: Seq<u8>, seg: Seq<u8>) -> Seq<RowView> {
    rv.filter(
        |r: RowView|
            !is_direct(suffix_of(prefix, r.path)) && seg_of(suffix_of(prefix, r.path)) == seg,
    )
}

/// The rows listed as direct files.
pub open spec fn direct_rows(rv: Seq<RowView>, prefix: Seq<u8>) -> Seq<RowView> {
    rv.filter(|r: RowView| is_direct(suffix_of(prefix, r.path)))
}

pub open spec fn sum_sizes(s: Seq<RowView>) -> int
    decreases s.len(),
{
    if s.len() == 0 {
        0
    } else {
        sum_sizes(s.drop_last()) + s.last().size
    }
}

/// Latest `updated_at` among the rows; meaningful only when nonempty.
pub open spec fn max_upd(s: Seq<RowView>) -> int
    decreases s.len(),
{
    if s.len() == 0 {
        0
    } else if s.len() == 1 {
        s[0].updated_at as int
    } else if max_upd(s.drop_last()) >= s.last().updated_at {
        max_upd(s.drop_last())
    } else {
        s.last().updated_at as int
    }
}

/// Earliest `created_at` among the rows; meaningful only when nonempty.
pub open spec fn min_crt(s: Seq<RowView>) -> int
    decreases s.len(),
{
    if s.len() == 0 {
        0
    } else if s.len() == 1 {
        s[0].created_at as int
    } else if min_crt(s.drop_last()) <= s.last().created_at {
        min_crt(s.drop_last())
    } else {
        s.last().created_at as int
    }
}

pub proof fn lemma_sum_nonneg(s: Seq<RowView>)
    ensures
        sum_sizes(s) >= 0,
    decreases s.len(),
{
    if s.len() > 0 {
        lemma_sum_nonneg(s.drop_last());
    }
}

pub proof fn lemma_sum_filter_le(s: Seq<RowView>, pred: spec_fn(RowView) -> bool)
    ensures
        sum_sizes(s.filter(pred)) <= sum_sizes(s),
    decreases s.len(),
{
    reveal_with_fuel(Seq::<_>::filter, 2);
    if s.len() > 0 {
        lemma_sum_filter_le(s.drop_last(), pred);
        let fl = s.drop_last().filter(pred);
        if pred(s.last()) {
            assert(s.filter(pred) == fl.push(s.last()));
            assert(fl.push(s.last()).drop_last() =~= fl);
            assert(sum_sizes(fl.push(s.last())) == sum_sizes(fl) + s.last().size);
        } else {
            assert(s.filter(pred) == fl);
        }
    }
}

pub proof fn lemma_sum_take_le(s: Seq<RowView>, i: int)
    requires
        0 <= i <= s.len(),
    ensures
        sum_sizes(s.take(i)) <= sum_sizes(s),
    decreases s.len() - i,
{
    if i < s.len() {
        lemma_sum_take_le(s, i + 1);
        let t = s.take(i + 1);
        assert(t.drop_last() =~= s.take(i));
        assert(sum_sizes(s.take(i)) <= sum_sizes(t)) by {
            assert(t.last().size >= 0);
        }
    } else {
        assert(s.take(i) =~= s);
    }
}


/// One folding step: how the folder for `seg` changes when row `i`
/// is taken in.
pub proof fn lemma_folder_rows_step(rv: Seq<RowView>, pfx: Seq<u8>, i: int, seg: Seq<u8>)
    requires
        0 <= i < rv.len(),
    ensures
        folder_rows(rv.take(i + 1), pfx, seg) == (if !is_direct(suffix_of(pfx, rv[i].path))
            && seg_of(suffix_of(pfx, rv[i].path)) == seg {
            folder_rows(rv.take(i), pfx, seg).push(rv[i])
        } else {
            folder_rows(rv.take(i), pfx, seg)
        }),
{
    reveal_with_fuel(Seq::<_>::filter, 2);
    let pre = rv.take(i);
    let cur = rv.take(i + 1);
    assert(cur =~= pre.push(rv[i]));
    assert(cur.drop_last() =~= pre);
    assert(cur.last() == rv[i]);
}

pub proof fn lemma_direct_rows_step(rv: Seq<RowView>, pfx: Seq<u8>, i: int)
    requires
        0 <= i < rv.len(),
    ensures
        direct_rows(rv.take(i + 1), pfx) == (if is_direct(suffix_of(pfx, rv[i].path)) {
            direct_rows(rv.take(i), pfx).push(rv[i])
        } else {
            direct_rows(rv.take(i), pfx)
        }),
{
    reveal_with_fuel(Seq::<_>::filter, 2);
    let pre = rv.take(i);
    let cur = rv.take(i + 1);
    assert(cur =~= pre.push(rv[i]));
    assert(cur.drop_last() =~= pre);
    assert(cur.last() == rv[i]);
}

pub proof fn lemma_agg_push(ch: Seq<RowView>, r: RowView)
    requires
        ch.len() > 0,
    ensures
        sum_sizes(ch.push(r)) == sum_sizes(ch) + r.size,
        max_upd(ch.push(r)) == (if max_upd(ch) >= r.updated_at {
            max_upd(ch)
        } else {
            r.updated_at as int
        }),
        min_crt(ch.push(r)) == (if min_crt(ch) <= r.created_at {
            min_crt(ch)
        } else {
            r.created_at as int
        }),
{
    assert(ch.push(r).drop_last() =~= ch);
    assert(ch.push(r).last() == r);
}

pub proof fn lemma_agg_singleton(r: RowView)
    ensures
        sum_sizes(seq![r]) == r.size,
        max_upd(seq![r]) == r.updated_at,
        min_crt(seq![r]) == r.created_at,
{
    assert(seq![r].drop_last() =~= Seq::<RowView>::empty());
    assert(seq![r].len() == 1);
    assert(seq![r][0] == r);
    assert(seq![r].last() == r);
    assert(sum_sizes(Seq::<RowView>::empty()) == 0);
}

/// Folder aggregates stay in timestamp range: each is one of the
/// children's own field values.
pub proof fn lemma_agg_range(s: Seq<RowView>)
    requires
        s.len() > 0,
    ensures
        i64::MIN <= max_upd(s) <= i64::MAX,
        i64::MIN <= min_crt(s) <= i64::MAX,
    decreases s.len(),
{
    if s.len() > 1 {
        lemma_agg_range(s.drop_last());
    }
}

/// The segment is recovered from a folder's full key.
pub proof fn lemma_suffix_dir_path(pfx: Seq<u8>, seg: Seq<u8>)
    ensures
        suffix_of(pfx, dir_path(pfx, seg)) == seg,
{
    if pfx.len() > 0 {
        assert((pfx + seq![slash()] + seg).skip(pfx.len() as int + 1) =~= seg);
    }
}

/// Index of the first slash in a byte string, or its length.
pub fn first_slash_index(s: &[u8]) -> (i: usize)
    ensures
        i as int == first_slash_at(s@),
        i <= s@.len(),
{
    let n = s.len();
    let mut i: usize = 0;
    while i < n && s[i] != 47
        invariant
            i <= n,
            n == s@.len(),
            forall|j: int| 0 <= j < i ==> s@[j] != slash(),
        decreases n - i,
    {
        i = i + 1;
    }
    proof {
        lemma_first_slash_char(s@, i as int);
    }
    i
}

/// The spec value of a folder entry over a row window.
pub open spec fn dir_entry(rv: Seq<RowView>, prefix: Seq<u8>, seg: Seq<u8>) -> RowView {
    RowView {
        id: 0,
        path: dir_path(prefix, seg),
        kind: Some(dir_kind()),
        size: sum_sizes(folder_rows(rv, prefix, seg)) as u64,
        hash: Seq::<u8>::empty(),
        created_at: min_crt(folder_rows(rv, prefix, seg)) as i64,
        updated_at: max_upd(folder_rows(rv, prefix, seg)) as i64,
    }
}

/// What a folded listing promises: a block of synthetic folder entries
/// with exact aggregates, one per segment that has nested rows, and
/// after it the direct rows, in window order.
#[verifier::opaque]
pub open spec fn folded_listing(rv: Seq<RowView>, prefix: Seq<u8>, outv: Seq<RowView>, d: int) -> bool {
    &&& 0 <= d <= outv.len()
    &&& outv.skip(d) == direct_rows(rv, prefix)
    &&& forall|j: int|
        0 <= j < d ==> (#[trigger] outv[j]) == dir_entry(
            rv,
            prefix,
            suffix_of(prefix, outv[j].path),
        )
    &&& forall|j: int|
        0 <= j < d ==> folder_rows(rv, prefix, suffix_of(prefix, (#[trigger] outv[j]).path)).len()
            > 0
    &&& forall|j1: int, j2: int|
        0 <= j1 < j2 < d ==> (#[trigger] outv[j1]).path != (#[trigger] outv[j2]).path
    &&& forall|seg: Seq<u8>|
        (#[trigger] folder_rows(rv, prefix, seg)).len() > 0 ==> exists|j: int|
            0 <= j < d && outv[j].path == dir_path(prefix, seg)
}


/// Fold a window of rows under a normalized prefix into synthetic
/// folder entries (one per first segment that has nested rows, in
/// first-appearance order) followed by the direct file rows in window
/// order.
pub fn fold_rows(rows: &Vec<ObjectRow>, prefix: &[u8]) -> (out: Vec<ObjectRow>)
    requires
        is_normalized(prefix@),
        prefix@.len() < usize::MAX,
        forall|i: int| 0 <= i < rows@.len() ==> row_in_scope(prefix@, (#[trigger] rows@[i])@),
        sum_sizes(rows_view(rows@)) <= u64::MAX,
    ensures
        exists|d: int| folded_listing(rows_view(rows@), prefix@, rows_view(out@), d),
{
    let ghost rv = rows_view(rows@);
    let ghost pfx = prefix@;
    let suffix_start: usize = if prefix.len() == 0 {
        0
    } else {
        prefix.len() + 1
    };
    let n = rows.len();

    let mut dirs: Vec<ObjectRow> = Vec::new();
    let ghost mut segs: Seq<Seq<u8>> = Seq::empty();
    let mut i: usize = 0;
    while i < n
        invariant
            i <= n,
            n == rows@.len(),
            rv == rows_view(rows@),
            pfx == prefix@,
            suffix_start as int == if pfx.len() == 0 {
                0int
            } else {
                pfx.len() as int + 1
            },
            forall|k: int| 0 <= k < rows@.len() ==> row_in_scope(pfx, (#[trigger] rows@[k])@),
            sum_sizes(rv) <= u64::MAX,
            segs.len() == dirs@.len(),
            forall|j: int|
                0 <= j < dirs@.len() ==> (#[trigger] dirs@[j])@ == dir_entry(
                    rv.take(i as int),
                    pfx,
                    segs[j],
                ),
            forall|j: int|
                0 <= j < segs.len() ==> folder_rows(rv.take(i as int), pfx, #[trigger] segs[j]).len()
                    > 0,
            forall|j1: int, j2: int|
                0 <= j1 < j2 < segs.len() ==> #[trigger] segs[j1] != #[trigger] segs[j2],
            forall|seg: Seq<u8>|
                (#[trigger] folder_rows(rv.take(i as int), pfx, seg)).len() > 0 ==> segs.contains(
                    seg,
                ),
        decreases n - i,
    {
        let ghost row = rv[i as int];
        let ghost sfx_spec = suffix_of(pfx, row.path);
        proof {
            assert(rows@[i as int]@ == rv[i as int]);
            assert(row_in_scope(pfx, row));
            if pfx.len() > 0 {
                assert(row.path.len() >= pfx.len() + 1);
            }
        }
        let path_len = rows[i].path.len();
        let sfx = slice_subrange(rows[i].path.as_slice(), suffix_start, path_len);
        proof {
            assert(sfx@ =~= sfx_spec);
        }
        let idx = first_slash_index(sfx);
        if idx == sfx.len() {
            // a direct file: folders are unchanged by this row
            proof {
                assert(is_direct(sfx_spec));
                assert forall|seg: Seq<u8>|
                    #[trigger] folder_rows(rv.take(i as int + 1), pfx, seg) == folder_rows(
                        rv.take(i as int),
                        pfx,
                        seg,
                    ) by {
                    lemma_folder_rows_step(rv, pfx, i as int, seg);
                }
            }
        } else {
            let ghost seg_spec = seg_of(sfx_spec);
            proof {
                assert(idx + suffix_start <= path_len);
            }
            let ep = slice_subrange(rows[i].path.as_slice(), 0, suffix_start + idx);
            proof {
                lemma_first_slash_props(sfx_spec);
                if pfx.len() > 0 {
                    assert(is_prefix_of(pfx + seq![slash()], row.path));
                    assert forall|k: int| 0 <= k < pfx.len() + 1 implies row.path[k] == (pfx
                        + seq![slash()])[k] by {
                        assert((pfx + seq![slash()]) == row.path.subrange(
                            0,
                            pfx.len() as int + 1,
                        ));
                    }
                }
                assert(ep@ =~= dir_path(pfx, seg_spec));
            }
            // find the folder for this segment, if it is already listed
            let m = dirs.len();
            let mut j: usize = 0;
            let mut found: bool = false;
            while j < m && !found
                invariant
                    j <= m,
                    m == dirs@.len(),
                    segs.len() == dirs@.len(),
                    ep@ == dir_path(pfx, seg_spec),
                    forall|k: int|
                        0 <= k < dirs@.len() ==> (#[trigger] dirs@[k])@.path == dir_path(
                            pfx,
                            segs[k],
                        ),
                    !found ==> forall|k: int| 0 <= k < j ==> segs[k] != seg_spec,
                    found ==> j < m && segs[j as int] == seg_spec,
                decreases m - j, (if found { 0int } else { 1int }),
            {
                if bytes_eq(dirs[j].path.as_slice(), ep) {
                    proof {
                        lemma_suffix_dir_path(pfx, segs[j as int]);
                        lemma_suffix_dir_path(pfx, seg_spec);
                        assert(suffix_of(pfx, dir_path(pfx, segs[j as int])) == suffix_of(
                            pfx,
                            dir_path(pfx, seg_spec),
                        ));
                        assert(segs[j as int] == seg_spec);
                    }
                    found = true;
                } else {
                    j = j + 1;
                }
            }
            proof {
                // how every folder changes with this row
                assert forall|seg: Seq<u8>| seg != seg_spec implies #[trigger] folder_rows(
                    rv.take(i as int + 1),
                    pfx,
                    seg,
                ) == folder_rows(rv.take(i as int), pfx, seg) by {
                    lemma_folder_rows_step(rv, pfx, i as int, seg);
                }
                lemma_folder_rows_step(rv, pfx, i as int, seg_spec);
                lemma_sum_filter_le(
                    rv.take(i as int + 1),
                    |r: RowView|
                        !is_direct(suffix_of(pfx, r.path)) && seg_of(suffix_of(pfx, r.path))
                            == seg_spec,
                );
                lemma_sum_take_le(rv, i as int + 1);
                lemma_sum_nonneg(folder_rows(rv.take(i as int), pfx, seg_spec));
            }
            if found {
                let ghost dirs_before = dirs@;
                let old_entry = dirs.remove(j);
                let ghost ch = folder_rows(rv.take(i as int), pfx, seg_spec);
                proof {
                    lemma_agg_push(ch, row);
                    lemma_agg_range(ch);
                    lemma_agg_range(ch.push(row));
                    lemma_sum_nonneg(ch);
                }
                let new_upd: i64 = if old_entry.updated_at >= rows[i].updated_at {
                    old_entry.updated_at
                } else {
                    rows[i].updated_at
                };
                let new_crt: i64 = if old_entry.created_at <= rows[i].created_at {
                    old_entry.created_at
                } else {
                    rows[i].created_at
                };
                let new_entry = ObjectRow {
                    id: 0,
                    path: old_entry.path,
                    kind: old_entry.kind,
                    size: old_entry.size + rows[i].size,
                    hash: old_entry.hash,
                    created_at: new_crt,
                    updated_at: new_upd,
                };
                dirs.insert(j, new_entry);
                proof {
                    assert(dirs@ =~= dirs_before.update(j as int, dirs@[j as int]));
                    assert forall|jj: int| 0 <= jj < dirs@.len() implies (#[trigger] dirs@[jj])@
                        == dir_entry(rv.take(i as int + 1), pfx, segs[jj]) by {
                        if jj != j as int {
                            assert(dirs@[jj] == dirs_before[jj]);
                        }
                    }
                    assert forall|seg: Seq<u8>| (#[trigger] folder_rows(
                        rv.take(i as int + 1),
                        pfx,
                        seg,
                    )).len() > 0 implies segs.contains(seg) by {
                        if seg != seg_spec {
                            assert(folder_rows(rv.take(i as int), pfx, seg).len() > 0);
                        } else {
                            assert(segs[j as int] == seg);
                        }
                    }
                }
            } else {
                // a segment seen for the first time: its folder so far is empty
                proof {
                    assert forall|k: int| 0 <= k < segs.len() implies segs[k] != seg_spec by {}
                    if folder_rows(rv.take(i as int), pfx, seg_spec).len() > 0 {
                        assert(segs.contains(seg_spec));
                        let k = choose|k: int| 0 <= k < segs.len() && segs[k] == seg_spec;
                        assert(false);
                    }
                    assert(folder_rows(rv.take(i as int), pfx, seg_spec) =~= Seq::<
                        RowView,
                    >::empty());
                    assert(folder_rows(rv.take(i as int + 1), pfx, seg_spec) =~= Seq::<
                        RowView,
                    >::empty().push(row));
                    assert(Seq::<RowView>::empty().push(row) =~= seq![row]);
                    lemma_agg_singleton(row);
                }
                let mut kind_vec: Vec<u8> = Vec::new();
                kind_vec.push(0x64);
                kind_vec.push(0x69);
                kind_vec.push(0x72);
                kind_vec.push(0x65);
                kind_vec.push(0x63);
                kind_vec.push(0x74);
                kind_vec.push(0x6f);
                kind_vec.push(0x72);
                kind_vec.push(0x79);
                proof {
                    assert(kind_vec@ =~= dir_kind());
                }
                let new_entry = ObjectRow {
                    id: 0,
                    path: slice_to_vec(ep),
                    kind: Some(kind_vec),
                    size: rows[i].size,
                    hash: Vec::new(),
                    created_at: rows[i].created_at,
                    updated_at: rows[i].updated_at,
                };
                let ghost dirs_before = dirs@;
                dirs.push(new_entry);
                proof {
                    let segs_before = segs;
                    segs = segs.push(seg_spec);
                    assert(segs.drop_last() =~= segs_before);
                    assert forall|jj: int| 0 <= jj < dirs@.len() implies (#[trigger] dirs@[jj])@
                        == dir_entry(rv.take(i as int + 1), pfx, segs[jj]) by {
                        if jj < dirs@.len() - 1 {
                            assert(dirs@[jj] == dirs_before[jj]);
                            assert(segs[jj] != seg_spec);
                        } else {
                            assert(segs[jj] == seg_spec);
                        }
                    }
                    assert forall|seg: Seq<u8>| (#[trigger] folder_rows(
                        rv.take(i as int + 1),
                        pfx,
                        seg,
                    )).len() > 0 implies segs.contains(seg) by {
                        if seg != seg_spec {
                            assert(folder_rows(rv.take(i as int), pfx, seg).len() > 0);
                            assert(segs_before.contains(seg));
                            let k = choose|k: int|
                                0 <= k < segs_before.len() && segs_before[k] == seg;
                            assert(segs[k] == seg);
                        } else {
                            assert(segs[segs.len() - 1] == seg);
                        }
                    }
                }
            }
        }
        i = i + 1;
    }
    proof {
        assert(rv.take(n as int) =~= rv);
    }

    // the direct files, in window order
    let mut files: Vec<ObjectRow> = Vec::new();
    let mut i2: usize = 0;
    while i2 < n
        invariant
            i2 <= n,
            n == rows@.len(),
            rv == rows_view(rows@),
            pfx == prefix@,
            suffix_start as int == if pfx.len() == 0 {
                0int
            } else {
                pfx.len() as int + 1
            },
            forall|k: int| 0 <= k < rows@.len() ==> row_in_scope(pfx, (#[trigger] rows@[k])@),
            rows_view(files@) == direct_rows(rv.take(i2 as int), pfx),
        decreases n - i2,
    {
        let ghost row = rv[i2 as int];
        proof {
            assert(rows@[i2 as int]@ == rv[i2 as int]);
            if pfx.len() > 0 {
                assert(row.path.len() >= pfx.len() + 1);
            }
            lemma_direct_rows_step(rv, pfx, i2 as int);
        }
        let path_len = rows[i2].path.len();
        let sfx = slice_subrange(rows[i2].path.as_slice(), suffix_start, path_len);
        proof {
            assert(sfx@ =~= suffix_of(pfx, row.path));
        }
        let idx = first_slash_index(sfx);
        if idx == sfx.len() {
            let ghost before = files@;
            files.push(rows[i2].duplicate());
            proof {
                assert(rows_view(files@) =~= rows_view(before).push(row));
            }
        }
        i2 = i2 + 1;
    }
    proof {
        assert(rv.take(n as int) =~= rv);
    }

    // folders first, then files
    let ghost d = dirs@.len() as int;
    let ghost dirs_snap = dirs@;
    let ghost files_snap = files@;
    let mut out = dirs;
    let mut files_m = files;
    out.append(&mut files_m);
    proof {
        assert(out@ == dirs_snap + files_snap);
        let outv = rows_view(out@);
        assert(outv.skip(d) =~= rows_view(files_snap));
        assert forall|j: int| 0 <= j < d implies (#[trigger] outv[j]) == dir_entry(
            rv,
            pfx,
            suffix_of(pfx, outv[j].path),
        ) && folder_rows(rv, pfx, suffix_of(pfx, outv[j].path)).len() > 0 by {
            assert(out@[j] == dirs_snap[j]);
            assert(outv[j] == dirs_snap[j]@);
            assert(dirs_snap[j]@ == dir_entry(rv, pfx, segs[j]));
            lemma_suffix_dir_path(pfx, segs[j]);
        }
        assert forall|j1: int, j2: int| 0 <= j1 < j2 < d implies (#[trigger] outv[j1]).path
            != (#[trigger] outv[j2]).path by {
            assert(outv[j1] == dirs_snap[j1]@ && outv[j2] == dirs_snap[j2]@);
            assert(segs[j1] != segs[j2]);
            if dir_path(pfx, segs[j1]) == dir_path(pfx, segs[j2]) {
                lemma_suffix_dir_path(pfx, segs[j1]);
                lemma_suffix_dir_path(pfx, segs[j2]);
                assert(false);
            }
        }
        assert forall|seg: Seq<u8>| (#[trigger] folder_rows(rv, pfx, seg)).len() > 0 implies exists|
            j: int,
        | 0 <= j < d && rows_view(out@)[j].path == dir_path(pfx, seg) by {
            assert(segs.contains(seg));
            let k = choose|k: int| 0 <= k < segs.len() && segs[k] == seg;
            assert(rows_view(out@)[k] == dirs_snap[k]@);
            assert(dirs_snap[k]@.path == dir_path(pfx, seg));
        }
        reveal(folded_listing);
        assert(folded_listing(rv, pfx, rows_view(out@), d));
    }
    out
}


pub proof fn lemma_sum_append(a: Seq<RowView>, b: Seq<RowView>)
    ensures
        sum_sizes(a + b) == sum_sizes(a) + sum_sizes(b),
    decreases b.len(),
{
    if b.len() == 0 {
        assert(a + b =~= a);
    } else {
        lemma_sum_append(a, b.drop_last());
        assert((a + b).drop_last() =~= a + b.drop_last());
        assert((a + b).last() == b.last());
    }
}

pub proof fn lemma_sum_subrange_le(s: Seq<RowView>, lo: int, hi: int)
    requires
        0 <= lo <= hi <= s.len(),
    ensures
        sum_sizes(s.subrange(lo, hi)) <= sum_sizes(s),
{
    assert(s =~= s.subrange(0, lo) + s.subrange(lo, hi) + s.subrange(hi, s.len() as int));
    lemma_sum_append(s.subrange(0, lo) + s.subrange(lo, hi), s.subrange(hi, s.len() as int));
    lemma_sum_append(s.subrange(0, lo), s.subrange(lo, hi));
    lemma_sum_nonneg(s.subrange(0, lo));
    lemma_sum_nonneg(s.subrange(hi, s.len() as int));
}

pub proof fn lemma_drop_leading_len(s: Seq<u8>)
    ensures
        drop_leading_slashes(s).len() <= s.len(),
    decreases s.len(),
{
    if s.len() > 0 && s[0] == crate::meta::slash() {
        lemma_drop_leading_len(s.drop_first());
    }
}

pub proof fn lemma_norm_len(s: Seq<u8>)
    ensures
        norm_path(s).len() <= s.len(),
{
    lemma_drop_leading_len(s);
    crate::meta::lemma_drop_trailing_prefix(drop_leading_slashes(s));
}

/// The normalized prefix a listing works under.
pub open spec fn listing_prefix(prefix: Option<&[u8]>) -> Seq<u8> {
    match prefix {
        Some(p) => norm_path(p@),
        None => Seq::<u8>::empty(),
    }
}

/// List a virtual directory: fetch the row window under `prefix`
/// (pagination applies to raw rows, before folding) and fold it into
/// folder entries followed by direct files.  The second result is the
/// `has_more` approximation: whether the window was completely filled,
/// not an exact further-rows check.
#[verifier::rlimit(100)]
pub fn get_objects_and_folders(
    meta: &MetaTable,
    prefix: Option<&[u8]>,
    limit: Option<usize>,
    offset: Option<usize>,
) -> (r: (Vec<ObjectRow>, bool))
    requires
        meta.wf(),
        sum_sizes(meta@) <= u64::MAX,
        match prefix {
            Some(p) => p@.len() < usize::MAX,
            None => true,
        },
    ensures
        exists|d: int|
            folded_listing(
                page_of(scoped_rows(meta@, listing_prefix(prefix)), offset, limit),
                listing_prefix(prefix),
                rows_view(r.0@),
                d,
            ),
        r.1 == (match limit {
            Some(l) => page_of(scoped_rows(meta@, listing_prefix(prefix)), offset, limit).len()
                == l,
            None => page_of(scoped_rows(meta@, listing_prefix(prefix)), offset, limit).len()
                == usize::MAX,
        }),
{
    let page = meta.get_rows_with_prefix(prefix, limit, offset);
    let p: Vec<u8> = match prefix {
        Some(p) => crate::meta::normalize_path(p),
        None => Vec::new(),
    };
    let ghost pfx = p@;
    let ghost pagev = rows_view(page@);
    let ghost scoped = scoped_rows(meta@, pfx);
    proof {
        match prefix {
            Some(pp) => {
                crate::meta::lemma_norm_normalized(pp@);
                lemma_norm_len(pp@);
            },
            None => {
                assert(drop_leading_slashes(pfx) == pfx);
                assert(drop_trailing_slashes(pfx) == pfx);
            },
        }
        let off: int = match offset {
            Some(o) => if o <= scoped.len() {
                o as int
            } else {
                scoped.len() as int
            },
            None => 0,
        };
        let hi: int = match limit {
            Some(l) => if l <= scoped.len() - off {
                off + l
            } else {
                scoped.len() as int
            },
            None => scoped.len() as int,
        };
        assert(pagev =~= scoped.subrange(off, hi));
        // every fetched row is in scope: it comes out of the filter
        assert forall|i: int| 0 <= i < page@.len() implies row_in_scope(
            pfx,
            (#[trigger] page@[i])@,
        ) by {
            assert(pagev[i] == page@[i]@);
            assert(pagev[i] == scoped[off + i]);
            meta@.lemma_filter_pred(|r: RowView| row_in_scope(pfx, r), off + i);
        }
        // the window total is bounded by the table total
        lemma_sum_subrange_le(scoped, off, hi);
        lemma_sum_filter_le(meta@, |r: RowView| row_in_scope(pfx, r));
    }
    let has_more = match limit {
        Some(l) => page.len() == l,
        None => page.len() == usize::MAX,
    };
    let out = fold_rows(&page, p.as_slice());

    let result = (out, has_more);
    proof {
        let lp = listing_prefix(prefix);
        assert(lp == pfx);
        let pg = page_of(scoped_rows(meta@, lp), offset, limit);
        assert(pg == pagev);
        assert(result.0@ == out@);
        let dd = choose|d: int| folded_listing(pagev, pfx, rows_view(out@), d);
        assert(folded_listing(pagev, pfx, rows_view(out@), dd));
        assert(folded_listing(pg, lp, rows_view(result.0@), dd));
        assert(exists|d: int|
            folded_listing(
                page_of(scoped_rows(meta@, listing_prefix(prefix)), offset, limit),
                listing_prefix(prefix),
                rows_view(result.0@),
                d,
            ));
    }
    result
}

} // verus!
