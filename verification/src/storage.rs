//! The storage engine: content-addressed blobs, per-upload staging
//! directories of numbered parts, and the operations that keep blob
//! and metadata in step.  A blob lives at a location derived from its
//! key (the hex SHA-256 of the normalized key); a staging directory is
//! addressed by an upload token's fingerprint and holds its parts
//! sorted by index.

use vstd::prelude::*;
use vstd::slice::slice_to_vec;

use crate::error::StorageError;
use crate::hashing::{get_file_key_sha256, hex_of, sha256_hex, sha256_of};
use crate::meta::{bytes_eq, norm_path, MetaTable, ObjectRow};

verus! {

/// Where a key's blob lives.
pub open spec fn location_of(key: Seq<u8>) -> Seq<u8> {
    hex_of(sha256_of(norm_path(key)))
}

/// One stored blob.
pub struct Blob {
    pub location: Vec<u8>,
    pub content: Vec<u8>,
}

pub struct BlobView {
    pub location: Seq<u8>,
    pub content: Seq<u8>,
}

impl View for Blob {
    type V = BlobView;

    open spec fn view(&self) -> BlobView {
        BlobView { location: self.location@, content: self.content@ }
    }
}

pub open spec fn blobs_view(v: Seq<Blob>) -> Seq<BlobView> {
    v.map_values(|b: Blob| b@)
}

/// The first blob at a location, if any.
pub open spec fn first_with_loc(bs: Seq<BlobView>, loc: Seq<u8>) -> Option<BlobView>
    decreases bs.len(),
{
    if bs.len() == 0 {
        None
    } else if bs[0].location == loc {
        Some(bs[0])
    } else {
        first_with_loc(bs.drop_first(), loc)
    }
}

/// What a location holds.
pub open spec fn blob_content(bs: Seq<BlobView>, loc: Seq<u8>) -> Option<Seq<u8>> {
    match first_with_loc(bs, loc) {
        Some(b) => Some(b.content),
        None => None,
    }
}

pub open spec fn blobs_unique(bs: Seq<BlobView>) -> bool {
    forall|i: int, j: int|
        0 <= i < j < bs.len() ==> #[trigger] bs[i].location != #[trigger] bs[j].location
}

pub proof fn lemma_first_with_loc_skip(bs: Seq<BlobView>, loc: Seq<u8>, i: int)
    requires
        0 <= i <= bs.len(),
        forall|j: int| 0 <= j < i ==> bs[j].location != loc,
    ensures
        first_with_loc(bs, loc) == first_with_loc(bs.skip(i), loc),
    decreases i,
{
    if i > 0 {
        assert(bs.drop_first() =~= bs.skip(1));
        lemma_first_with_loc_skip(bs.skip(1), loc, i - 1);
        assert(bs.skip(1).skip(i - 1) =~= bs.skip(i));
    } else {
        assert(bs.skip(0) =~= bs);
    }
}

pub proof fn lemma_first_with_loc_none(bs: Seq<BlobView>, loc: Seq<u8>)
    ensures
        (first_with_loc(bs, loc) is None) <==> (forall|j: int|
            0 <= j < bs.len() ==> bs[j].location != loc),
    decreases bs.len(),
{
    if bs.len() > 0 && bs[0].location != loc {
        lemma_first_with_loc_none(bs.drop_first(), loc);
        if first_with_loc(bs, loc) is None {
            assert forall|j: int| 0 <= j < bs.len() implies bs[j].location != loc by {
                if j >= 1 {
                    assert(bs.drop_first()[j - 1].location != loc);
                }
            }
        } else {
            let j = choose|j: int|
                0 <= j < bs.drop_first().len() && bs.drop_first()[j].location == loc;
            assert(bs[j + 1].location == loc);
        }
    }
}

/// Looking a location up walks to its unique row.
pub proof fn lemma_first_with_loc_at(bs: Seq<BlobView>, loc: Seq<u8>, i: int)
    requires
        0 <= i < bs.len(),
        bs[i].location == loc,
        forall|j: int| 0 <= j < i ==> bs[j].location != loc,
    ensures
        first_with_loc(bs, loc) == Some(bs[i]),
{
    lemma_first_with_loc_skip(bs, loc, i);
    assert(bs.skip(i)[0] == bs[i]);
}

/// Find the index of a location in a blob vector.
fn find_blob(blobs: &Vec<Blob>, loc: &[u8]) -> (r: Option<usize>)
    ensures
        match r {
            Some(i) => i < blobs@.len() && blobs@[i as int]@.location == loc@ && first_with_loc(
                blobs_view(blobs@),
                loc@,
            ) == Some(blobs@[i as int]@),
            None => first_with_loc(blobs_view(blobs@), loc@) is None,
        },
{
    let n = blobs.len();
    let mut i: usize = 0;
    while i < n
        invariant
            n == blobs@.len(),
            i <= n,
            forall|j: int| 0 <= j < i ==> blobs_view(blobs@)[j].location != loc@,
        decreases n - i,
    {
        if bytes_eq(blobs[i].location.as_slice(), loc) {
            proof {
                assert(blobs_view(blobs@)[i as int] == blobs@[i as int]@);
                lemma_first_with_loc_at(blobs_view(blobs@), loc@, i as int);
            }
            return Some(i);
        }
        i = i + 1;
    }
    proof {
        lemma_first_with_loc_skip(blobs_view(blobs@), loc@, n as int);
        assert(blobs_view(blobs@).skip(n as int) =~= Seq::<BlobView>::empty());
    }
    None
}

/// Create or overwrite the blob at a location.
fn put_blob(blobs: &mut Vec<Blob>, loc: Vec<u8>, content: Vec<u8>)
    requires
        blobs_unique(blobs_view(old(blobs)@)),
    ensures
        blobs_unique(blobs_view(final(blobs)@)),
        forall|l: Seq<u8>|
            #[trigger] blob_content(blobs_view(final(blobs)@), l) == if l == loc@ {
                Some(content@)
            } else {
                blob_content(blobs_view(old(blobs)@), l)
            },
{
    let ghost oldv = blobs_view(blobs@);
    let ghost locg = loc@;
    let ghost contentg = content@;
    let found = find_blob(blobs, loc.as_slice());
    match found {
        Some(i) => {
            let _ = blobs.remove(i);
            blobs.insert(i, Blob { location: loc, content: content });
            proof {
                let newv = blobs_view(blobs@);
                assert(newv =~= oldv.update(i as int, (BlobView { location: locg, content: contentg })));
                assert forall|a: int, b: int| 0 <= a < b < newv.len() implies #[trigger] newv[a].location
                    != #[trigger] newv[b].location by {
                    if a != i as int && b != i as int {
                        assert(newv[a] == oldv[a] && newv[b] == oldv[b]);
                    } else if a == i as int {
                        assert(oldv[b].location != oldv[a].location);
                    } else {
                        assert(oldv[a].location != oldv[b].location);
                    }
                }
                assert forall|l: Seq<u8>| #[trigger] blob_content(newv, l) == (if l == locg {
                    Some(contentg)
                } else {
                    blob_content(oldv, l)
                }) by {
                    if l == locg {
                        assert forall|j: int| 0 <= j < i as int implies newv[j].location != l by {
                            assert(newv[j] == oldv[j]);
                            assert(oldv[j].location != oldv[i as int].location);
                        }
                        lemma_first_with_loc_at(newv, l, i as int);
                    } else {
                        lemma_first_with_loc_none(newv, l);
                        lemma_first_with_loc_none(oldv, l);
                        if first_with_loc(oldv, l) is Some {
                            let j = choose|j: int| 0 <= j < oldv.len() && oldv[j].location == l;
                            assert(j != i as int);
                            assert(newv[j] == oldv[j]);
                            let k = choose|k: int|
                                0 <= k < oldv.len() && oldv[k].location == l && forall|j2: int|
                                    0 <= j2 < k ==> oldv[j2].location != l;
                            assert(first_with_loc(oldv, l) == Some(oldv[k])) by {
                                lemma_first_with_loc_at(oldv, l, k);
                            }
                            assert(newv[k] == oldv[k]);
                            assert forall|j2: int| 0 <= j2 < k implies newv[j2].location != l by {
                                if j2 == i as int {
                                    assert(newv[j2].location == locg);
                                } else {
                                    assert(newv[j2] == oldv[j2]);
                                }
                            }
                            lemma_first_with_loc_at(newv, l, k);
                        } else {
                            assert forall|j: int| 0 <= j < newv.len() implies newv[j].location
                                != l by {
                                if j == i as int {
                                    assert(newv[j].location == locg);
                                } else {
                                    assert(newv[j] == oldv[j]);
                                }
                            }
                        }
                    }
                }
            }
        },
        None => {
            blobs.push(Blob { location: loc, content: content });
            proof {
                let newv = blobs_view(blobs@);
                assert(newv =~= oldv.push((BlobView { location: locg, content: contentg })));
                lemma_first_with_loc_none(oldv, locg);
                assert forall|a: int, b: int| 0 <= a < b < newv.len() implies #[trigger] newv[a].location
                    != #[trigger] newv[b].location by {
                    assert(newv[a] == oldv[a]);
                    if b < oldv.len() {
                        assert(newv[b] == oldv[b]);
                    } else {
                        assert(newv[b].location == locg);
                        assert(oldv[a].location != locg);
                    }
                }
                assert forall|l: Seq<u8>| #[trigger] blob_content(newv, l) == (if l == locg {
                    Some(contentg)
                } else {
                    blob_content(oldv, l)
                }) by {
                    if l == locg {
                        assert forall|j: int| 0 <= j < oldv.len() implies newv[j].location != l by {
                            assert(newv[j] == oldv[j]);
                        }
                        lemma_first_with_loc_at(newv, l, oldv.len() as int);
                    } else {
                        lemma_first_with_loc_none(oldv, l);
                        lemma_first_with_loc_none(newv, l);
                        if first_with_loc(oldv, l) is Some {
                            let k = choose|k: int|
                                0 <= k < oldv.len() && oldv[k].location == l && forall|j2: int|
                                    0 <= j2 < k ==> oldv[j2].location != l;
                            assert(first_with_loc(oldv, l) == Some(oldv[k])) by {
                                lemma_first_with_loc_at(oldv, l, k);
                            }
                            assert(newv[k] == oldv[k]);
                            assert forall|j2: int| 0 <= j2 < k implies newv[j2].location != l by {
                                assert(newv[j2] == oldv[j2]);
                            }
                            lemma_first_with_loc_at(newv, l, k);
                        } else {
                            assert forall|j: int| 0 <= j < newv.len() implies newv[j].location
                                != l by {
                                if j < oldv.len() {
                                    assert(newv[j] == oldv[j]);
                                } else {
                                    assert(newv[j].location == locg);
                                }
                            }
                        }
                    }
                }
            }
        },
    }
}

/// Drop the blob at a location, returning whether one was there.
fn remove_blob(blobs: &mut Vec<Blob>, loc: &[u8]) -> (r: Option<Vec<u8>>)
    requires
        blobs_unique(blobs_view(old(blobs)@)),
    ensures
        blobs_unique(blobs_view(final(blobs)@)),
        match r {
            Some(c) => Some(c@) == blob_content(blobs_view(old(blobs)@), loc@),
            None => blob_content(blobs_view(old(blobs)@), loc@) is None && blobs_view(
                final(blobs)@,
            ) == blobs_view(old(blobs)@),
        },
        forall|l: Seq<u8>|
            #[trigger] blob_content(blobs_view(final(blobs)@), l) == if l == loc@ {
                None::<Seq<u8>>
            } else {
                blob_content(blobs_view(old(blobs)@), l)
            },
{
    let ghost oldv = blobs_view(blobs@);
    let found = find_blob(blobs, loc);
    match found {
        Some(i) => {
            let b = blobs.remove(i);
            proof {
                let newv = blobs_view(blobs@);
                assert(newv =~= oldv.remove(i as int));
                assert forall|a: int, b2: int| 0 <= a < b2 < newv.len() implies #[trigger] newv[a].location
                    != #[trigger] newv[b2].location by {
                    let aa = if a < i as int { a } else { a + 1 };
                    let bb = if b2 < i as int { b2 } else { b2 + 1 };
                    assert(newv[a] == oldv[aa] && newv[b2] == oldv[bb]);
                }
                assert forall|l: Seq<u8>| #[trigger] blob_content(newv, l) == (if l == loc@ {
                    None::<Seq<u8>>
                } else {
                    blob_content(oldv, l)
                }) by {
                    if l == loc@ {
                        lemma_first_with_loc_none(newv, l);
                        assert forall|j: int| 0 <= j < newv.len() implies newv[j].location != l by {
                            let jj = if j < i as int { j } else { j + 1 };
                            assert(newv[j] == oldv[jj]);
                            if jj != i as int {
                                if jj < i as int {
                                    assert(oldv[jj].location != oldv[i as int].location);
                                } else {
                                    assert(oldv[i as int].location != oldv[jj].location);
                                }
                            }
                        }
                    } else {
                        lemma_first_with_loc_none(oldv, l);
                        lemma_first_with_loc_none(newv, l);
                        if first_with_loc(oldv, l) is Some {
                            let k = choose|k: int|
                                0 <= k < oldv.len() && oldv[k].location == l && forall|j2: int|
                                    0 <= j2 < k ==> oldv[j2].location != l;
                            assert(first_with_loc(oldv, l) == Some(oldv[k])) by {
                                lemma_first_with_loc_at(oldv, l, k);
                            }
                            let k2 = if k < i as int { k } else { k - 1 };
                            assert(newv[k2] == oldv[k]);
                            assert forall|j2: int| 0 <= j2 < k2 implies newv[j2].location != l by {
                                let jj = if j2 < i as int { j2 } else { j2 + 1 };
                                assert(newv[j2] == oldv[jj]);
                            }
                            lemma_first_with_loc_at(newv, l, k2);
                        } else {
                            assert forall|j: int| 0 <= j < newv.len() implies newv[j].location
                                != l by {
                                let jj = if j < i as int { j } else { j + 1 };
                                assert(newv[j] == oldv[jj]);
                            }
                        }
                    }
                }
            }
            Some(b.content)
        },
        None => {
            proof {
                assert forall|l: Seq<u8>| #[trigger] blob_content(blobs_view(blobs@), l) == (if l
                    == loc@ {
                    None::<Seq<u8>>
                } else {
                    blob_content(oldv, l)
                }) by {}
            }
            None
        },
    }
}


/// One numbered part of an in-flight upload.
pub struct Part {
    pub index: u64,
    pub data: Vec<u8>,
}

pub struct PartView {
    pub index: u64,
    pub data: Seq<u8>,
}

impl View for Part {
    type V = PartView;

    open spec fn view(&self) -> PartView {
        PartView { index: self.index, data: self.data@ }
    }
}

pub open spec fn parts_view(v: Seq<Part>) -> Seq<PartView> {
    v.map_values(|p: Part| p@)
}

/// Parts are kept in strictly increasing index order.
pub open spec fn parts_sorted(ps: Seq<PartView>) -> bool {
    forall|i: int, j: int| 0 <= i < j < ps.len() ==> #[trigger] ps[i].index < #[trigger] ps[j].index
}

/// Sorted insertion of a part: a later upload of the same index
/// replaces the earlier bytes.
pub open spec fn insert_part(ps: Seq<PartView>, p: PartView) -> Seq<PartView>
    decreases ps.len(),
{
    if ps.len() == 0 {
        seq![p]
    } else if p.index < ps[0].index {
        seq![p] + ps
    } else if p.index == ps[0].index {
        seq![p] + ps.drop_first()
    } else {
        seq![ps[0]] + insert_part(ps.drop_first(), p)
    }
}

pub proof fn lemma_insert_part_sorted(ps: Seq<PartView>, p: PartView)
    requires
        parts_sorted(ps),
    ensures
        parts_sorted(insert_part(ps, p)),
        forall|i: int|
            0 <= i < insert_part(ps, p).len() ==> (#[trigger] insert_part(ps, p)[i] == p
                || ps.contains(insert_part(ps, p)[i])),
        exists|i: int| 0 <= i < insert_part(ps, p).len() && insert_part(ps, p)[i] == p,
    decreases ps.len(),
{
    reveal_with_fuel(insert_part, 2);
    let out = insert_part(ps, p);
    if ps.len() == 0 {
        assert(out[0] == p);
    } else if p.index < ps[0].index {
        assert(out[0] == p);
        assert forall|i: int| 0 <= i < out.len() implies (out[i] == p || ps.contains(out[i])) by {
            if i > 0 {
                assert(out[i] == ps[i - 1]);
            }
        }
        assert forall|i: int, j: int| 0 <= i < j < out.len() implies #[trigger] out[i].index
            < #[trigger] out[j].index by {
            if i > 0 {
                assert(out[i] == ps[i - 1] && out[j] == ps[j - 1]);
            } else {
                assert(out[j] == ps[j - 1]);
                if j > 1 {
                    assert(ps[0].index < ps[j - 1].index);
                }
            }
        }
    } else if p.index == ps[0].index {
        assert(out[0] == p);
        assert forall|i: int| 0 <= i < out.len() implies (out[i] == p || ps.contains(out[i])) by {
            if i > 0 {
                assert(out[i] == ps[i]);
            }
        }
        assert forall|i: int, j: int| 0 <= i < j < out.len() implies #[trigger] out[i].index
            < #[trigger] out[j].index by {
            if i > 0 {
                assert(out[i] == ps[i] && out[j] == ps[j]);
            } else {
                assert(out[j] == ps[j]);
                assert(ps[0].index < ps[j].index);
            }
        }
    } else {
        let tail = ps.drop_first();
        assert(parts_sorted(tail)) by {
            assert forall|i: int, j: int| 0 <= i < j < tail.len() implies #[trigger] tail[i].index
                < #[trigger] tail[j].index by {
                assert(tail[i] == ps[i + 1] && tail[j] == ps[j + 1]);
            }
        }
        lemma_insert_part_sorted(tail, p);
        let sub = insert_part(tail, p);
        assert(out == seq![ps[0]] + sub);
        assert forall|i: int, j: int| 0 <= i < j < out.len() implies #[trigger] out[i].index
            < #[trigger] out[j].index by {
            if i == 0 {
                assert(out[j] == sub[j - 1]);
                assert(sub[j - 1] == p || tail.contains(sub[j - 1]));
                if sub[j - 1] == p {
                } else {
                    let k = choose|k: int| 0 <= k < tail.len() && tail[k] == sub[j - 1];
                    assert(tail[k] == ps[k + 1]);
                    assert(ps[0].index < ps[k + 1].index);
                }
            } else {
                assert(out[i] == sub[i - 1] && out[j] == sub[j - 1]);
            }
        }
        assert forall|i: int| 0 <= i < out.len() implies (out[i] == p || ps.contains(out[i])) by {
            if i == 0 {
                assert(ps.contains(ps[0]));
            } else {
                assert(out[i] == sub[i - 1]);
                if sub[i - 1] != p {
                    let k = choose|k: int| 0 <= k < tail.len() && tail[k] == sub[i - 1];
                    assert(tail[k] == ps[k + 1]);
                    assert(ps.contains(ps[k + 1]));
                }
            }
        }
        let wi = choose|i: int| 0 <= i < sub.len() && sub[i] == p;
        assert(out[wi + 1] == p);
    }
}

/// Uploading two parts with different indices lands in the same
/// staging state whichever comes first: assembly order depends only on
/// the indices, never on upload order.
pub proof fn lemma_insert_part_comm(ps: Seq<PartView>, p1: PartView, p2: PartView)
    requires
        p1.index != p2.index,
    ensures
        insert_part(insert_part(ps, p1), p2) == insert_part(insert_part(ps, p2), p1),
    decreases ps.len(),
{
    reveal_with_fuel(insert_part, 2);
    let lo = if p1.index < p2.index {
        p1
    } else {
        p2
    };
    let hi = if p1.index < p2.index {
        p2
    } else {
        p1
    };
    // it is enough to show both orders of inserting lo and hi agree
    if ps.len() == 0 {
        assert(insert_part(ps, hi) == seq![hi]);
        assert(insert_part(ps, lo) == seq![lo]);
        assert(insert_part(seq![hi], lo) =~= seq![lo] + seq![hi]);
        assert(seq![lo].drop_first() =~= Seq::<PartView>::empty());
        assert(insert_part(seq![lo], hi) =~= seq![lo] + insert_part(
            seq![lo].drop_first(),
            hi,
        ));
        assert(insert_part(seq![lo], hi) =~= seq![lo] + seq![hi]);
    } else {
        let h = ps[0];
        let t = ps.drop_first();
        if hi.index < h.index {
            assert(insert_part(ps, hi) == seq![hi] + ps);
            assert((seq![hi] + ps)[0] == hi);
            assert(insert_part(seq![hi] + ps, lo) == seq![lo] + (seq![hi] + ps));
            assert(insert_part(ps, lo) == seq![lo] + ps);
            assert((seq![lo] + ps)[0] == lo);
            assert((seq![lo] + ps).drop_first() =~= ps);
            assert(insert_part(seq![lo] + ps, hi) == seq![lo] + insert_part(ps, hi));
            assert(seq![lo] + (seq![hi] + ps) =~= seq![lo] + (seq![hi] + ps));
            assert(insert_part(insert_part(ps, lo), hi) =~= insert_part(
                insert_part(ps, hi),
                lo,
            ));
        } else if hi.index == h.index {
            assert(insert_part(ps, hi) == seq![hi] + t);
            assert((seq![hi] + t)[0] == hi);
            assert(insert_part(seq![hi] + t, lo) == seq![lo] + (seq![hi] + t));
            assert(insert_part(ps, lo) == seq![lo] + ps);
            assert((seq![lo] + ps)[0] == lo);
            assert((seq![lo] + ps).drop_first() =~= ps);
            assert(insert_part(seq![lo] + ps, hi) == seq![lo] + insert_part(ps, hi));
            assert(insert_part(insert_part(ps, lo), hi) =~= insert_part(
                insert_part(ps, hi),
                lo,
            ));
        } else {
            // hi belongs in the tail
            assert(insert_part(ps, hi) == seq![h] + insert_part(t, hi));
            let sub = insert_part(t, hi);
            if lo.index < h.index {
                assert((seq![h] + sub)[0] == h);
                assert(insert_part(seq![h] + sub, lo) == seq![lo] + (seq![h] + sub));
                assert(insert_part(ps, lo) == seq![lo] + ps);
                assert((seq![lo] + ps)[0] == lo);
                assert((seq![lo] + ps).drop_first() =~= ps);
                assert(insert_part(seq![lo] + ps, hi) == seq![lo] + insert_part(ps, hi));
                assert(insert_part(insert_part(ps, lo), hi) =~= insert_part(
                    insert_part(ps, hi),
                    lo,
                ));
            } else if lo.index == h.index {
                assert((seq![h] + sub)[0] == h);
                assert((seq![h] + sub).drop_first() =~= sub);
                assert(insert_part(seq![h] + sub, lo) == seq![lo] + sub);
                assert(insert_part(ps, lo) == seq![lo] + t);
                assert((seq![lo] + t)[0] == lo);
                assert((seq![lo] + t).drop_first() =~= t);
                assert(insert_part(seq![lo] + t, hi) == seq![lo] + insert_part(t, hi));
                assert(insert_part(insert_part(ps, lo), hi) =~= insert_part(
                    insert_part(ps, hi),
                    lo,
                ));
            } else {
                lemma_insert_part_comm(t, p1, p2);
                let s1 = insert_part(t, p1);
                let s2 = insert_part(t, p2);
                assert(insert_part(ps, p1) == seq![h] + s1);
                assert(insert_part(ps, p2) == seq![h] + s2);
                assert((seq![h] + s1)[0] == h);
                assert((seq![h] + s1).drop_first() =~= s1);
                assert((seq![h] + s2)[0] == h);
                assert((seq![h] + s2).drop_first() =~= s2);
                assert(insert_part(seq![h] + s1, p2) == seq![h] + insert_part(s1, p2));
                assert(insert_part(seq![h] + s2, p1) == seq![h] + insert_part(s2, p1));
            }
        }
    }
}

/// The bytes an upload assembles: each part's data, in stored (index)
/// order.
pub open spec fn concat_parts(ps: Seq<PartView>) -> Seq<u8>
    decreases ps.len(),
{
    if ps.len() == 0 {
        Seq::<u8>::empty()
    } else {
        concat_parts(ps.drop_last()) + ps.last().data
    }
}


/// One upload session's staging directory.
pub struct StagingDir {
    pub fingerprint: Vec<u8>,
    pub parts: Vec<Part>,
}

pub struct StagingView {
    pub fingerprint: Seq<u8>,
    pub parts: Seq<PartView>,
}

impl View for StagingDir {
    type V = StagingView;

    open spec fn view(&self) -> StagingView {
        StagingView { fingerprint: self.fingerprint@, parts: parts_view(self.parts@) }
    }
}

pub open spec fn staging_view(v: Seq<StagingDir>) -> Seq<StagingView> {
    v.map_values(|d: StagingDir| d@)
}

/// The first staging directory with a fingerprint, if any.
pub open spec fn first_with_fp(sv: Seq<StagingView>, fp: Seq<u8>) -> Option<StagingView>
    decreases sv.len(),
{
    if sv.len() == 0 {
        None
    } else if sv[0].fingerprint == fp {
        Some(sv[0])
    } else {
        first_with_fp(sv.drop_first(), fp)
    }
}

pub open spec fn fps_unique(sv: Seq<StagingView>) -> bool {
    forall|i: int, j: int|
        0 <= i < j < sv.len() ==> #[trigger] sv[i].fingerprint != #[trigger] sv[j].fingerprint
}

pub proof fn lemma_first_with_fp_skip(sv: Seq<StagingView>, fp: Seq<u8>, i: int)
    requires
        0 <= i <= sv.len(),
        forall|j: int| 0 <= j < i ==> sv[j].fingerprint != fp,
    ensures
        first_with_fp(sv, fp) == first_with_fp(sv.skip(i), fp),
    decreases i,
{
    if i > 0 {
        assert(sv.drop_first() =~= sv.skip(1));
        lemma_first_with_fp_skip(sv.skip(1), fp, i - 1);
        assert(sv.skip(1).skip(i - 1) =~= sv.skip(i));
    } else {
        assert(sv.skip(0) =~= sv);
    }
}

pub proof fn lemma_first_with_fp_at(sv: Seq<StagingView>, fp: Seq<u8>, i: int)
    requires
        0 <= i < sv.len(),
        sv[i].fingerprint == fp,
        forall|j: int| 0 <= j < i ==> sv[j].fingerprint != fp,
    ensures
        first_with_fp(sv, fp) == Some(sv[i]),
{
    lemma_first_with_fp_skip(sv, fp, i);
    assert(sv.skip(i)[0] == sv[i]);
}

pub proof fn lemma_first_with_fp_none(sv: Seq<StagingView>, fp: Seq<u8>)
    ensures
        (first_with_fp(sv, fp) is None) <==> (forall|j: int|
            0 <= j < sv.len() ==> sv[j].fingerprint != fp),
    decreases sv.len(),
{
    if sv.len() > 0 && sv[0].fingerprint != fp {
        lemma_first_with_fp_none(sv.drop_first(), fp);
        if first_with_fp(sv, fp) is None {
            assert forall|j: int| 0 <= j < sv.len() implies sv[j].fingerprint != fp by {
                if j >= 1 {
                    assert(sv.drop_first()[j - 1].fingerprint != fp);
                }
            }
        } else {
            let j = choose|j: int|
                0 <= j < sv.drop_first().len() && sv.drop_first()[j].fingerprint == fp;
            assert(sv[j + 1].fingerprint == fp);
        }
    }
}

/// Find the staging directory for a fingerprint.
fn find_staging(dirs: &Vec<StagingDir>, fp: &[u8]) -> (r: Option<usize>)
    ensures
        match r {
            Some(i) => i < dirs@.len() && dirs@[i as int]@.fingerprint == fp@ && first_with_fp(
                staging_view(dirs@),
                fp@,
            ) == Some(dirs@[i as int]@) && (forall|j: int|
                0 <= j < i ==> staging_view(dirs@)[j].fingerprint != fp@),
            None => first_with_fp(staging_view(dirs@), fp@) is None,
        },
{
    let n = dirs.len();
    let mut i: usize = 0;
    while i < n
        invariant
            n == dirs@.len(),
            i <= n,
            forall|j: int| 0 <= j < i ==> staging_view(dirs@)[j].fingerprint != fp@,
        decreases n - i,
    {
        if bytes_eq(dirs[i].fingerprint.as_slice(), fp) {
            proof {
                assert(staging_view(dirs@)[i as int] == dirs@[i as int]@);
                lemma_first_with_fp_at(staging_view(dirs@), fp@, i as int);
            }
            return Some(i);
        }
        i = i + 1;
    }
    proof {
        lemma_first_with_fp_skip(staging_view(dirs@), fp@, n as int);
        assert(staging_view(dirs@).skip(n as int) =~= Seq::<StagingView>::empty());
    }
    None
}

/// The whole engine state: the metadata table, the blob area and the
/// in-flight staging directories.
pub struct Storage {
    pub meta: MetaTable,
    pub blobs: Vec<Blob>,
    pub staging: Vec<StagingDir>,
}

impl Storage {
    pub open spec fn wf(&self) -> bool {
        &&& self.meta.wf()
        &&& blobs_unique(blobs_view(self.blobs@))
        &&& fps_unique(staging_view(self.staging@))
        &&& forall|i: int|
            0 <= i < self.staging@.len() ==> parts_sorted(
                (#[trigger] staging_view(self.staging@)[i]).parts,
            )
    }

    pub fn new() -> (r: Storage)
        ensures
            r.wf(),
            r.meta@.len() == 0,
            r.meta.next_id == 1,
            blobs_view(r.blobs@).len() == 0,
            staging_view(r.staging@).len() == 0,
    {
        let r = Storage { meta: MetaTable::new(), blobs: Vec::new(), staging: Vec::new() };
        proof {
            assert(blobs_view(r.blobs@) =~= Seq::<BlobView>::empty());
            assert(staging_view(r.staging@) =~= Seq::<StagingView>::empty());
        }
        r
    }

    /// The bytes stored for a key, straight from its blob location.
    pub fn read(&self, key: &[u8]) -> (r: Option<Vec<u8>>)
        requires
            self.wf(),
        ensures
            match r {
                Some(c) => blob_content(blobs_view(self.blobs@), location_of(key@)) == Some(c@),
                None => blob_content(blobs_view(self.blobs@), location_of(key@)) is None,
            },
    {
        let p = crate::meta::normalize_path(key);
        let loc = get_file_key_sha256(p.as_slice());
        match find_blob(&self.blobs, loc.as_slice()) {
            Some(i) => Some(slice_to_vec(self.blobs[i].content.as_slice())),
            None => None,
        }
    }

    /// Create a fresh object at a key: rejected with `BadRequest` when
    /// a blob already sits at the key's location, without touching
    /// metadata; otherwise an empty blob and a fresh row appear
    /// together.
    pub fn create_object(&mut self, key: &[u8], kind: Option<Vec<u8>>, now: i64) -> (r: Result<
        ObjectRow,
        StorageError,
    >)
        requires
            old(self).wf(),
        ensures
            final(self).wf(),
            staging_view(final(self).staging@) == staging_view(old(self).staging@),
            match r {
                Ok(row) => {
                    &&& blob_content(blobs_view(old(self).blobs@), location_of(key@)) is None
                    &&& crate::meta::first_with_path(old(self).meta@, norm_path(key@)) is None
                    &&& old(self).meta.next_id < i64::MAX
                    &&& row@ == (crate::meta::RowView {
                        id: old(self).meta.next_id,
                        path: norm_path(key@),
                        kind: crate::meta::opt_bytes_view(kind),
                        size: 0,
                        hash: hex_of(sha256_of(Seq::<u8>::empty())),
                        created_at: now,
                        updated_at: now,
                    })
                    &&& final(self).meta@ == old(self).meta@.push(row@)
                    &&& final(self).meta.next_id == old(self).meta.next_id + 1
                    &&& forall|l: Seq<u8>|
                        #[trigger] blob_content(blobs_view(final(self).blobs@), l) == if l
                            == location_of(key@) {
                            Some(Seq::<u8>::empty())
                        } else {
                            blob_content(blobs_view(old(self).blobs@), l)
                        }
                },
                Err(e) => {
                    &&& final(self).meta@ == old(self).meta@
                    &&& final(self).meta.next_id == old(self).meta.next_id
                    &&& blobs_view(final(self).blobs@) == blobs_view(old(self).blobs@)
                    &&& (e == StorageError::BadRequest || e == StorageError::Database)
                    &&& (e == StorageError::BadRequest <==> blob_content(
                        blobs_view(old(self).blobs@),
                        location_of(key@),
                    ) is Some)
                    &&& e == StorageError::Database ==> (crate::meta::first_with_path(
                        old(self).meta@,
                        norm_path(key@),
                    ) is Some || old(self).meta.next_id == i64::MAX)
                },
            },
    {
        let p = crate::meta::normalize_path(key);
        let loc = get_file_key_sha256(p.as_slice());
        if let Some(_i) = find_blob(&self.blobs, loc.as_slice()) {
            return Err(StorageError::BadRequest);
        }
        let empty: Vec<u8> = Vec::new();
        let hash = sha256_hex(empty.as_slice());
        match self.meta.create(key, kind, 0, hash.as_slice(), now) {
            Ok(row) => {
                put_blob(&mut self.blobs, loc, empty);
                Ok(row)
            },
            Err(e) => Err(e),
        }
    }

    /// Make sure the staging directory for an upload fingerprint
    /// exists; creating an existing one changes nothing (idempotent).
    pub fn create_upload(&mut self, fingerprint: &[u8])
        requires
            old(self).wf(),
        ensures
            final(self).wf(),
            final(self).meta@ == old(self).meta@,
            final(self).meta.next_id == old(self).meta.next_id,
            blobs_view(final(self).blobs@) == blobs_view(old(self).blobs@),
            match first_with_fp(staging_view(old(self).staging@), fingerprint@) {
                Some(_d) => staging_view(final(self).staging@) == staging_view(
                    old(self).staging@,
                ),
                None => staging_view(final(self).staging@) == staging_view(
                    old(self).staging@,
                ).push(
                    (StagingView { fingerprint: fingerprint@, parts: Seq::<PartView>::empty() }),
                ),
            },
            first_with_fp(staging_view(final(self).staging@), fingerprint@) is Some,
    {
        let ghost oldv = staging_view(self.staging@);
        match find_staging(&self.staging, fingerprint) {
            Some(_i) => {},
            None => {
                self.staging.push(
                    StagingDir { fingerprint: slice_to_vec(fingerprint), parts: Vec::new() },
                );
                proof {
                    let newv = staging_view(self.staging@);
                    let nd = (StagingView {
                        fingerprint: fingerprint@,
                        parts: Seq::<PartView>::empty(),
                    });
                    assert(parts_view(Seq::<Part>::empty()) =~= Seq::<PartView>::empty());
                    assert(newv =~= oldv.push(nd));
                    lemma_first_with_fp_none(oldv, fingerprint@);
                    assert forall|a: int, b: int| 0 <= a < b < newv.len() implies
                        #[trigger] newv[a].fingerprint != #[trigger] newv[b].fingerprint by {
                        assert(newv[a] == oldv[a]);
                        if b < oldv.len() {
                            assert(newv[b] == oldv[b]);
                        } else {
                            assert(newv[b] == nd);
                            assert(oldv[a].fingerprint != fingerprint@);
                        }
                    }
                    assert forall|i: int| 0 <= i < newv.len() implies parts_sorted(
                        (#[trigger] newv[i]).parts,
                    ) by {
                        if i < oldv.len() {
                            assert(newv[i] == oldv[i]);
                        } else {
                            assert(newv[i] == nd);
                        }
                    }
                    assert forall|j: int| 0 <= j < oldv.len() implies newv[j].fingerprint
                        != fingerprint@ by {
                        assert(newv[j] == oldv[j]);
                    }
                    lemma_first_with_fp_at(newv, fingerprint@, oldv.len() as int);
                }
            },
        }
    }

    /// Write a key's bytes and record them: the blob is replaced, then
    /// the metadata row is created or updated with the exact size and
    /// content hash.  A `Database` failure happens after the blob
    /// write: the divergence window is part of the contract, not
    /// hidden by it.
    pub fn store(&mut self, key: &[u8], bytes: &[u8], now: i64) -> (r: Result<
        ObjectRow,
        StorageError,
    >)
        requires
            old(self).wf(),
        ensures
            final(self).wf(),
            staging_view(final(self).staging@) == staging_view(old(self).staging@),
            forall|l: Seq<u8>|
                #[trigger] blob_content(blobs_view(final(self).blobs@), l) == if l == location_of(
                    key@,
                ) {
                    Some(bytes@)
                } else {
                    blob_content(blobs_view(old(self).blobs@), l)
                },
            match r {
                Ok(row) => crate::meta::upsert_post(
                    old(self).meta@,
                    old(self).meta.next_id,
                    final(self).meta@,
                    final(self).meta.next_id,
                    key@,
                    hex_of(sha256_of(bytes@)),
                    bytes@.len() as u64,
                    now,
                    row@,
                ),
                Err(e) => {
                    &&& final(self).meta@ == old(self).meta@
                    &&& final(self).meta.next_id == old(self).meta.next_id
                    &&& e == StorageError::Database
                    &&& crate::meta::first_with_path(old(self).meta@, norm_path(key@)) is None
                    &&& old(self).meta.next_id == i64::MAX
                },
            },
    {
        let p = crate::meta::normalize_path(key);
        let loc = get_file_key_sha256(p.as_slice());
        let hash = sha256_hex(bytes);
        put_blob(&mut self.blobs, loc, slice_to_vec(bytes));
        let size: u64 = bytes.len() as u64;
        self.meta.upsert(key, hash.as_slice(), size, now)
    }
}


/// Where a part lands in a sorted part list.
pub proof fn lemma_insert_part_split(ps: Seq<PartView>, p: PartView, k: int)
    requires
        parts_sorted(ps),
        0 <= k <= ps.len(),
        forall|j: int| 0 <= j < k ==> ps[j].index < p.index,
        k < ps.len() ==> ps[k].index >= p.index,
    ensures
        insert_part(ps, p) == (if k < ps.len() && ps[k].index == p.index {
            ps.take(k) + seq![p] + ps.skip(k + 1)
        } else {
            ps.take(k) + seq![p] + ps.skip(k)
        }),
    decreases k,
{
    reveal_with_fuel(insert_part, 2);
    if k == 0 {
        if ps.len() == 0 {
            assert(insert_part(ps, p) =~= ps.take(0) + seq![p] + ps.skip(0));
        } else if ps[0].index == p.index {
            assert(ps.drop_first() =~= ps.skip(1));
            assert(insert_part(ps, p) =~= ps.take(0) + seq![p] + ps.skip(1));
        } else {
            assert(insert_part(ps, p) =~= ps.take(0) + seq![p] + ps.skip(0));
        }
    } else {
        let t = ps.drop_first();
        assert(parts_sorted(t)) by {
            assert forall|i: int, j: int| 0 <= i < j < t.len() implies #[trigger] t[i].index
                < #[trigger] t[j].index by {
                assert(t[i] == ps[i + 1] && t[j] == ps[j + 1]);
            }
        }
        assert forall|j: int| 0 <= j < k - 1 implies t[j].index < p.index by {
            assert(t[j] == ps[j + 1]);
        }
        assert(k - 1 < t.len() ==> t[k - 1].index >= p.index) by {
            if k < ps.len() {
                assert(t[k - 1] == ps[k]);
            }
        }
        lemma_insert_part_split(t, p, k - 1);
        assert(ps[0].index < p.index);
        assert(insert_part(ps, p) == seq![ps[0]] + insert_part(t, p));
        if k < ps.len() && ps[k].index == p.index {
            assert(t[k - 1] == ps[k]);
            assert(t.take(k - 1) =~= ps.take(k).drop_first());
            assert(seq![ps[0]] + (t.take(k - 1) + seq![p] + t.skip(k)) =~= ps.take(k) + seq![p]
                + ps.skip(k + 1));
        } else {
            assert(seq![ps[0]] + (t.take(k - 1) + seq![p] + t.skip(k - 1)) =~= ps.take(k)
                + seq![p] + ps.skip(k));
        }
    }
}

impl Storage {
    /// Receive one numbered part into an upload's staging directory,
    /// overwriting any earlier bytes at that index, and hand back the
    /// part's own content hash for independent verification.  Without
    /// a staging directory for the fingerprint the write fails as an
    /// I/O error and nothing changes.
    #[verifier::rlimit(60)]
    pub fn upload_part(&mut self, fingerprint: &[u8], index: u64, data: &[u8]) -> (r: Result<
        Vec<u8>,
        StorageError,
    >)
        requires
            old(self).wf(),
        ensures
            final(self).wf(),
            final(self).meta@ == old(self).meta@,
            final(self).meta.next_id == old(self).meta.next_id,
            blobs_view(final(self).blobs@) == blobs_view(old(self).blobs@),
            match r {
                Ok(h) => h@ == hex_of(sha256_of(data@)) && exists|i: int|
                    {
                        &&& 0 <= i < staging_view(old(self).staging@).len()
                        &&& staging_view(old(self).staging@)[i].fingerprint == fingerprint@
                        &&& staging_view(final(self).staging@) == staging_view(
                            old(self).staging@,
                        ).update(
                            i,
                            (StagingView {
                                fingerprint: fingerprint@,
                                parts: insert_part(
                                    staging_view(old(self).staging@)[i].parts,
                                    (PartView { index: index, data: data@ }),
                                ),
                            }),
                        )
                    },
                Err(e) => {
                    &&& e == StorageError::Internal
                    &&& first_with_fp(staging_view(old(self).staging@), fingerprint@) is None
                    &&& staging_view(final(self).staging@) == staging_view(old(self).staging@)
                },
            },
    {
        let ghost oldsv = staging_view(self.staging@);
        match find_staging(&self.staging, fingerprint) {
            None => Err(StorageError::Internal),
            Some(i) => {
                let hash = sha256_hex(data);
                let mut dir = self.staging.remove(i);
                let ghost old_parts = parts_view(dir.parts@);
                proof {
                    assert(oldsv[i as int].parts == old_parts);
                    assert(parts_sorted(old_parts));
                }
                let m = dir.parts.len();
                let mut k: usize = 0;
                while k < m && dir.parts[k].index < index
                    invariant
                        k <= m,
                        m == dir.parts@.len(),
                        old_parts == parts_view(dir.parts@),
                        forall|j: int| 0 <= j < k ==> old_parts[j].index < index,
                    decreases m - k,
                {
                    proof {
                        assert(old_parts[k as int] == dir.parts@[k as int]@);
                    }
                    k = k + 1;
                }
                let ghost pv = (PartView { index: index, data: data@ });
                proof {
                    if k < m {
                        assert(old_parts[k as int] == dir.parts@[k as int]@);
                    }
                    lemma_insert_part_split(old_parts, pv, k as int);
                    lemma_insert_part_sorted(old_parts, pv);
                }
                let replace = k < m && dir.parts[k].index == index;
                if replace {
                    let _ = dir.parts.remove(k);
                }
                dir.parts.insert(k, Part { index: index, data: slice_to_vec(data) });
                proof {
                    if replace {
                        assert(parts_view(dir.parts@) =~= old_parts.take(k as int) + seq![pv]
                            + old_parts.skip(k as int + 1));
                    } else {
                        assert(parts_view(dir.parts@) =~= old_parts.take(k as int) + seq![pv]
                            + old_parts.skip(k as int));
                    }
                    assert(parts_view(dir.parts@) == insert_part(old_parts, pv));
                }
                let ghost nd = (StagingView {
                    fingerprint: fingerprint@,
                    parts: insert_part(old_parts, pv),
                });
                self.staging.insert(i, dir);
                proof {
                    let newsv = staging_view(self.staging@);
                    assert(newsv =~= oldsv.update(i as int, nd));
                    assert forall|a: int, b: int| 0 <= a < b < newsv.len() implies
                        #[trigger] newsv[a].fingerprint != #[trigger] newsv[b].fingerprint by {
                        if a != i as int && b != i as int {
                            assert(newsv[a] == oldsv[a] && newsv[b] == oldsv[b]);
                        } else if a == i as int {
                            assert(newsv[b] == oldsv[b]);
                            assert(oldsv[a].fingerprint != oldsv[b].fingerprint);
                        } else {
                            assert(newsv[a] == oldsv[a]);
                            assert(oldsv[a].fingerprint != oldsv[b].fingerprint);
                        }
                    }
                    assert forall|j: int| 0 <= j < newsv.len() implies parts_sorted(
                        (#[trigger] newsv[j]).parts,
                    ) by {
                        if j != i as int {
                            assert(newsv[j] == oldsv[j]);
                        }
                    }
                }
                Ok(hash)
            },
        }
    }

    /// Append bytes to an object's blob and add the written length to
    /// its stored size (the recorded hash is left as it was: this
    /// append path does not re-measure or re-hash the file, a known
    /// correctness gap under retried calls).
    pub fn append(&mut self, id: i64, bytes: &[u8], now: i64) -> (r: Result<
        ObjectRow,
        StorageError,
    >)
        requires
            old(self).wf(),
        ensures
            final(self).wf(),
            staging_view(final(self).staging@) == staging_view(old(self).staging@),
            final(self).meta.next_id == old(self).meta.next_id,
            match r {
                Ok(row) => exists|i: int|
                    {
                        &&& 0 <= i < old(self).meta@.len()
                        &&& old(self).meta@[i].id == id
                        &&& blob_content(
                            blobs_view(old(self).blobs@),
                            location_of(old(self).meta@[i].path),
                        ) is Some
                        &&& old(self).meta@[i].size + bytes@.len() <= u64::MAX
                        &&& row@ == (crate::meta::RowView {
                            id: old(self).meta@[i].id,
                            path: old(self).meta@[i].path,
                            kind: old(self).meta@[i].kind,
                            size: (old(self).meta@[i].size + bytes@.len()) as u64,
                            hash: old(self).meta@[i].hash,
                            created_at: old(self).meta@[i].created_at,
                            updated_at: now,
                        })
                        &&& final(self).meta@ == old(self).meta@.update(i, row@)
                        &&& forall|l: Seq<u8>|
                            #[trigger] blob_content(blobs_view(final(self).blobs@), l) == if l
                                == location_of(old(self).meta@[i].path) {
                                Some(
                                    blob_content(
                                        blobs_view(old(self).blobs@),
                                        location_of(old(self).meta@[i].path),
                                    )->Some_0 + bytes@,
                                )
                            } else {
                                blob_content(blobs_view(old(self).blobs@), l)
                            }
                    },
                Err(e) => {
                    &&& final(self).meta@ == old(self).meta@
                    &&& blobs_view(final(self).blobs@) == blobs_view(old(self).blobs@)
                    &&& (e == StorageError::NotFound || e == StorageError::Internal)
                    &&& (e == StorageError::NotFound <==> crate::meta::first_with_id(
                        old(self).meta@,
                        id,
                    ) is None)
                    &&& (e == StorageError::Internal <==> (crate::meta::first_with_id(
                        old(self).meta@,
                        id,
                    ) is Some && (blob_content(
                        blobs_view(old(self).blobs@),
                        location_of(
                            (crate::meta::first_with_id(old(self).meta@, id)->Some_0).path,
                        ),
                    ) is None || (crate::meta::first_with_id(old(self).meta@, id)->Some_0).size
                        + bytes@.len() > u64::MAX)))
                },
            },
    {
        let row = match self.meta.get_by_id(id) {
            Some(row) => row,
            None => {
                return Err(StorageError::NotFound);
            },
        };
        proof {
            crate::meta::lemma_first_with_id_some(self.meta@, id);
        }
        let ghost i0 = choose|i: int|
            0 <= i < self.meta@.len() && self.meta@[i] == crate::meta::first_with_id(
                self.meta@,
                id,
            )->Some_0 && self.meta@[i].id == id;
        // the stored path is already normalized, so it is its own key
        proof {
            assert(crate::meta::is_normalized(row@.path));
        }
        let loc = get_file_key_sha256(row.path.as_slice());
        proof {
            assert(loc@ == location_of(row@.path));
        }
        let bi = match find_blob(&self.blobs, loc.as_slice()) {
            Some(bi) => bi,
            None => {
                return Err(StorageError::Internal);
            },
        };
        if bytes.len() as u64 > u64::MAX - row.size {
            return Err(StorageError::Internal);
        }
        let mut content = slice_to_vec(self.blobs[bi].content.as_slice());
        content.extend_from_slice(bytes);
        put_blob(&mut self.blobs, loc, content);
        let new_size: u64 = row.size + bytes.len() as u64;
        match self.meta.update_size(id, new_size, now) {
            Some(updated) => {
                proof {
                    assert(self.meta@[i0].id == id);
                }
                Ok(updated)
            },
            None => {
                proof {
                    assert(false);
                }
                Err(StorageError::Internal)
            },
        }
    }

    /// Remove an object: its metadata row first, then its blob.
    pub fn delete_object(&mut self, id: i64) -> (r: Option<ObjectRow>)
        requires
            old(self).wf(),
        ensures
            final(self).wf(),
            staging_view(final(self).staging@) == staging_view(old(self).staging@),
            final(self).meta.next_id == old(self).meta.next_id,
            match r {
                Some(row) => exists|i: int|
                    {
                        &&& 0 <= i < old(self).meta@.len()
                        &&& old(self).meta@[i].id == id
                        &&& row@ == old(self).meta@[i]
                        &&& final(self).meta@ == old(self).meta@.remove(i)
                        &&& forall|l: Seq<u8>|
                            #[trigger] blob_content(blobs_view(final(self).blobs@), l) == if l
                                == location_of(row@.path) {
                                None::<Seq<u8>>
                            } else {
                                blob_content(blobs_view(old(self).blobs@), l)
                            }
                    },
                None => {
                    &&& final(self).meta@ == old(self).meta@
                    &&& blobs_view(final(self).blobs@) == blobs_view(old(self).blobs@)
                    &&& crate::meta::first_with_id(old(self).meta@, id) is None
                },
            },
    {
        match self.meta.delete(id) {
            None => None,
            Some(row) => {
                proof {
                    assert(crate::meta::is_normalized(row@.path));
                }
                let loc = get_file_key_sha256(row.path.as_slice());
                proof {
                    assert(loc@ == location_of(row@.path));
                }
                let _ = remove_blob(&mut self.blobs, loc.as_slice());
                Some(row)
            },
        }
    }

    /// Move an object to a new key: the row moves (kind merged as a
    /// `COALESCE` would) and its blob is re-addressed to the new key's
    /// location.
    pub fn move_object(&mut self, id: i64, path: &[u8], kind: Option<Vec<u8>>, now: i64) -> (r:
        Result<Option<ObjectRow>, StorageError>)
        requires
            old(self).wf(),
        ensures
            final(self).wf(),
            staging_view(final(self).staging@) == staging_view(old(self).staging@),
            final(self).meta.next_id == old(self).meta.next_id,
            match r {
                Ok(None) => {
                    &&& final(self).meta@ == old(self).meta@
                    &&& blobs_view(final(self).blobs@) == blobs_view(old(self).blobs@)
                    &&& crate::meta::first_with_id(old(self).meta@, id) is None
                },
                Ok(Some(row)) => exists|i: int|
                    {
                        &&& 0 <= i < old(self).meta@.len()
                        &&& old(self).meta@[i].id == id
                        &&& row@ == (crate::meta::RowView {
                            id: old(self).meta@[i].id,
                            path: norm_path(path@),
                            kind: match crate::meta::opt_bytes_view(kind) {
                                Some(k) => Some(k),
                                None => old(self).meta@[i].kind,
                            },
                            size: old(self).meta@[i].size,
                            hash: old(self).meta@[i].hash,
                            created_at: old(self).meta@[i].created_at,
                            updated_at: now,
                        })
                        &&& final(self).meta@ == old(self).meta@.update(i, row@)
                        &&& (match blob_content(
                            blobs_view(old(self).blobs@),
                            location_of(old(self).meta@[i].path),
                        ) {
                            Some(c) => forall|l: Seq<u8>|
                                #[trigger] blob_content(blobs_view(final(self).blobs@), l) == if l
                                    == location_of(norm_path(path@)) {
                                    Some(c)
                                } else if l == location_of(old(self).meta@[i].path) {
                                    None::<Seq<u8>>
                                } else {
                                    blob_content(blobs_view(old(self).blobs@), l)
                                },
                            None => blobs_view(final(self).blobs@) == blobs_view(
                                old(self).blobs@,
                            ),
                        })
                    },
                Err(e) => {
                    &&& final(self).meta@ == old(self).meta@
                    &&& blobs_view(final(self).blobs@) == blobs_view(old(self).blobs@)
                    &&& e == StorageError::Database
                    &&& crate::meta::first_with_id(old(self).meta@, id) is Some
                    &&& exists|j: int|
                        0 <= j < old(self).meta@.len() && #[trigger] old(self).meta@[j].path
                            == norm_path(path@) && old(self).meta@[j].id != id
                },
            },
    {
        let old_row = match self.meta.get_by_id(id) {
            Some(row) => row,
            None => {
                return Ok(None);
            },
        };
        proof {
            crate::meta::lemma_first_with_id_some(self.meta@, id);
            assert(crate::meta::is_normalized(old_row@.path));
        }
        match self.meta.update_path(id, path, kind, now) {
            Err(e) => Err(e),
            Ok(None) => {
                proof {
                    assert(false);
                }
                Ok(None)
            },
            Ok(Some(new_row)) => {
                let old_loc = get_file_key_sha256(old_row.path.as_slice());
                proof {
                    assert(old_loc@ == location_of(old_row@.path));
                }
                let p = crate::meta::normalize_path(path);
                let new_loc = get_file_key_sha256(p.as_slice());
                proof {
                    crate::meta::lemma_norm_normalized(path@);
                    assert(new_loc@ == location_of(norm_path(path@)));
                }
                match remove_blob(&mut self.blobs, old_loc.as_slice()) {
                    Some(content) => {
                        put_blob(&mut self.blobs, new_loc, content);
                    },
                    None => {},
                }
                Ok(Some(new_row))
            },
        }
    }

    /// Overwrite an existing object's bytes: `NotFound` when the key
    /// has no row, otherwise the blob is replaced and the row updated
    /// with the new size and content hash.
    pub fn edit(&mut self, key: &[u8], bytes: &[u8], now: i64) -> (r: Result<
        ObjectRow,
        StorageError,
    >)
        requires
            old(self).wf(),
        ensures
            final(self).wf(),
            staging_view(final(self).staging@) == staging_view(old(self).staging@),
            match r {
                Ok(row) => {
                    &&& crate::meta::first_with_path(old(self).meta@, norm_path(key@)) is Some
                    &&& crate::meta::upsert_post(
                        old(self).meta@,
                        old(self).meta.next_id,
                        final(self).meta@,
                        final(self).meta.next_id,
                        key@,
                        hex_of(sha256_of(bytes@)),
                        bytes@.len() as u64,
                        now,
                        row@,
                    )
                    &&& forall|l: Seq<u8>|
                        #[trigger] blob_content(blobs_view(final(self).blobs@), l) == if l
                            == location_of(key@) {
                            Some(bytes@)
                        } else {
                            blob_content(blobs_view(old(self).blobs@), l)
                        }
                },
                Err(e) => {
                    &&& final(self).meta@ == old(self).meta@
                    &&& final(self).meta.next_id == old(self).meta.next_id
                    &&& blobs_view(final(self).blobs@) == blobs_view(old(self).blobs@)
                    &&& e == StorageError::NotFound
                    &&& crate::meta::first_with_path(old(self).meta@, norm_path(key@)) is None
                },
            },
    {
        match self.meta.get_by_path(key) {
            None => Err(StorageError::NotFound),
            Some(_row) => {
                match self.store(key, bytes, now) {
                    Ok(row) => Ok(row),
                    Err(_e) => {
                        proof {
                            assert(false);
                        }
                        Err(StorageError::NotFound)
                    },
                }
            },
        }
    }

    /// Assemble an upload: list the staged parts, stream them in index
    /// order into the destination blob while hashing and counting,
    /// drop the staging directory, then create-or-update the metadata
    /// row.  Finishing an upload whose staging directory is gone fails
    /// cleanly as an I/O error with nothing changed; a metadata
    /// failure after the blob write leaves blob and metadata apart,
    /// exactly as stated.
    pub fn finish(&mut self, key: &[u8], fingerprint: &[u8], now: i64) -> (r: Result<
        ObjectRow,
        StorageError,
    >)
        requires
            old(self).wf(),
        ensures
            final(self).wf(),
            match r {
                Ok(row) => exists|i: int|
                    {
                        &&& 0 <= i < staging_view(old(self).staging@).len()
                        &&& staging_view(old(self).staging@)[i].fingerprint == fingerprint@
                        &&& staging_view(final(self).staging@) == staging_view(
                            old(self).staging@,
                        ).remove(i)
                        &&& forall|l: Seq<u8>|
                            #[trigger] blob_content(blobs_view(final(self).blobs@), l) == if l
                                == location_of(key@) {
                                Some(concat_parts(staging_view(old(self).staging@)[i].parts))
                            } else {
                                blob_content(blobs_view(old(self).blobs@), l)
                            }
                        &&& crate::meta::upsert_post(
                            old(self).meta@,
                            old(self).meta.next_id,
                            final(self).meta@,
                            final(self).meta.next_id,
                            key@,
                            hex_of(
                                sha256_of(concat_parts(staging_view(old(self).staging@)[i].parts)),
                            ),
                            concat_parts(staging_view(old(self).staging@)[i].parts).len() as u64,
                            now,
                            row@,
                        )
                    },
                Err(e) => if e == StorageError::Internal {
                    &&& first_with_fp(staging_view(old(self).staging@), fingerprint@) is None
                    &&& staging_view(final(self).staging@) == staging_view(old(self).staging@)
                    &&& blobs_view(final(self).blobs@) == blobs_view(old(self).blobs@)
                    &&& final(self).meta@ == old(self).meta@
                    &&& final(self).meta.next_id == old(self).meta.next_id
                } else {
                    &&& e == StorageError::Database
                    &&& final(self).meta@ == old(self).meta@
                    &&& final(self).meta.next_id == old(self).meta.next_id
                    &&& crate::meta::first_with_path(old(self).meta@, norm_path(key@)) is None
                    &&& old(self).meta.next_id == i64::MAX
                    &&& exists|i: int|
                        {
                            &&& 0 <= i < staging_view(old(self).staging@).len()
                            &&& staging_view(old(self).staging@)[i].fingerprint == fingerprint@
                            &&& staging_view(final(self).staging@) == staging_view(
                                old(self).staging@,
                            ).remove(i)
                            &&& forall|l: Seq<u8>|
                                #[trigger] blob_content(blobs_view(final(self).blobs@), l) == if l
                                    == location_of(key@) {
                                    Some(
                                        concat_parts(staging_view(old(self).staging@)[i].parts),
                                    )
                                } else {
                                    blob_content(blobs_view(old(self).blobs@), l)
                                }
                        }
                },
            },
    {
        let ghost oldsv = staging_view(self.staging@);
        match find_staging(&self.staging, fingerprint) {
            None => Err(StorageError::Internal),
            Some(i) => {
                let dir = self.staging.remove(i);
                let ghost ps = parts_view(dir.parts@);
                proof {
                    assert(oldsv[i as int].parts == ps);
                    let newsv = staging_view(self.staging@);
                    assert(newsv =~= oldsv.remove(i as int));
                    assert forall|a: int, b: int| 0 <= a < b < newsv.len() implies
                        #[trigger] newsv[a].fingerprint != #[trigger] newsv[b].fingerprint by {
                        let aa = if a < i as int { a } else { a + 1 };
                        let bb = if b < i as int { b } else { b + 1 };
                        assert(newsv[a] == oldsv[aa] && newsv[b] == oldsv[bb]);
                    }
                    assert forall|j: int| 0 <= j < newsv.len() implies parts_sorted(
                        (#[trigger] newsv[j]).parts,
                    ) by {
                        let jj = if j < i as int { j } else { j + 1 };
                        assert(newsv[j] == oldsv[jj]);
                    }
                }
                // stream the parts, in index order, into one buffer
                let mut content: Vec<u8> = Vec::new();
                let np = dir.parts.len();
                let mut j: usize = 0;
                while j < np
                    invariant
                        j <= np,
                        np == dir.parts@.len(),
                        ps == parts_view(dir.parts@),
                        content@ == concat_parts(ps.take(j as int)),
                    decreases np - j,
                {
                    proof {
                        assert(ps[j as int] == dir.parts@[j as int]@);
                        assert(ps.take(j as int + 1).drop_last() =~= ps.take(j as int));
                        assert(ps.take(j as int + 1).last() == ps[j as int]);
                    }
                    content.extend_from_slice(dir.parts[j].data.as_slice());
                    j = j + 1;
                }
                proof {
                    assert(ps.take(np as int) =~= ps);
                }
                let p = crate::meta::normalize_path(key);
                let loc = get_file_key_sha256(p.as_slice());
                let hash = sha256_hex(content.as_slice());
                let size: u64 = content.len() as u64;
                put_blob(&mut self.blobs, loc, content);
                self.meta.upsert(key, hash.as_slice(), size, now)
            },
        }
    }
}


/// Round trip: after a store of `bytes` at `key`, the key's location
/// holds exactly `bytes`, so a read returns them; the row written
/// alongside carries their exact length and content hash.
pub proof fn lemma_store_then_read(
    pre: Seq<BlobView>,
    post: Seq<BlobView>,
    key: Seq<u8>,
    bytes: Seq<u8>,
)
    requires
        forall|l: Seq<u8>|
            #[trigger] blob_content(post, l) == if l == location_of(key) {
                Some(bytes)
            } else {
                blob_content(pre, l)
            },
    ensures
        blob_content(post, location_of(key)) == Some(bytes),
{
}

} // verus!
