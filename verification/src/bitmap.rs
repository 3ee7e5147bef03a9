//! The filter bitmap of candidate internal ids, kept in a compressed
//! roaring bitmap, and the assembly of search hits from candidates: the
//! vector-query path intersects its candidates with the filter bitmap
//! before documents are fetched from the key-value rows.

use vstd::prelude::*;

use crate::codec::{enc_doc, encode_document};
use crate::search::{clone_string, Hit};
use crate::simba::Simba;

verus! {

#[verifier::external_type_specification]
#[verifier::external_body]
pub struct ExRoaringBitmap(roaring::RoaringBitmap);

/// The set of internal ids a bitmap holds.
pub uninterp spec fn bitmap_iids(b: roaring::RoaringBitmap) -> Set<u32>;

/// Relies on roaring::RoaringBitmap::new: the fresh bitmap is empty.
#[verifier::external_body]
pub(crate) fn bitmap_new() -> (r: roaring::RoaringBitmap)
    ensures
        bitmap_iids(r) == Set::<u32>::empty(),
        bitmap_iids(r).finite(),
{
    roaring::RoaringBitmap::new()
}

/// Relies on roaring::RoaringBitmap::insert: adds the value, and returns
/// whether it was absent.
#[verifier::external_body]
pub(crate) fn bitmap_insert(b: &mut roaring::RoaringBitmap, value: u32) -> (r: bool)
    ensures
        bitmap_iids(*final(b)) == bitmap_iids(*old(b)).insert(value),
        r == !bitmap_iids(*old(b)).contains(value),
{
    b.insert(value)
}

/// Relies on roaring::RoaringBitmap::len: the number of stored values.
#[verifier::external_body]
pub(crate) fn bitmap_len(b: &roaring::RoaringBitmap) -> (r: u64)
    requires
        bitmap_iids(*b).finite(),
    ensures
        r == bitmap_iids(*b).len(),
{
    b.len()
}

/// Relies on roaring's `&` (BitAnd): the set intersection of two bitmaps.
/// Like every materialized bitmap, the result holds finitely many values.
#[verifier::external_body]
pub(crate) fn bitmap_and(a: &roaring::RoaringBitmap, b: &roaring::RoaringBitmap) -> (r:
    roaring::RoaringBitmap)
    ensures
        bitmap_iids(r) == bitmap_iids(*a).intersect(bitmap_iids(*b)),
        bitmap_iids(r).finite(),
{
    a & b
}

/// Relies on roaring::RoaringBitmap::iter: every stored value exactly
/// once, in ascending order.
#[verifier::external_body]
pub(crate) fn bitmap_to_vec(b: &roaring::RoaringBitmap) -> (r: Vec<u32>)
    ensures
        forall|i: int| 0 <= i < r@.len() ==> bitmap_iids(*b).contains(#[trigger] r@[i]),
        forall|v: u32| #[trigger] bitmap_iids(*b).contains(v) ==> exists|i: int|
            0 <= i < r@.len() && r@[i] == v,
        forall|i: int, j: int| 0 <= i < j < r@.len() ==> r@[i] < r@[j],
{
    b.iter().collect()
}

/// Collects matched internal ids into a bitmap, as the index's bitmap
/// collector does: the contents are exactly the scanned ids.
pub fn bitmap_from_iids(v: &Vec<u32>) -> (r: roaring::RoaringBitmap)
    ensures
        forall|x: u32| #[trigger] bitmap_iids(r).contains(x) <==> v@.contains(x),
        bitmap_iids(r).finite(),
{
    let mut bm = bitmap_new();
    let mut i: usize = 0;
    while i < v.len()
        invariant
            i <= v@.len(),
            bitmap_iids(bm).finite(),
            forall|x: u32| #[trigger] bitmap_iids(bm).contains(x) <==> exists|j: int|
                0 <= j < i && v@[j] == x,
        decreases v@.len() - i,
    {
        let ghost pre = bitmap_iids(bm);
        bitmap_insert(&mut bm, v[i]);
        proof {
            assert forall|x: u32| #[trigger] bitmap_iids(bm).contains(x) implies exists|j: int|
                0 <= j < i + 1 && v@[j] == x by {
                if x == v@[i as int] {
                    assert(v@[i as int] == x);
                } else {
                    assert(pre.contains(x));
                }
            }
            assert forall|x: u32| (exists|j: int| 0 <= j < i + 1 && v@[j] == x) implies #[trigger]
                bitmap_iids(bm).contains(x) by {
                let j = choose|j: int| 0 <= j < i + 1 && v@[j] == x;
                if j < i {
                    assert(pre.contains(x));
                }
            }
        }
        i = i + 1;
    }
    proof {
        assert forall|x: u32| #[trigger] bitmap_iids(bm).contains(x) <==> v@.contains(x) by {
            if bitmap_iids(bm).contains(x) {
                let j = choose|j: int| 0 <= j < v@.len() && v@[j] == x;
                assert(v@.contains(x));
            }
            if v@.contains(x) {
                let j = choose|j: int| 0 <= j < v@.len() && v@[j] == x;
                assert(exists|k: int| 0 <= k < v@.len() && v@[k] == x);
            }
        }
    }
    bm
}

/// Combines the inverted-index filter bitmap with the vector-query
/// candidates: both present intersect; one present stands alone; none
/// leaves the query unfiltered.
pub fn combine_candidates(
    filter: Option<roaring::RoaringBitmap>,
    ann: Option<roaring::RoaringBitmap>,
) -> (r: Option<roaring::RoaringBitmap>)
    ensures
        match (filter, ann) {
            (Some(f), Some(a)) => r matches Some(c) && bitmap_iids(c) == bitmap_iids(f).intersect(
                bitmap_iids(a),
            ) && bitmap_iids(c).finite(),
            (Some(f), None) => r matches Some(c) && c == f,
            (None, Some(a)) => r matches Some(c) && c == a,
            (None, None) => r is None,
        },
{
    match (filter, ann) {
        (Some(f), Some(a)) => Some(bitmap_and(&f, &a)),
        (Some(f), None) => Some(f),
        (None, Some(a)) => Some(a),
        (None, None) => None,
    }
}

/// The filter path's total: an unfiltered (`*`) query reports the
/// index's own document count, a filtered one the bitmap's cardinality.
pub fn filter_total(filter: &Option<roaring::RoaringBitmap>, index_count: u64) -> (r: u64)
    requires
        filter matches Some(b) ==> bitmap_iids(*b).finite(),
    ensures
        match filter {
            Some(b) => r == bitmap_iids(*b).len(),
            None => r == index_count,
        },
{
    match filter {
        Some(b) => bitmap_len(b),
        None => index_count,
    }
}

/// The bitmap's candidates as scored pairs for hit assembly: ascending by
/// internal id, each member once, all with the neutral score (the
/// unscored filter path).
pub fn zero_scored(b: &roaring::RoaringBitmap) -> (r: Vec<(u32, u32)>)
    ensures
        forall|k: int|
            0 <= k < r@.len() ==> bitmap_iids(*b).contains((#[trigger] r@[k]).0) && r@[k].1 == 0,
        forall|v: u32| #[trigger] bitmap_iids(*b).contains(v) ==> exists|k: int|
            0 <= k < r@.len() && r@[k].0 == v,
        forall|k: int, l: int| 0 <= k < l < r@.len() ==> r@[k].0 < r@[l].0,
{
    let iids = bitmap_to_vec(b);
    let mut out: Vec<(u32, u32)> = Vec::new();
    let mut k: usize = 0;
    while k < iids.len()
        invariant
            k <= iids@.len(),
            out@.len() == k,
            forall|i: int| 0 <= i < iids@.len() ==> bitmap_iids(*b).contains(#[trigger] iids@[i]),
            forall|v: u32| #[trigger] bitmap_iids(*b).contains(v) ==> exists|i: int|
                0 <= i < iids@.len() && iids@[i] == v,
            forall|i: int, j: int| 0 <= i < j < iids@.len() ==> iids@[i] < iids@[j],
            forall|i: int| 0 <= i < k ==> (#[trigger] out@[i]).0 == iids@[i] && out@[i].1 == 0,
        decreases iids@.len() - k,
    {
        out.push((iids[k], 0));
        k = k + 1;
    }
    proof {
        assert forall|v: u32| #[trigger] bitmap_iids(*b).contains(v) implies exists|i: int|
            0 <= i < out@.len() && out@[i].0 == v by {
            let i = choose|i: int| 0 <= i < iids@.len() && iids@[i] == v;
            assert(out@[i].0 == v);
        }
    }
    out
}

/// One well-formed hit: it carries a scored candidate whose internal id
/// still has a live row, that row's encoded document, and the partition's
/// collection name.
pub open spec fn hit_ok(
    docs: Seq<(u32, crate::doc::DocView)>,
    results: Seq<(u32, u32)>,
    cname: Seq<char>,
    h: Hit,
) -> bool {
    exists|i: int, n: int|
        {
            &&& 0 <= i < docs.len()
            &&& 0 <= n < results.len()
            &&& (#[trigger] docs[i]).0 == h.iid
            &&& (#[trigger] results[n]).0 == h.iid
            &&& results[n].1 == h.score_bits
            &&& h@.doc == enc_doc(docs[i].1)
            &&& h.collection_name@ == cname
        }
}

/// Builds the hits of one partition from scored candidates: each
/// candidate whose internal id still has a live row yields one hit
/// carrying the collection name, the id, the score bits and the encoded
/// document; candidates whose row is gone (the index lagging behind a
/// delete) are skipped.
pub fn build_hits(s: &Simba, results: &Vec<(u32, u32)>, collection_name: &String) -> (r: Vec<Hit>)
    requires
        s.inv(),
    ensures
        forall|k: int|
            0 <= k < r@.len() ==> hit_ok(s@.docs, results@, collection_name@, #[trigger] r@[k]),
        forall|m: int|
            0 <= m < results@.len() && crate::simba::find_iid(s@.docs, (#[trigger] results@[m]).0)
                >= 0 ==> exists|k: int| 0 <= k < r@.len() && r@[k].iid == results@[m].0,
{
    let mut out: Vec<Hit> = Vec::new();
    let mut m: usize = 0;
    while m < results.len()
        invariant
            m <= results@.len(),
            s.inv(),
            forall|k: int|
                0 <= k < out@.len() ==> hit_ok(
                    s@.docs,
                    results@,
                    collection_name@,
                    #[trigger] out@[k],
                ),
            forall|n: int|
                0 <= n < m && crate::simba::find_iid(s@.docs, (#[trigger] results@[n]).0) >= 0
                    ==> exists|k: int| 0 <= k < out@.len() && out@[k].iid == results@[n].0,
        decreases results@.len() - m,
    {
        let (iid, score_bits) = (results[m].0, results[m].1);
        match s.get_doc_by_iid(iid) {
            Some(d) => {
                let doc = encode_document(&d);
                let ghost pre = out@;
                out.push(
                    Hit { collection_name: clone_string(collection_name), iid, score_bits, doc },
                );
                proof {
                    let k = out@.len() - 1;
                    let i = choose|i: int|
                        0 <= i < s@.docs.len() && (#[trigger] s@.docs[i]).0 == iid && s@.docs[i].1
                            == d@;
                    assert(out@[k].iid == results@[m as int].0);
                    let h = out@[k];
                    assert(h.iid == iid && h.score_bits == score_bits);
                    assert((#[trigger] s@.docs[i]).0 == h.iid && s@.docs[i].1 == d@);
                    assert(h@.doc == enc_doc(s@.docs[i].1));
                    assert(h.collection_name@ == collection_name@);
                    assert(0 <= i < s@.docs.len() && 0 <= m < results@.len() && (
                    #[trigger] results@[m as int]).0 == h.iid && results@[m as int].1
                        == h.score_bits);
                    assert forall|k2: int| 0 <= k2 < out@.len() implies hit_ok(
                        s@.docs,
                        results@,
                        collection_name@,
                        #[trigger] out@[k2],
                    ) by {
                        if k2 < k {
                            assert(out@[k2] == pre[k2]);
                        } else {
                            assert(0 <= i < s@.docs.len() && 0 <= m < results@.len() && (
                            #[trigger] s@.docs[i]).0 == h.iid && (
                            #[trigger] results@[m as int]).0 == h.iid && results@[m as int].1
                                == h.score_bits && h@.doc == enc_doc(s@.docs[i].1)
                                && h.collection_name@ == collection_name@);
                            assert(hit_ok(s@.docs, results@, collection_name@, h));
                        }
                    }
                    assert forall|n: int|
                        0 <= n < m + 1 && crate::simba::find_iid(
                            s@.docs,
                            (#[trigger] results@[n]).0,
                        ) >= 0 implies exists|k2: int|
                        0 <= k2 < out@.len() && out@[k2].iid == results@[n].0 by {
                        if n < m {
                            let k2 = choose|k2: int|
                                0 <= k2 < pre.len() && pre[k2].iid == results@[n].0;
                            assert(out@[k2].iid == results@[n].0);
                        } else {
                            assert(out@[k].iid == results@[n].0);
                        }
                    }
                }
            },
            None => {
                proof {
                    crate::simba::lemma_find_iid(s@.docs, iid);
                }
            },
        }
        m = m + 1;
    }
    out
}

} // verus!
