//! Scatter/gather search results: per-partition responses, their merge,
//! and the deterministic ordering of hits — stable by score descending,
//! ties broken by collection name and internal id.
//!
//! Scores arrive as the raw bit pattern of a non-negative IEEE-754 single,
//! whose unsigned order equals the numeric order; the library never touches
//! the float itself.

use vstd::prelude::*;

use crate::codes::Code;
use vstd::utf8::encode_utf8;

verus! {

/// One search hit: the collection it came from, the matching document's
/// internal id, the score bits, and the encoded document.
pub struct Hit {
    pub collection_name: String,
    pub iid: u32,
    pub score_bits: u32,
    pub doc: Vec<u8>,
}

/// Mathematical image of a [`Hit`]; the name is carried as its UTF-8
/// bytes, which order exactly as the name does.
pub struct HitView {
    pub name_bytes: Seq<u8>,
    pub iid: u32,
    pub score_bits: u32,
    pub doc: Seq<u8>,
}

impl View for Hit {
    type V = HitView;

    open spec fn view(&self) -> HitView {
        HitView {
            name_bytes: encode_utf8(self.collection_name@),
            iid: self.iid,
            score_bits: self.score_bits,
            doc: self.doc@,
        }
    }
}

/// Lexicographic order on byte strings.
pub open spec fn bytes_lt(a: Seq<u8>, b: Seq<u8>) -> bool
    decreases a.len(),
{
    if b.len() == 0 {
        false
    } else if a.len() == 0 {
        true
    } else if a[0] < b[0] {
        true
    } else if a[0] > b[0] {
        false
    } else {
        bytes_lt(a.drop_first(), b.drop_first())
    }
}

pub proof fn lemma_bytes_lt_total(a: Seq<u8>, b: Seq<u8>)
    ensures
        bytes_lt(a, b) || bytes_lt(b, a) || a == b,
    decreases a.len(),
{
    if a.len() == 0 && b.len() == 0 {
        assert(a =~= b);
    } else if a.len() > 0 && b.len() > 0 && a[0] == b[0] {
        lemma_bytes_lt_total(a.drop_first(), b.drop_first());
        if a.drop_first() == b.drop_first() {
            assert forall|i: int| 0 <= i < a.len() implies a[i] == b[i] by {
                if i > 0 {
                    assert(a[i] == a.drop_first()[i - 1]);
                    assert(b[i] == b.drop_first()[i - 1]);
                }
            }
            assert(a =~= b);
        }
    }
}

pub proof fn lemma_bytes_lt_irrefl(a: Seq<u8>)
    ensures
        !bytes_lt(a, a),
    decreases a.len(),
{
    if a.len() > 0 {
        lemma_bytes_lt_irrefl(a.drop_first());
    }
}

pub proof fn lemma_bytes_lt_trans(a: Seq<u8>, b: Seq<u8>, c: Seq<u8>)
    requires
        bytes_lt(a, b),
        bytes_lt(b, c),
    ensures
        bytes_lt(a, c),
    decreases a.len(),
{
    if a.len() > 0 {
        if a[0] == b[0] && b[0] == c[0] {
            lemma_bytes_lt_trans(a.drop_first(), b.drop_first(), c.drop_first());
        }
    }
}

/// Does `a` come strictly before `b` in the merged result order?
pub open spec fn hit_strict_before(a: HitView, b: HitView) -> bool {
    if a.score_bits != b.score_bits {
        a.score_bits > b.score_bits
    } else if a.name_bytes != b.name_bytes {
        bytes_lt(a.name_bytes, b.name_bytes)
    } else {
        a.iid < b.iid
    }
}

pub proof fn lemma_hit_strict_before_trans(a: HitView, b: HitView, c: HitView)
    requires
        hit_strict_before(a, b),
        hit_strict_before(b, c),
    ensures
        hit_strict_before(a, c),
{
    if a.score_bits == b.score_bits && b.score_bits == c.score_bits {
        if a.name_bytes != b.name_bytes && b.name_bytes != c.name_bytes {
            if a.name_bytes == c.name_bytes {
                lemma_bytes_lt_trans(a.name_bytes, b.name_bytes, a.name_bytes);
                lemma_bytes_lt_irrefl(a.name_bytes);
            } else {
                lemma_bytes_lt_trans(a.name_bytes, b.name_bytes, c.name_bytes);
            }
        }
    }
}

/// No later hit belongs strictly before an earlier one.
pub open spec fn sorted_hits(s: Seq<Hit>) -> bool {
    forall|i: int, j: int|
        0 <= i < j < s.len() ==> !hit_strict_before((#[trigger] s[j])@, (#[trigger] s[i])@)
}

/// The canonical insertion point: just before the first element that the
/// new hit strictly precedes — so equal hits keep their arrival order and
/// the sort is stable.
pub open spec fn insert_pos(out: Seq<Hit>, x: Hit) -> int
    decreases out.len(),
{
    if out.len() == 0 {
        0
    } else if hit_strict_before(x@, out[0]@) {
        0
    } else {
        1 + insert_pos(out.drop_first(), x)
    }
}

pub proof fn lemma_insert_pos(out: Seq<Hit>, x: Hit)
    ensures
        0 <= insert_pos(out, x) <= out.len(),
        forall|i: int| 0 <= i < insert_pos(out, x) ==> !hit_strict_before(x@, (#[trigger] out[i])@),
        insert_pos(out, x) < out.len() ==> hit_strict_before(x@, out[insert_pos(out, x)]@),
    decreases out.len(),
{
    if out.len() > 0 && !hit_strict_before(x@, out[0]@) {
        let rest = out.drop_first();
        lemma_insert_pos(rest, x);
        assert forall|i: int| 0 <= i < insert_pos(out, x) implies !hit_strict_before(
            x@,
            (#[trigger] out[i])@,
        ) by {
            if i > 0 {
                assert(out[i] == rest[i - 1]);
            }
        }
        if insert_pos(out, x) < out.len() {
            assert(out[insert_pos(out, x)] == rest[insert_pos(rest, x)]);
        }
    }
}

/// Sorting as a fold of stable insertions: a deterministic function of
/// the input sequence.
pub open spec fn sort_spec(s: Seq<Hit>) -> Seq<Hit>
    decreases s.len(),
{
    if s.len() == 0 {
        Seq::empty()
    } else {
        let prev = sort_spec(s.drop_last());
        prev.insert(insert_pos(prev, s.last()), s.last())
    }
}

/// A stable insertion into a sorted sequence stays sorted.
pub proof fn lemma_insert_sorted(out: Seq<Hit>, x: Hit)
    requires
        sorted_hits(out),
    ensures
        sorted_hits(out.insert(insert_pos(out, x), x)),
{
    let p = insert_pos(out, x);
    lemma_insert_pos(out, x);
    let r = out.insert(p, x);
    assert forall|i: int, j: int| 0 <= i < j < r.len() implies !hit_strict_before(
        (#[trigger] r[j])@,
        (#[trigger] r[i])@,
    ) by {
        if i == p && j > p {
            // x sits at p; a later element strictly before x would also be
            // strictly before out[p], breaking sortedness.
            assert(r[j] == out[j - 1]);
            if hit_strict_before(out[j - 1]@, x@) {
                if p < out.len() {
                    lemma_hit_strict_before_trans(out[j - 1]@, x@, out[p]@);
                }
            }
        } else if j == p {
            assert(r[i] == out[i]);
        } else {
            let oi = if i < p {
                i
            } else {
                i - 1
            };
            let oj = if j < p {
                j
            } else {
                j - 1
            };
            assert(r[i] == out[oi]);
            assert(r[j] == out[oj]);
        }
    }
}

/// The sort permutes its input.
pub proof fn lemma_sort_spec_multiset(s: Seq<Hit>)
    ensures
        sort_spec(s).to_multiset() == s.to_multiset(),
        sort_spec(s).len() == s.len(),
        sorted_hits(sort_spec(s)),
    decreases s.len(),
{
    broadcast use vstd::seq_lib::group_to_multiset_ensures;

    if s.len() == 0 {
        assert(sort_spec(s).to_multiset() =~= s.to_multiset());
    } else {
        let prev = sort_spec(s.drop_last());
        let x = s.last();
        let p = insert_pos(prev, x);
        lemma_sort_spec_multiset(s.drop_last());
        lemma_insert_pos(prev, x);
        lemma_insert_sorted(prev, x);
        let r = prev.insert(p, x);
        assert(r.remove(p) =~= prev);
        assert(r[p] == x);
        assert(r.remove(p).to_multiset() =~= r.to_multiset().remove(x));
        assert(r.to_multiset() =~= prev.to_multiset().insert(x));
        assert(s.drop_last().push(x) =~= s);
        assert(s.to_multiset() =~= s.drop_last().to_multiset().insert(x));
    }
}

/// Does `a` come strictly before `b`? (Executable form of the order.)
pub fn hit_cmp_strict(a: &Hit, b: &Hit) -> (r: bool)
    ensures
        r == hit_strict_before(a@, b@),
{
    if a.score_bits != b.score_bits {
        a.score_bits > b.score_bits
    } else {
        let an = a.collection_name.as_str().as_bytes();
        let bn = b.collection_name.as_str().as_bytes();
        if !crate::doc::bytes_eq(an, bn) {
            bytes_lt_exec(an, bn)
        } else {
            a.iid < b.iid
        }
    }
}

/// Executable lexicographic comparison.
fn bytes_lt_exec(a: &[u8], b: &[u8]) -> (r: bool)
    ensures
        r == bytes_lt(a@, b@),
{
    let mut i: usize = 0;
    proof {
        assert(a@.skip(0) =~= a@);
        assert(b@.skip(0) =~= b@);
    }
    while i < a.len() && i < b.len()
        invariant
            i <= a.len(),
            i <= b.len(),
            bytes_lt(a@, b@) == bytes_lt(a@.skip(i as int), b@.skip(i as int)),
            forall|j: int| 0 <= j < i ==> a@[j] == b@[j],
        decreases a.len() - i,
    {
        if a[i] < b[i] {
            proof {
                assert(bytes_lt(a@.skip(i as int), b@.skip(i as int)));
            }
            return true;
        }
        if a[i] > b[i] {
            proof {
                assert(!bytes_lt(a@.skip(i as int), b@.skip(i as int)));
            }
            return false;
        }
        proof {
            assert(a@.skip(i as int).drop_first() =~= a@.skip(i as int + 1));
            assert(b@.skip(i as int).drop_first() =~= b@.skip(i as int + 1));
            assert(a@.skip(i as int)[0] == a@[i as int]);
            assert(b@.skip(i as int)[0] == b@[i as int]);
        }
        i = i + 1;
    }
    let r = a.len() < b.len();
    proof {
        if a.len() <= b.len() {
            assert(a@.skip(i as int).len() == 0);
        } else {
            assert(b@.skip(i as int).len() == 0);
            assert(a@.skip(i as int).len() > 0);
        }
    }
    r
}

/// Sorts hits stably: score descending, ties by collection name, then by
/// internal id. The result is exactly the canonical [`sort_spec`] of the
/// input.
pub fn sort_hits(hits: Vec<Hit>) -> (r: Vec<Hit>)
    ensures
        r@ == sort_spec(hits@),
        sorted_hits(r@),
        r@.to_multiset() == hits@.to_multiset(),
        r@.len() == hits@.len(),
{
    let ghost all = hits@;
    let mut src = hits;
    let mut out: Vec<Hit> = Vec::new();
    proof {
        assert(all.subrange(0, 0) =~= Seq::<Hit>::empty());
        assert(src@ =~= all.subrange(0, all.len() as int));
    }
    while src.len() > 0
        invariant
            src@.len() <= all.len(),
            src@ == all.subrange(all.len() - src@.len(), all.len() as int),
            out@ == sort_spec(all.subrange(0, all.len() - src@.len())),
        decreases src.len(),
    {
        let ghost k = all.len() - src@.len();
        let x = src.remove(0);
        proof {
            assert(x == all[k as int]);
            assert(src@ =~= all.subrange(all.len() - src@.len(), all.len() as int));
        }
        // find the canonical insertion point in `out`
        let mut p: usize = 0;
        let mut found: bool = false;
        while !found && p < out.len()
            invariant
                p <= out.len(),
                forall|i: int| 0 <= i < p ==> !hit_strict_before(x@, (#[trigger] out@[i])@),
                found ==> p < out@.len() && hit_strict_before(x@, out@[p as int]@),
            decreases out.len() - p + (if found {
                0int
            } else {
                1int
            }),
        {
            if hit_cmp_strict(&x, &out[p]) {
                found = true;
            } else {
                p = p + 1;
            }
        }
        proof {
            lemma_insert_pos(out@, x);
            let ip = insert_pos(out@, x);
            if ip < p {
                assert(hit_strict_before(x@, out@[ip]@));
            }
            if p < ip {
                assert(!hit_strict_before(x@, out@[p as int]@));
            }
            assert(ip == p);
        }
        out.insert(p, x);
        proof {
            let pfx1 = all.subrange(0, k + 1);
            assert(pfx1.drop_last() =~= all.subrange(0, k as int));
            assert(pfx1.last() == all[k as int]);
            assert(out@ =~= sort_spec(pfx1));
        }
    }
    proof {
        assert(all.subrange(0, all.len() as int) =~= all);
        lemma_sort_spec_multiset(all);
    }
    out
}

/// Copies a string; the copy's characters equal the original's.
pub fn clone_string(s: &String) -> (r: String)
    ensures
        r@ == s@,
{
    s.clone()
}

// ------------------------------------------------------------------ merge

/// Success/error counters and concatenated diagnostic text carried beside
/// a partial search response.
pub struct SearchInfo {
    pub success: u64,
    pub error: u64,
    pub message: Vec<u8>,
}

/// Mathematical image of an optional [`SearchInfo`]: an absent info block
/// counts as one clean success.
pub open spec fn info_triple(o: Option<SearchInfo>) -> (int, int, Seq<u8>) {
    match o {
        Some(i) => (i.success as int, i.error as int, i.message@),
        None => (1, 0, Seq::empty()),
    }
}

/// One partition's (or a merged) search response.
pub struct SearchDocumentResponse {
    pub code: Code,
    pub total: u64,
    pub hits: Vec<Hit>,
    pub info: Option<SearchInfo>,
}

/// Addition on `u64` that stops at the top instead of wrapping.
pub open spec fn sat64(x: int) -> u64 {
    if x > u64::MAX {
        u64::MAX
    } else {
        x as u64
    }
}

/// Saturating add, exactly [`sat64`] of the exact sum.
pub fn sat_add(a: u64, b: u64) -> (r: u64)
    ensures
        r == sat64(a + b),
{
    if a <= u64::MAX - b {
        a + b
    } else {
        u64::MAX
    }
}

/// Merges two partial responses: totals add, hits concatenate in arrival
/// order, and the info counters add (an absent side counting one clean
/// success). The first failing code wins. Counter sums saturate at the
/// top of `u64` instead of wrapping.
pub fn merge_search_document_response(
    a: SearchDocumentResponse,
    b: SearchDocumentResponse,
) -> (r: SearchDocumentResponse)
    ensures
        r.code == (if a.code == Code::Success {
            b.code
        } else {
            a.code
        }),
        r.total == sat64(a.total + b.total),
        r.hits@ == a.hits@ + b.hits@,
        a.info is None && b.info is None ==> r.info is None,
        a.info is Some || b.info is Some ==> r.info is Some,
        a.info is Some || b.info is Some ==> {
            &&& info_triple(r.info).0 == sat64(info_triple(a.info).0 + info_triple(b.info).0)
            &&& info_triple(r.info).1 == sat64(info_triple(a.info).1 + info_triple(b.info).1)
            &&& info_triple(r.info).2 == info_triple(a.info).2 + info_triple(b.info).2
        },
{
    let code = match a.code {
        Code::Success => b.code,
        _ => a.code,
    };
    let mut hits = a.hits;
    let mut bhits = b.hits;
    hits.append(&mut bhits);
    let info = match (a.info, b.info) {
        (None, None) => {
            proof {
                assert(Seq::<u8>::empty() + Seq::<u8>::empty() =~= Seq::<u8>::empty());
            }
            None
        },
        (sa, sb) => {
            let (s1, e1, mut m1) = unpack_info(sa);
            let (s2, e2, m2) = unpack_info(sb);
            crate::codec::push_bytes(&mut m1, &m2);
            Some(SearchInfo { success: sat_add(s1, s2), error: sat_add(e1, e2), message: m1 })
        },
    };
    SearchDocumentResponse { code, total: sat_add(a.total, b.total), hits, info }
}

/// The counters of one side of a merge.
fn unpack_info(o: Option<SearchInfo>) -> (r: (u64, u64, Vec<u8>))
    ensures
        r.0 == info_triple(o).0,
        r.1 == info_triple(o).1,
        r.2@ == info_triple(o).2,
{
    match o {
        Some(i) => (i.success, i.error, i.message),
        None => (1, 0, Vec::new()),
    }
}

/// Cuts a merged, sorted response down to the requested size.
pub fn truncate_hits(hits: &mut Vec<Hit>, size: usize)
    ensures
        final(hits)@ == (if old(hits)@.len() <= size {
            old(hits)@
        } else {
            old(hits)@.subrange(0, size as int)
        }),
{
    if hits.len() > size {
        hits.truncate(size);
    }
    proof {
        if old(hits)@.len() <= size {
            assert(hits@ =~= old(hits)@);
        }
    }
}

} // verus!
