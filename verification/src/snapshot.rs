//! Persistence of a partition engine: the snapshot written at offload and
//! read back at load. The encoding covers exactly the durable state — the
//! live rows, the id watermark and the applied-log watermark — and the
//! proved round trip means offload followed by load reproduces the engine
//! byte for byte.

use vstd::prelude::*;

use crate::codec::{
    dec_doc_at, dec_u32, dec_u64, decode_document_at, enc_doc, enc_u32, enc_u64, encode_document,
    lemma_dec_doc_at_enc, lemma_u32_round, lemma_u64_round, push_bytes, push_u32, push_u64,
    read_u32, read_u64,
};
use crate::doc::{DocView, Document};
use crate::simba::{docs_view, view_inv, EngineStatus, Simba, SimbaView};

verus! {

/// Encoding of one live row: internal id, then the framed document.
pub open spec fn enc_row(e: (u32, DocView)) -> Seq<u8> {
    enc_u32(e.0) + enc_doc(e.1)
}

/// Encoding of the rows in insertion order.
pub open spec fn enc_rows(docs: Seq<(u32, DocView)>) -> Seq<u8>
    decreases docs.len(),
{
    if docs.len() == 0 {
        Seq::empty()
    } else {
        enc_row(docs[0]) + enc_rows(docs.drop_first())
    }
}

pub proof fn lemma_enc_rows_snoc(docs: Seq<(u32, DocView)>)
    requires
        docs.len() > 0,
    ensures
        enc_rows(docs) == enc_rows(docs.drop_last()) + enc_row(docs.last()),
    decreases docs.len(),
{
    if docs.len() == 1 {
        assert(docs.drop_last() =~= Seq::<(u32, DocView)>::empty());
        assert(docs.drop_first() =~= Seq::<(u32, DocView)>::empty());
        assert(enc_rows(docs.drop_first()) == Seq::<u8>::empty());
        assert(enc_rows(docs.drop_last()) == Seq::<u8>::empty());
        assert(enc_rows(docs) == enc_row(docs[0]) + Seq::<u8>::empty());
        assert(enc_rows(docs) =~= enc_rows(docs.drop_last()) + enc_row(docs.last()));
    } else {
        let rest = docs.drop_first();
        lemma_enc_rows_snoc(rest);
        assert(rest.drop_last() =~= docs.drop_last().drop_first());
        assert(rest.last() == docs.last());
        assert(docs.drop_last()[0] == docs[0]);
        assert(enc_rows(docs.drop_last()) == enc_row(docs[0]) + enc_rows(rest.drop_last()));
        assert(enc_row(docs[0]) + (enc_rows(rest.drop_last()) + enc_row(docs.last())) =~= (enc_row(
            docs[0],
        ) + enc_rows(rest.drop_last())) + enc_row(docs.last()));
    }
}

/// The snapshot: id watermark, applied-log watermark, row count, rows.
pub open spec fn enc_state(v: SimbaView) -> Seq<u8> {
    enc_u32(v.max_iid) + enc_u64(v.raft_index) + enc_u32(v.docs.len() as u32) + enc_rows(v.docs)
}

/// Parses `n` rows starting at `pos`.
pub open spec fn dec_rows_at(b: Seq<u8>, pos: int, n: int) -> Option<(Seq<(u32, DocView)>, int)>
    decreases n,
{
    if n <= 0 {
        Some((Seq::empty(), pos))
    } else if pos < 0 || b.len() < pos + 4 {
        None
    } else {
        let iid = dec_u32(b.subrange(pos, pos + 4));
        match dec_doc_at(b, pos + 4) {
            None => None,
            Some(p) => match dec_rows_at(b, p.1, n - 1) {
                None => None,
                Some(q) => Some((seq![(iid, p.0)] + q.0, q.1)),
            },
        }
    }
}

/// What a loaded engine starts as: the durable fields, running again.
pub open spec fn persisted(v: SimbaView) -> SimbaView {
    SimbaView {
        docs: v.docs,
        max_iid: v.max_iid,
        raft_index: v.raft_index,
        status: EngineStatus::Running,
    }
}

/// Parses a whole snapshot.
pub open spec fn dec_state(b: Seq<u8>) -> Option<SimbaView> {
    if b.len() < 16 {
        None
    } else {
        let max_iid = dec_u32(b.subrange(0, 4));
        let raft_index = dec_u64(b.subrange(4, 12));
        let n = dec_u32(b.subrange(12, 16));
        match dec_rows_at(b, 16, n as int) {
            Some(p) => if p.1 == b.len() {
                Some(
                    SimbaView { docs: p.0, max_iid, raft_index, status: EngineStatus::Running },
                )
            } else {
                None
            },
            None => None,
        }
    }
}

/// A row sequence embedded in a buffer parses back to itself.
pub proof fn lemma_dec_rows_at_enc(b: Seq<u8>, pos: int, docs: Seq<(u32, DocView)>)
    requires
        forall|i: int| 0 <= i < docs.len() ==> (#[trigger] docs[i]).1.wf(),
        0 <= pos,
        pos + enc_rows(docs).len() <= b.len(),
        b.subrange(pos, pos + enc_rows(docs).len()) == enc_rows(docs),
    ensures
        dec_rows_at(b, pos, docs.len() as int) == Some((docs, pos + enc_rows(docs).len())),
    decreases docs.len(),
{
    if docs.len() == 0 {
        assert(docs =~= Seq::<(u32, DocView)>::empty());
    } else {
        let e = enc_rows(docs);
        let r0 = enc_row(docs[0]);
        let dl = enc_doc(docs[0].1).len() as int;
        let rest = enc_rows(docs.drop_first());
        assert(e == r0 + rest);
        assert(r0.len() == 4 + dl);
        assert forall|i: int| 0 <= i < e.len() implies b[pos + i] == e[i] by {
            assert(b.subrange(pos, pos + e.len())[i] == b[pos + i]);
        }
        assert forall|j: int| 0 <= j < 4 implies b.subrange(pos, pos + 4)[j] == enc_u32(
            docs[0].0,
        )[j] by {
            assert(b[pos + j] == e[j]);
            assert(e[j] == r0[j]);
        }
        assert(b.subrange(pos, pos + 4) =~= enc_u32(docs[0].0));
        lemma_u32_round(docs[0].0);
        assert forall|j: int| 0 <= j < dl implies b.subrange(pos + 4, pos + 4 + dl)[j] == enc_doc(
            docs[0].1,
        )[j] by {
            let i = 4 + j;
            assert(b[pos + i] == e[i]);
            assert(e[i] == r0[i]);
        }
        assert(b.subrange(pos + 4, pos + 4 + dl) =~= enc_doc(docs[0].1));
        lemma_dec_doc_at_enc(b, pos + 4, docs[0].1);
        assert forall|j: int| 0 <= j < rest.len() implies b.subrange(pos + 4 + dl, pos + e.len())[j]
            == rest[j] by {
            let i = 4 + dl + j;
            assert(b[pos + i] == e[i]);
        }
        assert(b.subrange(pos + 4 + dl, pos + e.len()) =~= rest);
        assert forall|i: int| 0 <= i < docs.drop_first().len() implies (#[trigger] docs.drop_first()[i]).1.wf() by {
            assert(docs.drop_first()[i] == docs[i + 1]);
        }
        lemma_dec_rows_at_enc(b, pos + 4 + dl, docs.drop_first());
        assert(seq![(docs[0].0, docs[0].1)] + docs.drop_first() =~= docs);
    }
}

/// Offload followed by load reproduces the engine: decoding a snapshot of
/// any well-formed state yields exactly its durable fields.
pub proof fn lemma_state_round(v: SimbaView)
    requires
        view_inv(v),
    ensures
        dec_state(enc_state(v)) == Some(persisted(v)),
{
    let b = enc_state(v);
    let p1 = enc_u32(v.max_iid);
    let p2 = enc_u64(v.raft_index);
    let p3 = enc_u32(v.docs.len() as u32);
    let rows = enc_rows(v.docs);
    assert(b == p1 + p2 + p3 + rows);
    assert forall|i: int| 0 <= i < b.len() implies b[i] == if i < 4 {
        p1[i]
    } else if i < 12 {
        p2[i - 4]
    } else if i < 16 {
        p3[i - 12]
    } else {
        rows[i - 16]
    } by {
        assert(b[i] == (p1 + p2 + p3 + rows)[i]);
    }
    assert(b.subrange(0, 4) =~= p1);
    lemma_u32_round(v.max_iid);
    assert(b.subrange(4, 12) =~= p2);
    lemma_u64_round(v.raft_index);
    assert(b.subrange(12, 16) =~= p3);
    lemma_u32_round(v.docs.len() as u32);
    assert(v.docs.len() <= v.max_iid <= u32::MAX);
    assert(dec_u32(b.subrange(12, 16)) as int == v.docs.len());
    assert forall|j: int| 0 <= j < rows.len() implies b.subrange(16, 16 + rows.len() as int)[j]
        == rows[j] by {
        let i = 16 + j;
        assert(b[i] == rows[i - 16]);
    }
    assert(b.subrange(16, 16 + rows.len() as int) =~= rows);
    lemma_dec_rows_at_enc(b, 16, v.docs);
    assert(dec_state(b).unwrap() =~= persisted(v));
}

/// Writes the durable state of a running or stopped engine.
pub fn encode_state(s: &Simba) -> (r: Vec<u8>)
    requires
        s.inv(),
    ensures
        r@ == enc_state(s@),
{
    let mut out: Vec<u8> = Vec::new();
    push_u32(&mut out, s.get_max_iid());
    push_u64(&mut out, s.get_raft_index());
    let n = s.num_rows();
    push_u32(&mut out, n as u32);
    let mut i: usize = 0;
    proof {
        assert(enc_rows(s@.docs.subrange(0, 0)) =~= Seq::<u8>::empty());
        assert(out@ =~= enc_u32(s@.max_iid) + enc_u64(s@.raft_index) + enc_u32(n as u32)
            + enc_rows(s@.docs.subrange(0, 0)));
    }
    while i < n
        invariant
            i <= n,
            n == s@.docs.len(),
            s.inv(),
            out@ == enc_u32(s@.max_iid) + enc_u64(s@.raft_index) + enc_u32(n as u32) + enc_rows(
                s@.docs.subrange(0, i as int),
            ),
        decreases n - i,
    {
        let row = s.row(i);
        push_u32(&mut out, row.0);
        let db = encode_document(&row.1);
        push_bytes(&mut out, &db);
        proof {
            let pfx = s@.docs.subrange(0, i as int + 1);
            lemma_enc_rows_snoc(pfx);
            assert(pfx.drop_last() =~= s@.docs.subrange(0, i as int));
            assert(pfx.last() == s@.docs[i as int]);
            assert(out@ =~= enc_u32(s@.max_iid) + enc_u64(s@.raft_index) + enc_u32(n as u32)
                + enc_rows(pfx));
        }
        i = i + 1;
    }
    proof {
        assert(s@.docs.subrange(0, n as int) =~= s@.docs);
        assert((n as u32) == s@.docs.len() as u32);
        assert(out@ =~= enc_state(s@));
    }
    out
}

/// Reads a snapshot back into a fresh running engine.
pub fn decode_state(b: &Vec<u8>) -> (r: Option<Simba>)
    ensures
        match r {
            Some(s) => dec_state(b@) == Some(s@),
            None => dec_state(b@) is None,
        },
{
    let blen: usize = b.len();
    proof {
        assert(b@.len() == blen);
    }
    if blen < 16 {
        return None;
    }
    let max_iid = read_u32(b, 0);
    let raft_index = read_u64(b, 4);
    let n_u = read_u32(b, 12);
    let n = n_u as usize;
    let mut rows: Vec<(u32, Document)> = Vec::new();
    let mut pos: usize = 16;
    let mut i: usize = 0;
    proof {
        assert(docs_view(rows@) =~= Seq::<(u32, DocView)>::empty());
        if dec_rows_at(b@, 16, n as int) is Some {
            let p = dec_rows_at(b@, 16, n as int).unwrap();
            assert(docs_view(rows@) + p.0 =~= p.0);
        }
    }
    while i < n
        invariant
            i <= n,
            16 <= pos <= b@.len(),
            b@.len() == blen,
            n_u == dec_u32(b@.subrange(12, 16)),
            n == n_u,
            match dec_rows_at(b@, pos as int, n - i) {
                Some(p) => dec_rows_at(b@, 16, n as int) == Some(
                    (docs_view(rows@) + p.0, p.1),
                ),
                None => dec_rows_at(b@, 16, n as int) is None,
            },
        decreases n - i,
    {
        let ghost rows0 = rows@;
        if blen - pos < 4 {
            proof {
                assert(dec_rows_at(b@, pos as int, (n - i) as int) is None);
                assert(dec_rows_at(b@, 16, n as int) is None);
                assert(dec_u32(b@.subrange(12, 16)) == n_u);
                assert(dec_state(b@) is None);
            }
            return None;
        }
        let iid = read_u32(b, pos);
        match decode_document_at(b, pos + 4) {
            None => {
                proof {
                    assert(dec_rows_at(b@, pos as int, (n - i) as int) is None);
                    assert(dec_rows_at(b@, 16, n as int) is None);
                    assert(dec_u32(b@.subrange(12, 16)) == n_u);
                    assert(dec_state(b@) is None);
                }
                return None;
            },
            Some(p) => {
                let (d, p2) = p;
                proof {
                    assert(docs_view(rows0.push((iid, d))) =~= docs_view(rows0).push((iid, d@)));
                    let q = dec_rows_at(b@, p2 as int, n - i - 1);
                    if q is Some {
                        assert(docs_view(rows0).push((iid, d@)) + q.unwrap().0 =~= docs_view(rows0)
                            + (seq![(iid, d@)] + q.unwrap().0));
                    }
                }
                rows.push((iid, d));
                pos = p2;
            },
        }
        i = i + 1;
    }
    if pos != blen {
        proof {
            assert(dec_rows_at(b@, pos as int, 0) == Some(
                (Seq::<(u32, DocView)>::empty(), pos as int),
            ));
            assert(dec_u32(b@.subrange(12, 16)) == n_u);
            assert(dec_state(b@) is None);
        }
        return None;
    }
    proof {
        assert(dec_rows_at(b@, pos as int, 0) == Some(
            (Seq::<(u32, DocView)>::empty(), pos as int),
        ));
        assert(docs_view(rows@) + Seq::<(u32, DocView)>::empty() =~= docs_view(rows@));
    }
    let ghost rv = docs_view(rows@);
    let s = Simba::from_parts(rows, max_iid, raft_index);
    proof {
        assert(s@.docs == rv);
        assert(dec_state(b@).unwrap() =~= s@);
    }
    Some(s)
}

} // verus!
