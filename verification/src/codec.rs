//! The stable, length-prefixed binary framing used for documents, log
//! mutations and partition snapshots. Every encoder has a matching decoder
//! and a proved round trip, so replay and crash recovery reproduce the
//! exact state that was written.

use vstd::prelude::*;

use crate::doc::{DocView, Document, Mutation, MutationView, WriteType, FIELD_LEN_MAX};

verus! {

// ---------------------------------------------------------------- integers

/// Big-endian bytes of a `u32`.
pub open spec fn enc_u32(n: u32) -> Seq<u8> {
    seq![(n >> 24) as u8, (n >> 16) as u8, (n >> 8) as u8, n as u8]
}

/// Big-endian bytes of a `u64`.
pub open spec fn enc_u64(n: u64) -> Seq<u8> {
    seq![
        (n >> 56) as u8,
        (n >> 48) as u8,
        (n >> 40) as u8,
        (n >> 32) as u8,
        (n >> 24) as u8,
        (n >> 16) as u8,
        (n >> 8) as u8,
        n as u8,
    ]
}

/// The `u32` read back from four big-endian bytes.
pub open spec fn dec_u32(b: Seq<u8>) -> u32
    recommends
        b.len() == 4,
{
    ((b[0] as u32) << 24) | ((b[1] as u32) << 16) | ((b[2] as u32) << 8) | (b[3] as u32)
}

/// The `u64` read back from eight big-endian bytes.
pub open spec fn dec_u64(b: Seq<u8>) -> u64
    recommends
        b.len() == 8,
{
    ((b[0] as u64) << 56) | ((b[1] as u64) << 48) | ((b[2] as u64) << 40) | ((b[3] as u64) << 32)
        | ((b[4] as u64) << 24) | ((b[5] as u64) << 16) | ((b[6] as u64) << 8) | (b[7] as u64)
}

pub proof fn lemma_u32_round(n: u32)
    ensures
        dec_u32(enc_u32(n)) == n,
{
    assert(((((n >> 24) as u8) as u32) << 24) | ((((n >> 16) as u8) as u32) << 16) | ((((n
        >> 8) as u8) as u32) << 8) | ((n as u8) as u32) == n) by (bit_vector);
}

pub proof fn lemma_u64_round(n: u64)
    ensures
        dec_u64(enc_u64(n)) == n,
{
    assert(((((n >> 56) as u8) as u64) << 56) | ((((n >> 48) as u8) as u64) << 48) | ((((n
        >> 40) as u8) as u64) << 40) | ((((n >> 32) as u8) as u64) << 32) | ((((n
        >> 24) as u8) as u64) << 24) | ((((n >> 16) as u8) as u64) << 16) | ((((n
        >> 8) as u8) as u64) << 8) | ((n as u8) as u64) == n) by (bit_vector);
}

/// Appends the big-endian bytes of `n`.
pub fn push_u32(out: &mut Vec<u8>, n: u32)
    ensures
        final(out)@ == old(out)@ + enc_u32(n),
{
    out.push(#[verifier::truncate] ((n >> 24) as u8));
    out.push(#[verifier::truncate] ((n >> 16) as u8));
    out.push(#[verifier::truncate] ((n >> 8) as u8));
    out.push(#[verifier::truncate] (n as u8));
    proof {
        assert(out@ =~= old(out)@ + enc_u32(n));
    }
}

/// Appends the big-endian bytes of `n`.
pub fn push_u64(out: &mut Vec<u8>, n: u64)
    ensures
        final(out)@ == old(out)@ + enc_u64(n),
{
    out.push(#[verifier::truncate] ((n >> 56) as u8));
    out.push(#[verifier::truncate] ((n >> 48) as u8));
    out.push(#[verifier::truncate] ((n >> 40) as u8));
    out.push(#[verifier::truncate] ((n >> 32) as u8));
    out.push(#[verifier::truncate] ((n >> 24) as u8));
    out.push(#[verifier::truncate] ((n >> 16) as u8));
    out.push(#[verifier::truncate] ((n >> 8) as u8));
    out.push(#[verifier::truncate] (n as u8));
    proof {
        assert(out@ =~= old(out)@ + enc_u64(n));
    }
}

/// Appends all bytes of `v`.
pub fn push_bytes(out: &mut Vec<u8>, v: &Vec<u8>)
    ensures
        final(out)@ == old(out)@ + v@,
{
    let mut i: usize = 0;
    while i < v.len()
        invariant
            i <= v.len(),
            out@ == old(out)@ + v@.subrange(0, i as int),
        decreases v.len() - i,
    {
        out.push(v[i]);
        i = i + 1;
        proof {
            assert(out@ =~= old(out)@ + v@.subrange(0, i as int));
        }
    }
    proof {
        assert(out@ =~= old(out)@ + v@);
    }
}

/// Reads a big-endian `u32` at `pos`.
pub fn read_u32(b: &Vec<u8>, pos: usize) -> (r: u32)
    requires
        pos + 4 <= b@.len(),
    ensures
        r == dec_u32(b@.subrange(pos as int, pos as int + 4)),
{
    let blen: usize = b.len();
    proof {
        assert(b@.len() == blen);
    }
    let r: u32 = ((b[pos] as u32) << 24) | ((b[pos + 1] as u32) << 16) | ((b[pos + 2] as u32) << 8)
        | (b[pos + 3] as u32);
    proof {
        let s = b@.subrange(pos as int, pos as int + 4);
        assert(s[0] == b@[pos as int]);
        assert(s[1] == b@[pos as int + 1]);
        assert(s[2] == b@[pos as int + 2]);
        assert(s[3] == b@[pos as int + 3]);
    }
    r
}

/// Reads a big-endian `u64` at `pos`.
pub fn read_u64(b: &Vec<u8>, pos: usize) -> (r: u64)
    requires
        pos + 8 <= b@.len(),
    ensures
        r == dec_u64(b@.subrange(pos as int, pos as int + 8)),
{
    let blen: usize = b.len();
    proof {
        assert(b@.len() == blen);
    }
    let r: u64 = ((b[pos] as u64) << 56) | ((b[pos + 1] as u64) << 48) | ((b[pos + 2] as u64) << 40)
        | ((b[pos + 3] as u64) << 32) | ((b[pos + 4] as u64) << 24) | ((b[pos + 5] as u64) << 16)
        | ((b[pos + 6] as u64) << 8) | (b[pos + 7] as u64);
    proof {
        let s = b@.subrange(pos as int, pos as int + 8);
        assert(s[0] == b@[pos as int]);
        assert(s[1] == b@[pos as int + 1]);
        assert(s[2] == b@[pos as int + 2]);
        assert(s[3] == b@[pos as int + 3]);
        assert(s[4] == b@[pos as int + 4]);
        assert(s[5] == b@[pos as int + 5]);
        assert(s[6] == b@[pos as int + 6]);
        assert(s[7] == b@[pos as int + 7]);
    }
    r
}

/// Copies `n` bytes starting at `pos` into a fresh vector.
pub fn copy_range(b: &Vec<u8>, pos: usize, n: usize) -> (r: Vec<u8>)
    requires
        pos + n <= b@.len(),
    ensures
        r@ == b@.subrange(pos as int, pos as int + n as int),
{
    let blen: usize = b.len();
    proof {
        assert(b@.len() == blen);
    }
    let mut r: Vec<u8> = Vec::new();
    let mut i: usize = 0;
    while i < n
        invariant
            i <= n,
            pos + n <= b@.len(),
            b@.len() <= usize::MAX,
            r@ == b@.subrange(pos as int, pos as int + i as int),
        decreases n - i,
    {
        r.push(b[pos + i]);
        i = i + 1;
        proof {
            assert(r@ =~= b@.subrange(pos as int, pos as int + i as int));
        }
    }
    r
}

// --------------------------------------------------------------- documents

/// Framed encoding of one document: each byte field carries a four-byte
/// big-endian length prefix, the version its eight raw bytes.
pub open spec fn enc_doc(d: DocView) -> Seq<u8> {
    enc_u32(d.id.len() as u32) + d.id + enc_u32(d.sort_key.len() as u32) + d.sort_key + enc_u64(
        d.version as u64,
    ) + enc_u32(d.source.len() as u32) + d.source
}

/// Parses one framed document at `pos`; yields the document and the
/// position just past it.
pub open spec fn dec_doc_at(b: Seq<u8>, pos: int) -> Option<(DocView, int)> {
    if pos < 0 || b.len() < pos + 4 {
        None
    } else {
        let n1 = dec_u32(b.subrange(pos, pos + 4)) as int;
        if n1 > FIELD_LEN_MAX || b.len() < pos + 8 + n1 {
            None
        } else {
            let n2 = dec_u32(b.subrange(pos + 4 + n1, pos + 8 + n1)) as int;
            if n2 > FIELD_LEN_MAX || b.len() < pos + 20 + n1 + n2 {
                None
            } else {
                let n3 = dec_u32(b.subrange(pos + 16 + n1 + n2, pos + 20 + n1 + n2)) as int;
                if n3 > FIELD_LEN_MAX || b.len() < pos + 20 + n1 + n2 + n3 {
                    None
                } else {
                    Some(
                        (
                            DocView {
                                id: b.subrange(pos + 4, pos + 4 + n1),
                                sort_key: b.subrange(pos + 8 + n1, pos + 8 + n1 + n2),
                                version: dec_u64(
                                    b.subrange(pos + 8 + n1 + n2, pos + 16 + n1 + n2),
                                ) as i64,
                                source: b.subrange(pos + 20 + n1 + n2, pos + 20 + n1 + n2 + n3),
                            },
                            pos + 20 + n1 + n2 + n3,
                        ),
                    )
                }
            }
        }
    }
}

/// A framed document embedded anywhere in a buffer parses back to itself.
pub proof fn lemma_dec_doc_at_enc(b: Seq<u8>, pos: int, d: DocView)
    requires
        d.wf(),
        0 <= pos,
        pos + enc_doc(d).len() <= b.len(),
        b.subrange(pos, pos + enc_doc(d).len()) == enc_doc(d),
    ensures
        dec_doc_at(b, pos) == Some((d, pos + enc_doc(d).len())),
{
    let e = enc_doc(d);
    let n1 = d.id.len() as int;
    let n2 = d.sort_key.len() as int;
    let n3 = d.source.len() as int;
    let p1 = enc_u32(d.id.len() as u32);
    let p2 = d.id;
    let p3 = enc_u32(d.sort_key.len() as u32);
    let p4 = d.sort_key;
    let p5 = enc_u64(d.version as u64);
    let p6 = enc_u32(d.source.len() as u32);
    let p7 = d.source;
    assert(e == p1 + p2 + p3 + p4 + p5 + p6 + p7);
    assert(e.len() == 20 + n1 + n2 + n3);
    assert forall|i: int| 0 <= i < e.len() implies b[pos + i] == e[i] by {
        assert(b.subrange(pos, pos + e.len())[i] == b[pos + i]);
    }
    assert forall|i: int| 0 <= i < e.len() implies e[i] == if i < 4 {
        p1[i]
    } else if i < 4 + n1 {
        p2[i - 4]
    } else if i < 8 + n1 {
        p3[i - 4 - n1]
    } else if i < 8 + n1 + n2 {
        p4[i - 8 - n1]
    } else if i < 16 + n1 + n2 {
        p5[i - 8 - n1 - n2]
    } else if i < 20 + n1 + n2 {
        p6[i - 16 - n1 - n2]
    } else {
        p7[i - 20 - n1 - n2]
    } by {
        assert(e[i] == (p1 + p2 + p3 + p4 + p5 + p6 + p7)[i]);
    }
    assert forall|j: int| 0 <= j < 4 implies b.subrange(pos, pos + 4)[j] == p1[j] by {
        assert(b[pos + j] == e[j]);
    }
    assert(b.subrange(pos, pos + 4) =~= p1);
    lemma_u32_round(d.id.len() as u32);
    assert(dec_u32(b.subrange(pos, pos + 4)) as int == n1);
    assert forall|j: int| 0 <= j < n1 implies b.subrange(pos + 4, pos + 4 + n1)[j] == p2[j] by {
        let i = 4 + j;
        assert(b[pos + i] == e[i]);
    }
    assert(b.subrange(pos + 4, pos + 4 + n1) =~= p2);
    assert forall|j: int| 0 <= j < 4 implies b.subrange(pos + 4 + n1, pos + 8 + n1)[j] == p3[j] by {
        let i = 4 + n1 + j;
        assert(b[pos + i] == e[i]);
    }
    assert(b.subrange(pos + 4 + n1, pos + 8 + n1) =~= p3);
    lemma_u32_round(d.sort_key.len() as u32);
    assert(dec_u32(b.subrange(pos + 4 + n1, pos + 8 + n1)) as int == n2);
    assert forall|j: int| 0 <= j < n2 implies b.subrange(pos + 8 + n1, pos + 8 + n1 + n2)[j]
        == p4[j] by {
        let i = 8 + n1 + j;
        assert(b[pos + i] == e[i]);
    }
    assert(b.subrange(pos + 8 + n1, pos + 8 + n1 + n2) =~= p4);
    assert forall|j: int| 0 <= j < 8 implies b.subrange(pos + 8 + n1 + n2, pos + 16 + n1 + n2)[j]
        == p5[j] by {
        let i = 8 + n1 + n2 + j;
        assert(b[pos + i] == e[i]);
    }
    assert(b.subrange(pos + 8 + n1 + n2, pos + 16 + n1 + n2) =~= p5);
    lemma_u64_round(d.version as u64);
    assert(dec_u64(b.subrange(pos + 8 + n1 + n2, pos + 16 + n1 + n2)) == d.version as u64);
    let v = d.version;
    assert((v as u64) as i64 == v) by (bit_vector);
    assert forall|j: int| 0 <= j < 4 implies b.subrange(pos + 16 + n1 + n2, pos + 20 + n1 + n2)[j]
        == p6[j] by {
        let i = 16 + n1 + n2 + j;
        assert(b[pos + i] == e[i]);
    }
    assert(b.subrange(pos + 16 + n1 + n2, pos + 20 + n1 + n2) =~= p6);
    lemma_u32_round(d.source.len() as u32);
    assert(dec_u32(b.subrange(pos + 16 + n1 + n2, pos + 20 + n1 + n2)) as int == n3);
    assert forall|j: int| 0 <= j < n3 implies b.subrange(
        pos + 20 + n1 + n2,
        pos + 20 + n1 + n2 + n3,
    )[j] == p7[j] by {
        let i = 20 + n1 + n2 + j;
        assert(b[pos + i] == e[i]);
    }
    assert(b.subrange(pos + 20 + n1 + n2, pos + 20 + n1 + n2 + n3) =~= p7);
    let parsed = dec_doc_at(b, pos).unwrap().0;
    assert(parsed =~= d);
}

/// Encodes one document.
pub fn encode_document(d: &Document) -> (r: Vec<u8>)
    requires
        d.wf(),
    ensures
        r@ == enc_doc(d@),
{
    let mut out: Vec<u8> = Vec::new();
    push_u32(&mut out, d.id.len() as u32);
    push_bytes(&mut out, &d.id);
    push_u32(&mut out, d.sort_key.len() as u32);
    push_bytes(&mut out, &d.sort_key);
    push_u64(&mut out, d.version as u64);
    push_u32(&mut out, d.source.len() as u32);
    push_bytes(&mut out, &d.source);
    proof {
        assert(out@ =~= enc_doc(d@));
    }
    out
}

/// Parses one framed document at `pos`, exactly as [`dec_doc_at`] reads it.
pub fn decode_document_at(b: &Vec<u8>, pos: usize) -> (r: Option<(Document, usize)>)
    requires
        pos <= b@.len(),
    ensures
        match r {
            Some(p) => {
                &&& dec_doc_at(b@, pos as int) == Some((p.0@, p.1 as int))
                &&& p.0.wf()
                &&& pos < p.1 <= b@.len()
            },
            None => dec_doc_at(b@, pos as int) is None,
        },
{
    let rem = b.len() - pos;
    if rem < 4 {
        return None;
    }
    let n1 = read_u32(b, pos) as usize;
    if n1 > FIELD_LEN_MAX || rem - 4 < 4 + n1 {
        return None;
    }
    let n2 = read_u32(b, pos + 4 + n1) as usize;
    if n2 > FIELD_LEN_MAX || rem - 8 - n1 < 12 + n2 {
        return None;
    }
    let version = read_u64(b, pos + 8 + n1 + n2);
    let n3 = read_u32(b, pos + 16 + n1 + n2) as usize;
    if n3 > FIELD_LEN_MAX || rem - 20 - n1 - n2 < n3 {
        return None;
    }
    let id = copy_range(b, pos + 4, n1);
    let sort_key = copy_range(b, pos + 8 + n1, n2);
    let source = copy_range(b, pos + 20 + n1 + n2, n3);
    let d = Document { id, sort_key, version: version as i64, source };
    Some((d, pos + 20 + n1 + n2 + n3))
}

// --------------------------------------------------------------- mutations

/// Wire tag of a write type.
pub open spec fn wt_tag(wt: WriteType) -> u8 {
    match wt {
        WriteType::Create => 1,
        WriteType::Put => 2,
        WriteType::Update => 3,
        WriteType::Upsert => 4,
        WriteType::Delete => 5,
    }
}

/// The write type of a wire tag, if any.
pub open spec fn tag_wt(t: u8) -> Option<WriteType> {
    if t == 1 {
        Some(WriteType::Create)
    } else if t == 2 {
        Some(WriteType::Put)
    } else if t == 3 {
        Some(WriteType::Update)
    } else if t == 4 {
        Some(WriteType::Upsert)
    } else if t == 5 {
        Some(WriteType::Delete)
    } else {
        None
    }
}

/// Framed encoding of one log mutation: a one-byte write type, then the
/// document.
pub open spec fn enc_mutation(m: MutationView) -> Seq<u8> {
    seq![wt_tag(m.write_type)] + enc_doc(m.doc)
}

/// Parses a whole buffer as one mutation.
pub open spec fn dec_mutation(b: Seq<u8>) -> Option<MutationView> {
    if b.len() < 1 {
        None
    } else {
        match tag_wt(b[0]) {
            None => None,
            Some(wt) => match dec_doc_at(b, 1) {
                Some(p) => if p.1 == b.len() {
                    Some(MutationView { write_type: wt, doc: p.0 })
                } else {
                    None
                },
                None => None,
            },
        }
    }
}

/// Encoding then decoding a mutation gives it back unchanged.
pub proof fn lemma_mutation_round(m: MutationView)
    requires
        m.wf(),
    ensures
        dec_mutation(enc_mutation(m)) == Some(m),
{
    let b = enc_mutation(m);
    assert(b[0] == wt_tag(m.write_type));
    assert(tag_wt(wt_tag(m.write_type)) == Some(m.write_type));
    assert(b.subrange(1, 1 + enc_doc(m.doc).len() as int) =~= enc_doc(m.doc));
    lemma_dec_doc_at_enc(b, 1, m.doc);
}

/// Encodes one mutation for proposal to the replicated log.
pub fn encode_mutation(m: &Mutation) -> (r: Vec<u8>)
    requires
        m@.wf(),
    ensures
        r@ == enc_mutation(m@),
{
    let mut out: Vec<u8> = Vec::new();
    let tag: u8 = match m.write_type {
        WriteType::Create => 1,
        WriteType::Put => 2,
        WriteType::Update => 3,
        WriteType::Upsert => 4,
        WriteType::Delete => 5,
    };
    out.push(tag);
    let body = encode_document(&m.doc);
    push_bytes(&mut out, &body);
    proof {
        assert(out@ =~= enc_mutation(m@));
    }
    out
}

/// Decodes a committed log entry back into a mutation.
pub fn decode_mutation(b: &Vec<u8>) -> (r: Option<Mutation>)
    ensures
        match r {
            Some(m) => dec_mutation(b@) == Some(m@) && m@.wf(),
            None => dec_mutation(b@) is None,
        },
{
    if b.len() < 1 {
        return None;
    }
    let wt: WriteType = match b[0] {
        1u8 => WriteType::Create,
        2u8 => WriteType::Put,
        3u8 => WriteType::Update,
        4u8 => WriteType::Upsert,
        5u8 => WriteType::Delete,
        _ => {
            return None;
        },
    };
    match decode_document_at(b, 1) {
        Some(p) => {
            if p.1 == b.len() {
                Some(Mutation { write_type: wt, doc: p.0 })
            } else {
                None
            }
        },
        None => None,
    }
}

} // verus!
