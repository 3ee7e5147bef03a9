//! Client-facing document model and the mutation that the write pipeline
//! proposes to the replicated log.
//!
//! A document's external key is the pair `(id, sort_key)`; both are carried
//! as UTF-8 bytes. The `source` is the opaque payload returned bit-exact by
//! a lookup.

use vstd::prelude::*;

verus! {

/// Upper bound on the byte length of any single document field; keeps all
/// length arithmetic of the codec inside `usize`.
pub const FIELD_LEN_MAX: usize = 0x100_0000;

/// Mathematical image of a [`Document`].
pub struct DocView {
    pub id: Seq<u8>,
    pub sort_key: Seq<u8>,
    pub version: i64,
    pub source: Seq<u8>,
}

impl DocView {
    /// Every field short enough that the framed encoding fits in `usize`
    /// arithmetic.
    pub open spec fn wf(self) -> bool {
        &&& self.id.len() <= FIELD_LEN_MAX
        &&& self.sort_key.len() <= FIELD_LEN_MAX
        &&& self.source.len() <= FIELD_LEN_MAX
    }
}

/// A stored document: external key `(id, sort_key)`, client version and the
/// opaque source payload.
#[derive(Debug)]
pub struct Document {
    pub id: Vec<u8>,
    pub sort_key: Vec<u8>,
    pub version: i64,
    pub source: Vec<u8>,
}

impl View for Document {
    type V = DocView;

    open spec fn view(&self) -> DocView {
        DocView {
            id: self.id@,
            sort_key: self.sort_key@,
            version: self.version,
            source: self.source@,
        }
    }
}

/// Copies a byte vector; the result is view-equal to the input.
pub fn clone_bytes(v: &Vec<u8>) -> (r: Vec<u8>)
    ensures
        r@ == v@,
{
    let mut r: Vec<u8> = Vec::new();
    let mut i: usize = 0;
    while i < v.len()
        invariant
            i <= v.len(),
            r@ == v@.subrange(0, i as int),
        decreases v.len() - i,
    {
        r.push(v[i]);
        i = i + 1;
        proof {
            assert(r@ =~= v@.subrange(0, i as int));
        }
    }
    proof {
        assert(r@ =~= v@);
    }
    r
}

/// Do two byte slices hold the same bytes?
pub fn bytes_eq(a: &[u8], b: &[u8]) -> (r: bool)
    ensures
        r == (a@ == b@),
{
    if a.len() != b.len() {
        proof {
            assert(a@.len() != b@.len());
        }
        return false;
    }
    let mut i: usize = 0;
    while i < a.len()
        invariant
            i <= a.len(),
            a@.len() == b@.len(),
            forall|j: int| 0 <= j < i ==> a@[j] == b@[j],
        decreases a.len() - i,
    {
        if a[i] != b[i] {
            return false;
        }
        i = i + 1;
    }
    proof {
        assert(a@ =~= b@);
    }
    true
}

impl Document {
    pub open spec fn wf(self) -> bool {
        self@.wf()
    }

    /// A deep copy whose view equals this document's view.
    pub fn duplicate(&self) -> (r: Document)
        ensures
            r@ == self@,
    {
        Document {
            id: clone_bytes(&self.id),
            sort_key: clone_bytes(&self.sort_key),
            version: self.version,
            source: clone_bytes(&self.source),
        }
    }
}

/// The five client mutations of the write pipeline.
#[derive(Clone, Copy, PartialEq, Eq, Structural, Debug)]
pub enum WriteType {
    Create,
    Put,
    Update,
    Upsert,
    Delete,
}

/// Mathematical image of a [`Mutation`].
pub struct MutationView {
    pub write_type: WriteType,
    pub doc: DocView,
}

/// One entry of the committed log: a write type together with its document.
pub struct Mutation {
    pub write_type: WriteType,
    pub doc: Document,
}

impl View for Mutation {
    type V = MutationView;

    open spec fn view(&self) -> MutationView {
        MutationView { write_type: self.write_type, doc: self.doc@ }
    }
}

impl MutationView {
    pub open spec fn wf(self) -> bool {
        self.doc.wf()
    }
}

} // verus!
