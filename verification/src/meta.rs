//! Metadata handed down by the master: collections with their field
//! schemas, partitions with their replica sets, and the packed 64-bit
//! group id `(collection_id << 32) | partition_id` that names a Raft
//! group on the wire.

use vstd::prelude::*;

verus! {

/// Type of one collection field.
#[derive(Clone, Copy, PartialEq, Eq, Structural, Debug)]
pub enum FieldType {
    Int,
    Float,
    Str,
    Text,
    Vector,
    Bytes,
}

/// One field of a collection schema.
pub struct FieldMeta {
    pub name: String,
    pub ftype: FieldType,
    pub array: bool,
}

/// A collection: immutable for the life of a partition.
pub struct Collection {
    pub id: u32,
    pub name: String,
    pub fields: Vec<FieldMeta>,
    pub scalar_field_index: Vec<usize>,
}

/// One replica of a partition on a specific node.
pub struct Replica {
    pub node_id: u64,
    pub addr: String,
}

/// One shard of a collection.
pub struct Partition {
    pub id: u32,
    pub collection_id: u32,
    pub replicas: Vec<Replica>,
    pub leader: String,
    pub version: u64,
}

impl Partition {
    /// A deep copy whose scalar fields and replica list match the
    /// original's, entry by entry.
    pub fn duplicate(&self) -> (r: Partition)
        ensures
            r.id == self.id,
            r.collection_id == self.collection_id,
            r.version == self.version,
            r.leader@ == self.leader@,
            r.replicas@.len() == self.replicas@.len(),
            forall|i: int|
                0 <= i < self.replicas@.len() ==> (#[trigger] r.replicas@[i]).node_id
                    == self.replicas@[i].node_id && r.replicas@[i].addr@ == self.replicas@[i].addr@,
    {
        let mut replicas: Vec<Replica> = Vec::new();
        let mut i: usize = 0;
        while i < self.replicas.len()
            invariant
                i <= self.replicas@.len(),
                replicas@.len() == i,
                forall|j: int|
                    0 <= j < i ==> (#[trigger] replicas@[j]).node_id == self.replicas@[j].node_id
                        && replicas@[j].addr@ == self.replicas@[j].addr@,
            decreases self.replicas@.len() - i,
        {
            let rep = &self.replicas[i];
            replicas.push(Replica { node_id: rep.node_id, addr: rep.addr.clone() });
            i = i + 1;
        }
        Partition {
            id: self.id,
            collection_id: self.collection_id,
            replicas,
            leader: self.leader.clone(),
            version: self.version,
        }
    }
}

/// The heartbeat a node sends to the master: its identity and the
/// partitions it currently leads.
pub struct PServer {
    pub id: u64,
    pub addr: String,
    pub write_partitions: Vec<Partition>,
    pub zone: String,
}

/// The packed Raft group id.
pub open spec fn spec_merge_u32(cid: u32, pid: u32) -> u64 {
    ((cid as u64) << 32) | (pid as u64)
}

/// Packs `(collection_id, partition_id)` into the 64-bit group id.
pub fn merge_u32(cid: u32, pid: u32) -> (r: u64)
    ensures
        r == spec_merge_u32(cid, pid),
{
    ((cid as u64) << 32) | (pid as u64)
}

/// Splits a group id back into `(collection_id, partition_id)`.
pub fn split_u32(v: u64) -> (r: (u32, u32))
    ensures
        spec_merge_u32(r.0, r.1) == v,
        r.0 == v >> 32,
        r.1 == v as u32,
{
    let cid = #[verifier::truncate] ((v >> 32) as u32);
    let pid = #[verifier::truncate] (v as u32);
    proof {
        assert((((((v >> 32) as u32) as u64) << 32) | ((v as u32) as u64)) == v) by (bit_vector);
        assert(((v >> 32) as u32) == v >> 32) by (bit_vector);
    }
    (cid, pid)
}

/// Packing then splitting gives the pair back.
pub proof fn lemma_merge_split(cid: u32, pid: u32)
    ensures
        spec_merge_u32(cid, pid) >> 32 == cid,
        spec_merge_u32(cid, pid) & 0xffff_ffff == pid,
{
    assert((((cid as u64) << 32) | (pid as u64)) >> 32 == cid) by (bit_vector);
    assert(((((cid as u64) << 32) | (pid as u64)) & 0xffff_ffff) == pid) by (bit_vector);
}

} // verus!
