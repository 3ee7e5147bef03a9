//! The per-node partition registry: which partitions this node serves, in
//! which role, and the dispatch of writes, reads, counts and search
//! gathering over them. The registry is the only authoritative view of
//! the node's partitions; writes require the Leader role.

use vstd::prelude::*;

use crate::codec::enc_mutation;
use crate::codes::Code;
use crate::doc::{Document, Mutation};
use crate::indexer::{Event, IndexEngine};
use crate::meta::{Partition, PServer, Replica};
use crate::search::{info_triple, sat64, sort_spec, sorted_hits, Hit, SearchDocumentResponse};
use crate::simba::{apply_step, find_key, step_events, EngineStatus, Simba};

verus! {

/// Role of a partition on this node. The two differ only in which
/// operations are allowed: writes require `Leader`.
#[derive(Clone, Copy, PartialEq, Eq, Structural, Debug)]
pub enum Role {
    Leader,
    Member,
}

/// One registry slot: the partition's identity, role, metadata, engine
/// and index.
pub struct ServiceEntry {
    pub cid: u32,
    pub pid: u32,
    pub role: Role,
    pub partition: Partition,
    pub simba: Simba,
    pub index: IndexEngine,
}

/// Index of the slot keyed `(cid, pid)`, or -1.
pub open spec fn find_store(s: Seq<ServiceEntry>, cid: u32, pid: u32) -> int
    decreases s.len(),
{
    if s.len() == 0 {
        -1
    } else if s[0].cid == cid && s[0].pid == pid {
        0
    } else {
        let r = find_store(s.drop_first(), cid, pid);
        if r < 0 {
            -1
        } else {
            r + 1
        }
    }
}

pub proof fn lemma_find_store(s: Seq<ServiceEntry>, cid: u32, pid: u32)
    ensures
        find_store(s, cid, pid) < 0 ==> find_store(s, cid, pid) == -1 && forall|i: int|
            0 <= i < s.len() ==> !((#[trigger] s[i]).cid == cid && s[i].pid == pid),
        find_store(s, cid, pid) >= 0 ==> find_store(s, cid, pid) < s.len() && s[find_store(
            s,
            cid,
            pid,
        )].cid == cid && s[find_store(s, cid, pid)].pid == pid && forall|i: int|
            0 <= i < find_store(s, cid, pid) ==> !((#[trigger] s[i]).cid == cid && s[i].pid == pid),
    decreases s.len(),
{
    if s.len() > 0 && !(s[0].cid == cid && s[0].pid == pid) {
        let rest = s.drop_first();
        lemma_find_store(rest, cid, pid);
        let kr = find_store(rest, cid, pid);
        if kr < 0 {
            assert forall|i: int| 0 <= i < s.len() implies !((#[trigger] s[i]).cid == cid && s[i].pid
                == pid) by {
                if i > 0 {
                    assert(s[i] == rest[i - 1]);
                }
            }
        } else {
            assert(s[kr + 1] == rest[kr]);
            assert forall|i: int| 0 <= i < kr + 1 implies !((#[trigger] s[i]).cid == cid && s[i].pid
                == pid) by {
                if i > 0 {
                    assert(s[i] == rest[i - 1]);
                }
            }
        }
    }
}

/// Leaders among the slots from `j` on.
pub open spec fn count_leaders_from(s: Seq<ServiceEntry>, j: int) -> int
    decreases s.len() - j,
{
    if j < 0 || j >= s.len() {
        0
    } else {
        (if s[j].role == Role::Leader {
            1int
        } else {
            0int
        }) + count_leaders_from(s, j + 1)
    }
}

/// The master's stored partition version must not exceed the version a
/// load request carries; otherwise the load is stale and fenced off.
pub fn check_partition_version(stored: u64, requested: u64) -> (r: Result<(), Code>)
    ensures
        r is Ok <==> stored <= requested,
        r is Err ==> r == Err::<(), Code>(Code::VersionErr),
{
    if stored > requested {
        Err(Code::VersionErr)
    } else {
        Ok(())
    }
}

/// The per-node partition service.
pub struct PartitionService {
    pub server_id: u64,
    pub stores: Vec<ServiceEntry>,
}

impl PartitionService {
    /// Registry keys are unique and every engine is well-formed.
    pub open spec fn inv(&self) -> bool {
        &&& forall|i: int, j: int|
            0 <= i < j < self.stores@.len() ==> !((#[trigger] self.stores@[i]).cid == (
            #[trigger] self.stores@[j]).cid && self.stores@[i].pid == self.stores@[j].pid)
        &&& forall|i: int|
            0 <= i < self.stores@.len() ==> (#[trigger] self.stores@[i]).simba.inv()
                && self.stores@[i].index.inv()
    }

    /// A fresh, empty registry for this node.
    pub fn new(server_id: u64) -> (r: PartitionService)
        ensures
            r.inv(),
            r.server_id == server_id,
            r.stores@.len() == 0,
    {
        PartitionService { server_id, stores: Vec::new() }
    }

    /// Scans for the slot of `(cid, pid)`.
    fn find_idx(&self, cid: u32, pid: u32) -> (r: Option<usize>)
        ensures
            match r {
                Some(i) => i < self.stores@.len() && find_store(self.stores@, cid, pid) == i,
                None => find_store(self.stores@, cid, pid) == -1,
            },
    {
        let mut i: usize = 0;
        while i < self.stores.len()
            invariant
                i <= self.stores@.len(),
                forall|j: int|
                    0 <= j < i ==> !((#[trigger] self.stores@[j]).cid == cid && self.stores@[j].pid
                        == pid),
            decreases self.stores@.len() - i,
        {
            let e = &self.stores[i];
            if e.cid == cid && e.pid == pid {
                proof {
                    lemma_find_store(self.stores@, cid, pid);
                    if find_store(self.stores@, cid, pid) != i {
                        assert(false);
                    }
                }
                return Some(i);
            }
            i = i + 1;
        }
        proof {
            lemma_find_store(self.stores@, cid, pid);
            if find_store(self.stores@, cid, pid) >= 0 {
                assert(self.stores@[find_store(self.stores@, cid, pid)].cid == cid);
            }
        }
        None
    }

    /// Loads one partition into the registry, as Member. Idempotent: a
    /// partition already present is left untouched. A positive requested
    /// version is fenced against the master's stored one; on success the
    /// slot carries the requested version plus one.
    pub fn init_partition(
        &mut self,
        cid: u32,
        pid: u32,
        replicas: Vec<Replica>,
        version: u64,
        master_version: u64,
        simba: Simba,
        index: IndexEngine,
    ) -> (r: Result<(), Code>)
        requires
            old(self).inv(),
            simba.inv(),
            index.inv(),
            version < u64::MAX,
        ensures
            final(self).inv(),
            find_store(old(self).stores@, cid, pid) >= 0 ==> r is Ok && final(self).stores@ == old(
                self,
            ).stores@,
            find_store(old(self).stores@, cid, pid) < 0 && version > 0 && master_version > version
                ==> r == Err::<(), Code>(Code::VersionErr) && final(self).stores@ == old(
                self,
            ).stores@,
            find_store(old(self).stores@, cid, pid) < 0 && (version == 0 || master_version
                <= version) ==> r is Ok && final(self).stores@.len() == old(self).stores@.len() + 1
                && (forall|j: int|
                0 <= j < old(self).stores@.len() ==> final(self).stores@[j] == old(
                    self,
                ).stores@[j]) && {
                let e = final(self).stores@.last();
                &&& e.cid == cid
                &&& e.pid == pid
                &&& e.role == Role::Member
                &&& e.partition.id == pid
                &&& e.partition.collection_id == cid
                &&& e.partition.version == version + 1
                &&& e.simba == simba
                &&& e.index == index
            },
    {
        proof {
            lemma_find_store(self.stores@, cid, pid);
        }
        if self.find_idx(cid, pid).is_some() {
            return Ok(());
        }
        if version > 0 {
            if let Err(c) = check_partition_version(master_version, version) {
                return Err(c);
            }
        }
        let partition = Partition {
            id: pid,
            collection_id: cid,
            replicas,
            leader: String::new(),
            version: version + 1,
        };
        let entry = ServiceEntry { cid, pid, role: Role::Member, partition, simba, index };
        self.stores.push(entry);
        proof {
            assert forall|i: int, j: int|
                0 <= i < j < self.stores@.len() implies !((#[trigger] self.stores@[i]).cid == (
            #[trigger] self.stores@[j]).cid && self.stores@[i].pid == self.stores@[j].pid) by {
                if j == self.stores@.len() - 1 {
                    assert(self.stores@[i] == old(self).stores@[i]);
                }
            }
        }
        Ok(())
    }

    /// Removes a partition and shuts its engine down. Succeeds even when
    /// the partition is absent.
    pub fn offload_partition(&mut self, cid: u32, pid: u32) -> (r: Code)
        requires
            old(self).inv(),
        ensures
            final(self).inv(),
            r == Code::Success,
            find_store(old(self).stores@, cid, pid) < 0 ==> final(self).stores@ == old(
                self,
            ).stores@,
            find_store(old(self).stores@, cid, pid) >= 0 ==> final(self).stores@ == old(
                self,
            ).stores@.remove(find_store(old(self).stores@, cid, pid)),
    {
        match self.find_idx(cid, pid) {
            Some(i) => {
                let mut e = self.stores.remove(i);
                e.simba.stop();
                e.index.write(Event::Stop);
                e.simba.release();
                proof {
                    assert forall|a: int, b: int|
                        0 <= a < b < self.stores@.len() implies !((#[trigger] self.stores@[a]).cid
                        == (#[trigger] self.stores@[b]).cid && self.stores@[a].pid
                        == self.stores@[b].pid) by {
                        let oa = if a < i {
                            a
                        } else {
                            a + 1
                        };
                        let ob = if b < i {
                            b
                        } else {
                            b + 1
                        };
                        assert(self.stores@[a] == old(self).stores@[oa]);
                        assert(self.stores@[b] == old(self).stores@[ob]);
                    }
                    assert forall|a: int| 0 <= a < self.stores@.len() implies (
                    #[trigger] self.stores@[a]).simba.inv() && self.stores@[a].index.inv() by {
                        let oa = if a < i {
                            a
                        } else {
                            a + 1
                        };
                        assert(self.stores@[a] == old(self).stores@[oa]);
                    }
                }
                Code::Success
            },
            None => Code::Success,
        }
    }

    /// Applies a leader change reported by the consensus group: the slot
    /// becomes Leader exactly when the new leader is this node. Nothing
    /// else of the slot changes — in particular the engine and its rows
    /// survive every role change untouched.
    pub fn apply_leader_change(&mut self, cid: u32, pid: u32, leader_id: u64) -> (r: Result<
        (),
        Code,
    >)
        requires
            old(self).inv(),
        ensures
            final(self).inv(),
            find_store(old(self).stores@, cid, pid) < 0 ==> r == Err::<(), Code>(Code::InternalErr)
                && final(self).stores@ == old(self).stores@,
            find_store(old(self).stores@, cid, pid) >= 0 ==> r is Ok && {
                let i = find_store(old(self).stores@, cid, pid);
                let oe = old(self).stores@[i];
                let ne = final(self).stores@[i];
                &&& final(self).stores@.len() == old(self).stores@.len()
                &&& forall|j: int|
                    0 <= j < old(self).stores@.len() && j != i ==> final(self).stores@[j] == old(
                        self,
                    ).stores@[j]
                &&& ne.role == (if leader_id == old(self).server_id {
                    Role::Leader
                } else {
                    Role::Member
                })
                &&& ne.cid == oe.cid
                &&& ne.pid == oe.pid
                &&& ne.simba == oe.simba
                &&& ne.index == oe.index
                &&& ne.partition == oe.partition
            },
            final(self).server_id == old(self).server_id,
    {
        match self.find_idx(cid, pid) {
            Some(i) => {
                let to_leader = self.server_id == leader_id;
                let mut e = self.stores.remove(i);
                e.role = if to_leader {
                    Role::Leader
                } else {
                    Role::Member
                };
                self.stores.insert(i, e);
                proof {
                    assert(self.stores@ =~= old(self).stores@.update(
                        i as int,
                        self.stores@[i as int],
                    ));
                    assert forall|a: int, b: int|
                        0 <= a < b < self.stores@.len() implies !((#[trigger] self.stores@[a]).cid
                        == (#[trigger] self.stores@[b]).cid && self.stores@[a].pid
                        == self.stores@[b].pid) by {
                        assert(self.stores@[a].cid == old(self).stores@[a].cid
                            && self.stores@[a].pid == old(self).stores@[a].pid);
                        assert(self.stores@[b].cid == old(self).stores@[b].cid
                            && self.stores@[b].pid == old(self).stores@[b].pid);
                    }
                }
                Ok(())
            },
            None => Err(Code::InternalErr),
        }
    }

    /// The heartbeat body for the master: this node's identity and the
    /// metadata of every partition it currently leads, in registry order.
    pub fn take_heartbeat(&self, addr: String, zone: String) -> (r: PServer)
        ensures
            r.id == self.server_id,
            r.addr@ == addr@,
            r.zone@ == zone@,
            r.write_partitions@.len() == count_leaders_from(self.stores@, 0),
            forall|k: int|
                #![trigger r.write_partitions@[k]]
                0 <= k < r.write_partitions@.len() ==> exists|i: int|
                    0 <= i < self.stores@.len() && (#[trigger] self.stores@[i]).role
                        == Role::Leader && r.write_partitions@[k].id == self.stores@[i].partition.id
                        && r.write_partitions@[k].collection_id
                        == self.stores@[i].partition.collection_id && r.write_partitions@[k].version
                        == self.stores@[i].partition.version,
    {
        let mut wps: Vec<Partition> = Vec::new();
        let mut i: usize = 0;
        while i < self.stores.len()
            invariant
                i <= self.stores@.len(),
                wps@.len() + count_leaders_from(self.stores@, i as int) == count_leaders_from(
                    self.stores@,
                    0,
                ),
                forall|k: int|
                    #![trigger wps@[k]]
                    0 <= k < wps@.len() ==> exists|n: int|
                        0 <= n < self.stores@.len() && (#[trigger] self.stores@[n]).role
                            == Role::Leader && wps@[k].id == self.stores@[n].partition.id
                            && wps@[k].collection_id == self.stores@[n].partition.collection_id
                            && wps@[k].version == self.stores@[n].partition.version,
            decreases self.stores@.len() - i,
        {
            let e = &self.stores[i];
            match e.role {
                Role::Leader => {
                    wps.push(e.partition.duplicate());
                    proof {
                        assert(self.stores@[i as int].role == Role::Leader);
                        assert forall|k: int|
                            #![trigger wps@[k]]
                            0 <= k < wps@.len() implies exists|n: int|
                            0 <= n < self.stores@.len() && (#[trigger] self.stores@[n]).role
                                == Role::Leader && wps@[k].id == self.stores@[n].partition.id
                                && wps@[k].collection_id == self.stores@[n].partition.collection_id
                                && wps@[k].version == self.stores@[n].partition.version by {
                            if k == wps@.len() - 1 {
                                let n0 = i as int;
                                assert(0 <= n0 < self.stores@.len() && self.stores@[n0].role
                                    == Role::Leader && wps@[k].id == self.stores@[n0].partition.id
                                    && wps@[k].collection_id
                                    == self.stores@[n0].partition.collection_id && wps@[k].version
                                    == self.stores@[n0].partition.version);
                            }
                        }
                    }
                },
                Role::Member => {},
            }
            i = i + 1;
        }
        PServer { id: self.server_id, addr, write_partitions: wps, zone }
    }

    /// The leader-only write entry: validates the slot and role, then
    /// encodes the mutation for proposal to the replicated log.
    pub fn prepare_write(&self, cid: u32, pid: u32, m: &Mutation) -> (r: Result<Vec<u8>, Code>)
        requires
            m@.wf(),
        ensures
            ({
                let i = find_store(self.stores@, cid, pid);
                match r {
                    Ok(b) => i >= 0 && self.stores@[i].role == Role::Leader && b@ == enc_mutation(
                        m@,
                    ),
                    Err(c) => if i < 0 {
                        c == Code::NotFound
                    } else {
                        c == Code::PartitionNotLeader && self.stores@[i].role != Role::Leader
                    },
                }
            }),
    {
        match self.find_idx(cid, pid) {
            None => Err(Code::NotFound),
            Some(i) => {
                let e = &self.stores[i];
                match e.role {
                    Role::Leader => Ok(crate::codec::encode_mutation(m)),
                    Role::Member => Err(Code::PartitionNotLeader),
                }
            },
        }
    }

    /// Delivers one committed log entry to its partition: the engine
    /// applies it and the emitted index event, if any, enters the
    /// partition's index channel. Every other slot is untouched.
    pub fn apply_committed(&mut self, cid: u32, pid: u32, index: u64, data: &Vec<u8>) -> (r: Result<
        Code,
        Code,
    >)
        requires
            old(self).inv(),
            find_store(old(self).stores@, cid, pid) >= 0 ==> index == old(self).stores@[find_store(
                old(self).stores@,
                cid,
                pid,
            )].simba@.raft_index + 1,
        ensures
            final(self).inv(),
            find_store(old(self).stores@, cid, pid) < 0 ==> r == Err::<Code, Code>(Code::NotFound)
                && final(self).stores@ == old(self).stores@,
            find_store(old(self).stores@, cid, pid) >= 0 ==> r is Ok && {
                let i = find_store(old(self).stores@, cid, pid);
                let oe = old(self).stores@[i];
                let ne = final(self).stores@[i];
                &&& final(self).stores@.len() == old(self).stores@.len()
                &&& forall|j: int|
                    0 <= j < old(self).stores@.len() && j != i ==> final(self).stores@[j] == old(
                        self,
                    ).stores@[j]
                &&& ne.cid == oe.cid
                &&& ne.pid == oe.pid
                &&& ne.role == oe.role
                &&& ne.partition == oe.partition
                &&& ne.simba@ == apply_step(oe.simba@, index, data@)
                &&& ne.index@.postings == oe.index@.postings
                &&& ne.index@.queue == oe.index@.queue + step_events(oe.simba@, index, data@)
            },
    {
        match self.find_idx(cid, pid) {
            None => Err(Code::NotFound),
            Some(i) => {
                let mut e = self.stores.remove(i);
                let (code, ev) = e.simba.apply(index, data);
                let ghost oe = old(self).stores@[i as int];
                match ev {
                    Some(event) => {
                        e.index.write(event);
                        proof {
                            assert(e.index@.queue =~= oe.index@.queue + step_events(
                                oe.simba@,
                                index,
                                data@,
                            ));
                        }
                    },
                    None => {
                        proof {
                            assert(e.index@.queue =~= oe.index@.queue + step_events(
                                oe.simba@,
                                index,
                                data@,
                            ));
                        }
                    },
                }
                self.stores.insert(i, e);
                proof {
                    assert forall|a: int, b: int|
                        0 <= a < b < self.stores@.len() implies !((#[trigger] self.stores@[a]).cid
                        == (#[trigger] self.stores@[b]).cid && self.stores@[a].pid
                        == self.stores@[b].pid) by {
                        assert(self.stores@ =~= old(self).stores@.update(
                            i as int,
                            self.stores@[i as int],
                        ));
                        assert(self.stores@[a].cid == old(self).stores@[a].cid
                            && self.stores@[a].pid == old(self).stores@[a].pid);
                        assert(self.stores@[b].cid == old(self).stores@[b].cid
                            && self.stores@[b].pid == old(self).stores@[b].pid);
                    }
                    assert(self.stores@ =~= old(self).stores@.update(
                        i as int,
                        self.stores@[i as int],
                    ));
                }
                Ok(code)
            },
        }
    }

    /// Reads a document from the partition that holds it; served in any
    /// role.
    pub fn get(&self, cid: u32, pid: u32, id: &Vec<u8>, sort_key: &Vec<u8>) -> (r: Result<
        Document,
        Code,
    >)
        requires
            self.inv(),
        ensures
            ({
                let i = find_store(self.stores@, cid, pid);
                match r {
                    Ok(d) => i >= 0 && {
                        let v = self.stores@[i].simba@;
                        let k = find_key(v.docs, id@, sort_key@);
                        v.status == EngineStatus::Running && k >= 0 && d@ == v.docs[k].1
                    },
                    Err(c) => if i < 0 {
                        c == Code::NotFound
                    } else {
                        let v = self.stores@[i].simba@;
                        if v.status != EngineStatus::Running {
                            c == Code::EngineStopped
                        } else {
                            c == Code::NotFound && find_key(v.docs, id@, sort_key@) < 0
                        }
                    },
                }
            }),
    {
        match self.find_idx(cid, pid) {
            None => Err(Code::NotFound),
            Some(i) => self.stores[i].simba.get(id, sort_key),
        }
    }
}

// -------------------------------------------------------------- counting

/// Aggregated counts over a set of partitions.
#[derive(Debug)]
pub struct CountDocumentResponse {
    pub code: Code,
    pub estimate_count: u64,
    pub index_count: u64,
    pub db_count: u64,
}

/// Folds the row and index counts of the named partitions, saturating;
/// `None` when some partition is not hosted here.
pub open spec fn count_fold(
    s: Seq<ServiceEntry>,
    cpids: Seq<u64>,
    j: int,
    acc: (u64, u64),
) -> Option<(u64, u64)>
    decreases cpids.len() - j,
{
    if j < 0 || j >= cpids.len() {
        Some(acc)
    } else {
        let key = cpids[j];
        let i = find_store(s, (key >> 32) as u32, key as u32);
        if i < 0 {
            None
        } else {
            count_fold(
                s,
                cpids,
                j + 1,
                (
                    sat64(acc.0 + s[i].simba@.docs.len()),
                    sat64(acc.1 + s[i].index@.postings.len()),
                ),
            )
        }
    }
}

impl PartitionService {
    /// Sums the document and index counts of the partitions named by the
    /// packed ids. The estimate is taken from the authoritative row
    /// count. Fails `NotFound` when any named partition is absent.
    pub fn count(&self, cpids: &Vec<u64>) -> (r: Result<CountDocumentResponse, Code>)
        requires
            self.inv(),
        ensures
            match r {
                Ok(c) => count_fold(self.stores@, cpids@, 0, (0u64, 0u64)) == Some(
                    (c.db_count, c.index_count),
                ) && c.estimate_count == c.db_count && c.code == Code::Success,
                Err(code) => code == Code::NotFound && count_fold(
                    self.stores@,
                    cpids@,
                    0,
                    (0u64, 0u64),
                ) is None,
            },
    {
        let mut db: u64 = 0;
        let mut idx: u64 = 0;
        let mut j: usize = 0;
        while j < cpids.len()
            invariant
                j <= cpids@.len(),
                self.inv(),
                count_fold(self.stores@, cpids@, j as int, (db, idx)) == count_fold(
                    self.stores@,
                    cpids@,
                    0,
                    (0u64, 0u64),
                ),
            decreases cpids@.len() - j,
        {
            let key = cpids[j];
            let (cid, pid) = crate::meta::split_u32(key);
            match self.find_idx(cid, pid) {
                None => {
                    return Err(Code::NotFound);
                },
                Some(i) => {
                    let e = &self.stores[i];
                    db = crate::search::sat_add(db, e.simba.db_count());
                    idx = crate::search::sat_add(idx, e.index.count());
                },
            }
            j = j + 1;
        }
        Ok(
            CountDocumentResponse {
                code: Code::Success,
                estimate_count: db,
                index_count: idx,
                db_count: db,
            },
        )
    }
}

// ------------------------------------------------------ search gathering

/// Running summary of a merge fold: code, total, hits, info counters.
pub open spec fn resp_summary(r: SearchDocumentResponse) -> (
    Code,
    u64,
    Seq<Hit>,
    Option<(u64, u64, Seq<u8>)>,
) {
    (
        r.code,
        r.total,
        r.hits@,
        match r.info {
            Some(i) => Some((i.success, i.error, i.message@)),
            None => None,
        },
    )
}

/// One pairwise merge over summaries, exactly as
/// [`crate::search::merge_search_document_response`] combines responses.
pub open spec fn merge_step(
    st: (Code, u64, Seq<Hit>, Option<(u64, u64, Seq<u8>)>),
    r: SearchDocumentResponse,
) -> (Code, u64, Seq<Hit>, Option<(u64, u64, Seq<u8>)>) {
    let ta = match st.3 {
        Some(t) => (t.0 as int, t.1 as int, t.2),
        None => (1int, 0int, Seq::<u8>::empty()),
    };
    let tb = info_triple(r.info);
    (
        if st.0 == Code::Success {
            r.code
        } else {
            st.0
        },
        sat64(st.1 + r.total),
        st.2 + r.hits@,
        if st.3 is None && r.info is None {
            None
        } else {
            Some((sat64(ta.0 + tb.0), sat64(ta.1 + tb.1), ta.2 + tb.2))
        },
    )
}

/// The left fold of pairwise merges from response `j` on.
pub open spec fn fold_resps(
    rs: Seq<SearchDocumentResponse>,
    j: int,
    st: (Code, u64, Seq<Hit>, Option<(u64, u64, Seq<u8>)>),
) -> (Code, u64, Seq<Hit>, Option<(u64, u64, Seq<u8>)>)
    decreases rs.len() - j,
{
    if j < 0 || j >= rs.len() {
        st
    } else {
        fold_resps(rs, j + 1, merge_step(st, rs[j]))
    }
}

impl PartitionService {
    /// Gathers the partial responses of a scatter: folds them with the
    /// pairwise merge, sorts the hits stably by descending score (ties by
    /// collection name, then internal id) and truncates to `size`.
    pub fn search(responses: Vec<SearchDocumentResponse>, size: usize) -> (r: SearchDocumentResponse)
        requires
            responses@.len() > 0,
        ensures
            ({
                let st = fold_resps(responses@, 1, resp_summary(responses@[0]));
                &&& r.code == st.0
                &&& r.total == st.1
                &&& sorted_hits(r.hits@)
                &&& r.hits@ == (if sort_spec(st.2).len() <= size {
                    sort_spec(st.2)
                } else {
                    sort_spec(st.2).subrange(0, size as int)
                })
                &&& (st.3 is None <==> r.info is None)
                &&& (st.3 matches Some(t) ==> r.info matches Some(i) && i.success == t.0 && i.error
                    == t.1 && i.message@ == t.2)
            }),
    {
        let ghost all = responses@;
        let n0: usize = responses.len();
        proof {
            assert(all.len() == n0);
        }
        let mut rest = responses;
        let mut acc = rest.remove(0);
        proof {
            assert(rest@ =~= all.subrange(1, all.len() as int));
        }
        let mut k: usize = 1;
        while rest.len() > 0
            invariant
                1 <= k <= all.len(),
                all.len() <= usize::MAX,
                k + rest@.len() == all.len(),
                rest@ == all.subrange(k as int, all.len() as int),
                fold_resps(all, k as int, resp_summary(acc)) == fold_resps(
                    all,
                    1,
                    resp_summary(all[0]),
                ),
            decreases rest@.len(),
        {
            let nxt = rest.remove(0);
            proof {
                assert(nxt == all[k as int]);
                assert(rest@ =~= all.subrange(k as int + 1, all.len() as int));
            }
            let ghost pre = resp_summary(acc);
            acc = crate::search::merge_search_document_response(acc, nxt);
            proof {
                let ms = merge_step(pre, all[k as int]);
                assert(resp_summary(acc).0 == ms.0);
                assert(resp_summary(acc).1 == ms.1);
                assert(resp_summary(acc).2 =~= ms.2);
                if pre.3 is None && all[k as int].info is None {
                    assert(resp_summary(acc).3 is None && ms.3 is None);
                } else {
                    assert(acc.info is Some);
                    let t1 = resp_summary(acc).3.unwrap();
                    let t2 = ms.3.unwrap();
                    assert(t1.0 == t2.0);
                    assert(t1.1 == t2.1);
                    assert(t1.2 =~= t2.2);
                    assert(resp_summary(acc).3 == ms.3);
                }
                assert(resp_summary(acc) == ms);
            }
            k = k + 1;
        }
        let ghost st = fold_resps(all, 1, resp_summary(all[0]));
        proof {
            assert(resp_summary(acc) == st);
        }
        let sorted = crate::search::sort_hits(acc.hits);
        let mut hits = sorted;
        crate::search::truncate_hits(&mut hits, size);
        SearchDocumentResponse { code: acc.code, total: acc.total, hits, info: acc.info }
    }
}

} // verus!
