//! The per-partition engine ("Simba"): the apply target of the replicated
//! log. It owns the partition's key-value state — live document rows keyed
//! by internal id, the external-key lookup, the last assigned internal id
//! and the last applied log index — and turns committed mutations into
//! state changes plus index events, in strict commit order.

use vstd::prelude::*;

use crate::codec::dec_mutation;
use crate::codes::Code;
use crate::doc::{DocView, Document, Mutation, MutationView, WriteType};
use crate::indexer::Event;

verus! {

/// Lifecycle state of a partition engine.
#[derive(Clone, Copy, PartialEq, Eq, Structural, Debug)]
pub enum EngineStatus {
    Running,
    Stopping,
    Released,
    Faulted,
}

/// Mathematical image of a [`Simba`] engine: the live rows in insertion
/// order, the id and log watermarks, and the lifecycle state.
#[verifier::ext_equal]
pub struct SimbaView {
    pub docs: Seq<(u32, DocView)>,
    pub max_iid: u32,
    pub raft_index: u64,
    pub status: EngineStatus,
}

/// Does document `d` carry the external key `(id, sk)`?
pub open spec fn key_is(d: DocView, id: Seq<u8>, sk: Seq<u8>) -> bool {
    d.id == id && d.sort_key == sk
}

/// Index of the first row holding the external key `(id, sk)`, or -1.
pub open spec fn find_key(docs: Seq<(u32, DocView)>, id: Seq<u8>, sk: Seq<u8>) -> int
    decreases docs.len(),
{
    if docs.len() == 0 {
        -1
    } else if key_is(docs[0].1, id, sk) {
        0
    } else {
        let r = find_key(docs.drop_first(), id, sk);
        if r < 0 {
            -1
        } else {
            r + 1
        }
    }
}

/// `find_key` returns -1 exactly when no row matches, and otherwise the
/// least matching index.
pub proof fn lemma_find_key(docs: Seq<(u32, DocView)>, id: Seq<u8>, sk: Seq<u8>)
    ensures
        find_key(docs, id, sk) < 0 ==> find_key(docs, id, sk) == -1 && forall|i: int|
            0 <= i < docs.len() ==> !key_is(#[trigger] docs[i].1, id, sk),
        find_key(docs, id, sk) >= 0 ==> find_key(docs, id, sk) < docs.len() && key_is(
            docs[find_key(docs, id, sk)].1,
            id,
            sk,
        ) && forall|i: int| 0 <= i < find_key(docs, id, sk) ==> !key_is(
            #[trigger] docs[i].1,
            id,
            sk,
        ),
    decreases docs.len(),
{
    if docs.len() > 0 {
        if !key_is(docs[0].1, id, sk) {
            let rest = docs.drop_first();
            lemma_find_key(rest, id, sk);
            let kr = find_key(rest, id, sk);
            if kr < 0 {
                assert forall|i: int| 0 <= i < docs.len() implies !key_is(
                    #[trigger] docs[i].1,
                    id,
                    sk,
                ) by {
                    if i > 0 {
                        assert(docs[i] == rest[i - 1]);
                    }
                }
            } else {
                assert(docs[kr + 1] == rest[kr]);
                assert forall|i: int| 0 <= i < kr + 1 implies !key_is(
                    #[trigger] docs[i].1,
                    id,
                    sk,
                ) by {
                    if i > 0 {
                        assert(docs[i] == rest[i - 1]);
                    }
                }
            }
        }
    }
}

/// If row `i` matches and no earlier row does, `find_key` returns `i`.
pub proof fn lemma_find_key_is(docs: Seq<(u32, DocView)>, id: Seq<u8>, sk: Seq<u8>, i: int)
    requires
        0 <= i < docs.len(),
        key_is(docs[i].1, id, sk),
        forall|j: int| 0 <= j < i ==> !key_is(#[trigger] docs[j].1, id, sk),
    ensures
        find_key(docs, id, sk) == i,
{
    lemma_find_key(docs, id, sk);
    let k = find_key(docs, id, sk);
    if k < 0 {
        assert(!key_is(docs[i].1, id, sk));
    } else if k < i {
        assert(!key_is(docs[k].1, id, sk));
    } else if k > i {
        assert(!key_is(docs[i].1, id, sk));
    }
}

/// Index of the row with internal id `iid`, or -1.
pub open spec fn find_iid(docs: Seq<(u32, DocView)>, iid: u32) -> int
    decreases docs.len(),
{
    if docs.len() == 0 {
        -1
    } else if docs[0].0 == iid {
        0
    } else {
        let r = find_iid(docs.drop_first(), iid);
        if r < 0 {
            -1
        } else {
            r + 1
        }
    }
}

/// `find_iid` returns -1 exactly when no row carries `iid`, and otherwise
/// an index carrying it.
pub proof fn lemma_find_iid(docs: Seq<(u32, DocView)>, iid: u32)
    ensures
        find_iid(docs, iid) < 0 ==> find_iid(docs, iid) == -1 && forall|i: int|
            0 <= i < docs.len() ==> (#[trigger] docs[i]).0 != iid,
        find_iid(docs, iid) >= 0 ==> find_iid(docs, iid) < docs.len() && docs[find_iid(
            docs,
            iid,
        )].0 == iid,
    decreases docs.len(),
{
    if docs.len() > 0 {
        if docs[0].0 != iid {
            let rest = docs.drop_first();
            lemma_find_iid(rest, iid);
            if find_iid(rest, iid) < 0 {
                assert forall|i: int| 0 <= i < docs.len() implies (#[trigger] docs[i]).0
                    != iid by {
                    if i > 0 {
                        assert(docs[i] == rest[i - 1]);
                    }
                }
            } else {
                assert(docs[find_iid(rest, iid) + 1] == rest[find_iid(rest, iid)]);
            }
        }
    }
}

/// Well-formedness of an engine state: internal ids are nonzero, unique and
/// no larger than the watermark; external keys are unique (at most one live
/// row per `(id, sort_key)`); every row is codec-safe; and the row count
/// never exceeds the id watermark.
pub open spec fn view_inv(v: SimbaView) -> bool {
    &&& forall|i: int|
        0 <= i < v.docs.len() ==> (#[trigger] v.docs[i]).0 != 0 && v.docs[i].0 <= v.max_iid
            && v.docs[i].1.wf()
    &&& forall|i: int, j: int|
        0 <= i < j < v.docs.len() ==> (#[trigger] v.docs[i].0) != (#[trigger] v.docs[j].0)
    &&& forall|i: int, j: int|
        0 <= i < j < v.docs.len() ==> !((#[trigger] v.docs[i].1.id) == (#[trigger] v.docs[j].1.id)
            && v.docs[i].1.sort_key == v.docs[j].1.sort_key)
    &&& v.docs.len() <= v.max_iid
}

/// The state with only the applied-log watermark advanced.
pub open spec fn advanced(s: SimbaView, index: u64) -> SimbaView {
    SimbaView { docs: s.docs, max_iid: s.max_iid, raft_index: index, status: s.status }
}

/// Outcome of applying one mutation: the next state, the outcome code
/// reported to the commit waiter, and the index event emitted, if any.
#[verifier::ext_equal]
pub struct ApplyOut {
    pub post: SimbaView,
    pub code: Code,
    pub event: Option<Event>,
}

/// The write path shared by `Create`, `Put`, `Update` and `Upsert`: mint
/// the next internal id, drop the prior row of the key if one exists, and
/// append the new row. `prior` is 0 when the key was absent.
pub open spec fn spec_write(s: SimbaView, index: u64, d: DocView, k: int, prior: u32) -> ApplyOut {
    if s.max_iid == u32::MAX {
        ApplyOut { post: advanced(s, index), code: Code::InternalErr, event: None }
    } else {
        let new_iid = (s.max_iid + 1) as u32;
        let base = if k < 0 {
            s.docs
        } else {
            s.docs.remove(k)
        };
        ApplyOut {
            post: SimbaView {
                docs: base.push((new_iid, d)),
                max_iid: new_iid,
                raft_index: index,
                status: s.status,
            },
            code: Code::Success,
            event: Some(Event::Update(prior, new_iid)),
        }
    }
}

/// The write-type table applied to one committed mutation. Conflicts
/// (`Create` on a present key, `Update` on an absent key) fail without
/// touching the rows; the applied-log watermark always advances.
pub open spec fn spec_apply(s: SimbaView, index: u64, m: MutationView) -> ApplyOut {
    let k = find_key(s.docs, m.doc.id, m.doc.sort_key);
    let prior: u32 = if k < 0 {
        0
    } else {
        s.docs[k].0
    };
    match m.write_type {
        WriteType::Create => {
            if k >= 0 {
                ApplyOut { post: advanced(s, index), code: Code::AlreadyExists, event: None }
            } else {
                spec_write(s, index, m.doc, k, prior)
            }
        },
        WriteType::Update => {
            if k < 0 {
                ApplyOut { post: advanced(s, index), code: Code::NotFound, event: None }
            } else {
                spec_write(s, index, m.doc, k, prior)
            }
        },
        WriteType::Put => spec_write(s, index, m.doc, k, prior),
        WriteType::Upsert => spec_write(s, index, m.doc, k, prior),
        WriteType::Delete => {
            if k < 0 {
                ApplyOut { post: advanced(s, index), code: Code::Success, event: None }
            } else {
                ApplyOut {
                    post: SimbaView {
                        docs: s.docs.remove(k),
                        max_iid: s.max_iid,
                        raft_index: index,
                        status: s.status,
                    },
                    code: Code::Success,
                    event: Some(Event::Delete(prior)),
                }
            }
        },
    }
}

/// Removing a row keeps the engine invariant, and shifts the later rows
/// down by one.
pub proof fn lemma_inv_remove(v: SimbaView, k: int)
    requires
        view_inv(v),
        0 <= k < v.docs.len(),
    ensures
        view_inv(SimbaView { docs: v.docs.remove(k), max_iid: v.max_iid, raft_index: v.raft_index, status: v.status }),
        v.docs.remove(k).len() == v.docs.len() - 1,
        forall|i: int|
            0 <= i < v.docs.len() - 1 ==> #[trigger] v.docs.remove(k)[i] == if i < k {
                v.docs[i]
            } else {
                v.docs[i + 1]
            },
{
    let r = v.docs.remove(k);
    assert forall|i: int| 0 <= i < v.docs.len() - 1 implies #[trigger] r[i] == if i < k {
        v.docs[i]
    } else {
        v.docs[i + 1]
    } by {
        assert(r == v.docs.subrange(0, k) + v.docs.subrange(k + 1, v.docs.len() as int));
    }
}

/// Applying any mutation preserves the engine invariant — in particular
/// key uniqueness: at most one live row stays reachable per external key.
pub proof fn lemma_apply_preserves_inv(s: SimbaView, index: u64, m: MutationView)
    requires
        view_inv(s),
        m.wf(),
    ensures
        view_inv(spec_apply(s, index, m).post),
        spec_apply(s, index, m).post.status == s.status,
{
    let k = find_key(s.docs, m.doc.id, m.doc.sort_key);
    lemma_find_key(s.docs, m.doc.id, m.doc.sort_key);
    if k >= 0 {
        lemma_inv_remove(s, k);
    }
    let o = spec_apply(s, index, m);
    let is_write = match m.write_type {
        WriteType::Create => k < 0,
        WriteType::Update => k >= 0,
        WriteType::Put => true,
        WriteType::Upsert => true,
        WriteType::Delete => false,
    };
    if is_write && s.max_iid != u32::MAX {
        let new_iid = (s.max_iid + 1) as u32;
        let base = if k < 0 {
            s.docs
        } else {
            s.docs.remove(k)
        };
        // No surviving row still carries the written key: the only match
        // was at `k`, and it was removed.
        assert forall|i: int| 0 <= i < base.len() implies !key_is(
            #[trigger] base[i].1,
            m.doc.id,
            m.doc.sort_key,
        ) by {
            if k >= 0 {
                if i < k {
                    assert(base[i] == s.docs[i]);
                } else {
                    assert(base[i] == s.docs[i + 1]);
                    if key_is(s.docs[i + 1].1, m.doc.id, m.doc.sort_key) {
                        assert(s.docs[k].1.id == s.docs[i + 1].1.id && s.docs[k].1.sort_key
                            == s.docs[i + 1].1.sort_key);
                    }
                }
            }
        }
        let post = o.post;
        assert(post.docs == base.push((new_iid, m.doc)));
        assert forall|i: int|
            0 <= i < post.docs.len() implies (#[trigger] post.docs[i]).0 != 0 && post.docs[i].0
            <= post.max_iid && post.docs[i].1.wf() by {
            if i < base.len() {
                assert(post.docs[i] == base[i]);
            } else {
                assert(post.docs[i] == (new_iid, m.doc));
            }
        }
        assert forall|i: int, j: int|
            0 <= i < j < post.docs.len() implies (#[trigger] post.docs[i].0) != (
        #[trigger] post.docs[j].0) by {
            if j < base.len() {
            } else {
                assert(post.docs[j] == (new_iid, m.doc));
                assert(post.docs[i] == base[i]);
                assert(base[i].0 <= s.max_iid);
            }
        }
        assert forall|i: int, j: int|
            0 <= i < j < post.docs.len() implies !((#[trigger] post.docs[i].1.id) == (
        #[trigger] post.docs[j].1.id) && post.docs[i].1.sort_key == post.docs[j].1.sort_key) by {
            if j < base.len() {
            } else {
                assert(post.docs[j] == (new_iid, m.doc));
                assert(post.docs[i] == base[i]);
                assert(!key_is(base[i].1, m.doc.id, m.doc.sort_key));
            }
        }
    }
}

/// One step of the log: decode, then apply. An undecodable entry (or any
/// entry, once the engine is no longer running) changes no rows, but a
/// decoded one always advances the applied-log watermark.
pub open spec fn apply_step(s: SimbaView, index: u64, data: Seq<u8>) -> SimbaView {
    if s.status != EngineStatus::Running {
        s
    } else {
        match dec_mutation(data) {
            Some(m) => spec_apply(s, index, m).post,
            None => advanced(s, index),
        }
    }
}

/// The index events emitted by one step, in commit order.
pub open spec fn step_events(s: SimbaView, index: u64, data: Seq<u8>) -> Seq<Event> {
    if s.status != EngineStatus::Running {
        Seq::empty()
    } else {
        match dec_mutation(data) {
            Some(m) => match spec_apply(s, index, m).event {
                Some(e) => seq![e],
                None => Seq::empty(),
            },
            None => Seq::empty(),
        }
    }
}

/// Folding a whole committed sequence over the engine. The final state is
/// a function of the start state and the entries alone, so a replay of the
/// same log reproduces the same state.
pub open spec fn apply_all(s: SimbaView, entries: Seq<(u64, Seq<u8>)>) -> SimbaView
    decreases entries.len(),
{
    if entries.len() == 0 {
        s
    } else {
        apply_all(apply_step(s, entries[0].0, entries[0].1), entries.drop_first())
    }
}

/// All index events emitted while folding a committed sequence.
pub open spec fn events_of(s: SimbaView, entries: Seq<(u64, Seq<u8>)>) -> Seq<Event>
    decreases entries.len(),
{
    if entries.len() == 0 {
        Seq::empty()
    } else {
        step_events(s, entries[0].0, entries[0].1) + events_of(
            apply_step(s, entries[0].0, entries[0].1),
            entries.drop_first(),
        )
    }
}

/// Peeling the last entry off a fold.
pub proof fn lemma_apply_all_snoc(s: SimbaView, entries: Seq<(u64, Seq<u8>)>)
    requires
        entries.len() > 0,
    ensures
        apply_all(s, entries) == apply_step(
            apply_all(s, entries.drop_last()),
            entries.last().0,
            entries.last().1,
        ),
        events_of(s, entries) == events_of(s, entries.drop_last()) + step_events(
            apply_all(s, entries.drop_last()),
            entries.last().0,
            entries.last().1,
        ),
    decreases entries.len(),
{
    if entries.len() == 1 {
        assert(entries.drop_last() =~= Seq::<(u64, Seq<u8>)>::empty());
        assert(entries.drop_first() =~= Seq::<(u64, Seq<u8>)>::empty());
        assert(entries.last() == entries[0]);
        assert(events_of(s, entries) == step_events(s, entries[0].0, entries[0].1) + events_of(
            apply_step(s, entries[0].0, entries[0].1),
            entries.drop_first(),
        ));
        assert(events_of(s, entries) =~= events_of(s, entries.drop_last()) + step_events(
            apply_all(s, entries.drop_last()),
            entries.last().0,
            entries.last().1,
        ));
    } else {
        let s1 = apply_step(s, entries[0].0, entries[0].1);
        let rest = entries.drop_first();
        lemma_apply_all_snoc(s1, rest);
        assert(rest.drop_last() =~= entries.drop_last().drop_first());
        assert(rest.last() == entries.last());
        assert(entries.drop_last()[0] == entries[0]);
        assert(events_of(s, entries) == step_events(s, entries[0].0, entries[0].1) + events_of(
            s1,
            rest,
        ));
        assert(step_events(s, entries[0].0, entries[0].1) + (events_of(s1, rest.drop_last())
            + step_events(apply_all(s1, rest.drop_last()), rest.last().0, rest.last().1)) =~= (
        step_events(s, entries[0].0, entries[0].1) + events_of(s1, rest.drop_last()))
            + step_events(apply_all(s1, rest.drop_last()), rest.last().0, rest.last().1));
        assert(events_of(s, entries.drop_last()) == step_events(s, entries[0].0, entries[0].1)
            + events_of(s1, entries.drop_last().drop_first()));
        assert(events_of(s1, entries.drop_last().drop_first()) == events_of(s1, rest.drop_last()));
        assert(apply_all(s, entries.drop_last()) == apply_all(s1, rest.drop_last()));
        assert(events_of(s, entries) =~= events_of(s, entries.drop_last()) + step_events(
            apply_all(s, entries.drop_last()),
            entries.last().0,
            entries.last().1,
        ));
    }
}

// ----------------------------------------------------------------- engine

/// Lifts the shallow view of the row vector to the mathematical one.
pub open spec fn docs_view(s: Seq<(u32, Document)>) -> Seq<(u32, DocView)> {
    s.map_values(|e: (u32, Document)| (e.0, e.1@))
}

/// The per-partition engine.
pub struct Simba {
    docs: Vec<(u32, Document)>,
    max_iid: u32,
    raft_index: u64,
    status: EngineStatus,
}

impl View for Simba {
    type V = SimbaView;

    closed spec fn view(&self) -> SimbaView {
        SimbaView {
            docs: docs_view(self.docs@),
            max_iid: self.max_iid,
            raft_index: self.raft_index,
            status: self.status,
        }
    }
}

impl Simba {
    pub open spec fn inv(&self) -> bool {
        view_inv(self@)
    }

    /// A fresh, empty partition engine: no rows, watermarks at zero,
    /// running.
    pub fn new() -> (s: Simba)
        ensures
            s.inv(),
            s@.docs.len() == 0,
            s@.max_iid == 0,
            s@.raft_index == 0,
            s@.status == EngineStatus::Running,
    {
        let s = Simba { docs: Vec::new(), max_iid: 0, raft_index: 0, status: EngineStatus::Running };
        proof {
            assert(docs_view(s.docs@) =~= Seq::<(u32, DocView)>::empty());
        }
        s
    }

    /// Rebuilds an engine from its persistent image (used by snapshot
    /// load); the caller establishes the invariant from the image's origin.
    pub fn from_parts(docs: Vec<(u32, Document)>, max_iid: u32, raft_index: u64) -> (s: Simba)
        ensures
            s@ == (SimbaView {
                docs: docs_view(docs@),
                max_iid,
                raft_index,
                status: EngineStatus::Running,
            }),
    {
        Simba { docs, max_iid, raft_index, status: EngineStatus::Running }
    }

    /// Scans for the row holding external key `(id, sk)`.
    fn find_entry(&self, id: &Vec<u8>, sk: &Vec<u8>) -> (r: Option<usize>)
        ensures
            match r {
                Some(i) => i < self@.docs.len() && find_key(self@.docs, id@, sk@) == i,
                None => find_key(self@.docs, id@, sk@) == -1,
            },
    {
        let mut i: usize = 0;
        while i < self.docs.len()
            invariant
                i <= self.docs.len(),
                self@.docs.len() == self.docs.len(),
                forall|j: int| 0 <= j < i ==> !key_is(#[trigger] self@.docs[j].1, id@, sk@),
            decreases self.docs.len() - i,
        {
            let e = &self.docs[i];
            if bytes_match(&e.1.id, id) && bytes_match(&e.1.sort_key, sk) {
                proof {
                    assert(self@.docs[i as int].1 == self.docs@[i as int].1@);
                    lemma_find_key_is(self@.docs, id@, sk@, i as int);
                }
                return Some(i);
            }
            proof {
                assert(self@.docs[i as int].1 == self.docs@[i as int].1@);
            }
            i = i + 1;
        }
        proof {
            lemma_find_key(self@.docs, id@, sk@);
            if find_key(self@.docs, id@, sk@) >= 0 {
                assert(key_is(self@.docs[find_key(self@.docs, id@, sk@)].1, id@, sk@));
            }
        }
        None
    }

    /// Scans for the row holding internal id `iid`.
    fn find_iid_entry(&self, iid: u32) -> (r: Option<usize>)
        ensures
            match r {
                Some(i) => i < self@.docs.len() && self@.docs[i as int].0 == iid,
                None => find_iid(self@.docs, iid) == -1,
            },
    {
        let mut i: usize = 0;
        while i < self.docs.len()
            invariant
                i <= self.docs.len(),
                self@.docs.len() == self.docs.len(),
                forall|j: int| 0 <= j < i ==> (#[trigger] self@.docs[j]).0 != iid,
            decreases self.docs.len() - i,
        {
            let e = &self.docs[i];
            if e.0 == iid {
                proof {
                    assert(self@.docs[i as int].0 == self.docs@[i as int].0);
                }
                return Some(i);
            }
            proof {
                assert(self@.docs[i as int].0 == self.docs@[i as int].0);
            }
            i = i + 1;
        }
        proof {
            lemma_find_iid(self@.docs, iid);
            if find_iid(self@.docs, iid) >= 0 {
                assert(self@.docs[find_iid(self@.docs, iid)].0 == iid);
            }
        }
        None
    }

    /// Applies one decoded committed mutation in commit order. When the
    /// engine is running the result is exactly [`spec_apply`]; when it is
    /// not, nothing changes and the waiter sees `EngineStopped`.
    pub fn apply_mutation(&mut self, index: u64, m: &Mutation) -> (r: (Code, Option<Event>))
        requires
            old(self).inv(),
            m@.wf(),
            index == old(self)@.raft_index + 1,
        ensures
            final(self).inv(),
            old(self)@.status == EngineStatus::Running ==> {
                let o = spec_apply(old(self)@, index, m@);
                &&& final(self)@ == o.post
                &&& r.0 == o.code
                &&& r.1 == o.event
            },
            old(self)@.status != EngineStatus::Running ==> final(self)@ == old(self)@ && r.0
                == Code::EngineStopped && r.1 is None,
    {
        match self.status {
            EngineStatus::Running => {},
            _ => {
                return (Code::EngineStopped, None);
            },
        }
        let ghost s0 = self@;
        let k_opt = self.find_entry(&m.doc.id, &m.doc.sort_key);
        let ghost k = find_key(s0.docs, m@.doc.id, m@.doc.sort_key);
        proof {
            lemma_find_key(s0.docs, m@.doc.id, m@.doc.sort_key);
            lemma_apply_preserves_inv(s0, index, m@);
        }
        let prior: u32 = match k_opt {
            Some(i) => self.docs[i].0,
            None => 0,
        };
        let is_write: bool = match m.write_type {
            WriteType::Create => {
                if k_opt.is_some() {
                    self.raft_index = index;
                    proof {
                        assert(self@ =~= spec_apply(s0, index, m@).post);
                    }
                    return (Code::AlreadyExists, None);
                }
                true
            },
            WriteType::Update => {
                if k_opt.is_none() {
                    self.raft_index = index;
                    proof {
                        assert(self@ =~= spec_apply(s0, index, m@).post);
                    }
                    return (Code::NotFound, None);
                }
                true
            },
            WriteType::Put => true,
            WriteType::Upsert => true,
            WriteType::Delete => false,
        };
        if is_write {
            if self.max_iid == u32::MAX {
                self.raft_index = index;
                proof {
                    assert(self@ =~= spec_apply(s0, index, m@).post);
                }
                return (Code::InternalErr, None);
            }
            let new_iid = self.max_iid + 1;
            if let Some(i) = k_opt {
                self.docs.remove(i);
                proof {
                    assert(docs_view(self.docs@) =~= s0.docs.remove(k));
                }
            }
            self.docs.push((new_iid, m.doc.duplicate()));
            self.max_iid = new_iid;
            self.raft_index = index;
            proof {
                let base = if k < 0 {
                    s0.docs
                } else {
                    s0.docs.remove(k)
                };
                assert(docs_view(self.docs@) =~= base.push((new_iid, m@.doc)));
                assert(self@ =~= spec_apply(s0, index, m@).post);
            }
            (Code::Success, Some(Event::Update(prior, new_iid)))
        } else {
            match k_opt {
                None => {
                    self.raft_index = index;
                    proof {
                        assert(self@ =~= spec_apply(s0, index, m@).post);
                    }
                    (Code::Success, None)
                },
                Some(i) => {
                    self.docs.remove(i);
                    self.raft_index = index;
                    proof {
                        assert(docs_view(self.docs@) =~= s0.docs.remove(k));
                        assert(self@ =~= spec_apply(s0, index, m@).post);
                    }
                    (Code::Success, Some(Event::Delete(prior)))
                },
            }
        }
    }

    /// Applies one committed log entry: decodes the payload, then applies
    /// it. An undecodable payload reports `ParamError` to the waiter; the
    /// applied-log watermark still advances.
    pub fn apply(&mut self, index: u64, data: &Vec<u8>) -> (r: (Code, Option<Event>))
        requires
            old(self).inv(),
            index == old(self)@.raft_index + 1,
        ensures
            final(self).inv(),
            final(self)@ == apply_step(old(self)@, index, data@),
            old(self)@.status == EngineStatus::Running ==> match dec_mutation(data@) {
                Some(m) => r.0 == spec_apply(old(self)@, index, m).code && r.1 == spec_apply(
                    old(self)@,
                    index,
                    m,
                ).event,
                None => r.0 == Code::ParamError && r.1 is None,
            },
            old(self)@.status != EngineStatus::Running ==> r.0 == Code::EngineStopped && r.1
                is None,
            step_events(old(self)@, index, data@) == match r.1 {
                Some(e) => seq![e],
                None => Seq::<Event>::empty(),
            },
    {
        match self.status {
            EngineStatus::Running => {},
            _ => {
                return (Code::EngineStopped, None);
            },
        }
        match crate::codec::decode_mutation(data) {
            Some(m) => self.apply_mutation(index, &m),
            None => {
                self.raft_index = index;
                proof {
                    assert(self@ =~= advanced(old(self)@, index));
                }
                (Code::ParamError, None)
            },
        }
    }

    /// Looks a document up by its external key; served in any role. Fails
    /// `NotFound` exactly when no live row carries the key, and
    /// `EngineStopped` when the engine is not running.
    pub fn get(&self, id: &Vec<u8>, sort_key: &Vec<u8>) -> (r: Result<Document, Code>)
        requires
            self.inv(),
        ensures
            ({
                let k = find_key(self@.docs, id@, sort_key@);
                match r {
                    Ok(d) => self@.status == EngineStatus::Running && k >= 0 && d@
                        == self@.docs[k].1,
                    Err(c) => if self@.status != EngineStatus::Running {
                        c == Code::EngineStopped
                    } else {
                        c == Code::NotFound && k < 0
                    },
                }
            }),
    {
        match self.status {
            EngineStatus::Running => {},
            _ => {
                return Err(Code::EngineStopped);
            },
        }
        match self.find_entry(id, sort_key) {
            Some(i) => {
                proof {
                    assert(self@.docs[i as int].1 == self.docs@[i as int].1@);
                }
                Ok(self.docs[i].1.duplicate())
            },
            None => Err(Code::NotFound),
        }
    }

    /// Reads the row of internal id `iid`, as the index worker does when
    /// it rewrites a document.
    pub fn get_doc_by_iid(&self, iid: u32) -> (r: Option<Document>)
        requires
            self.inv(),
        ensures
            match r {
                Some(d) => exists|i: int|
                    0 <= i < self@.docs.len() && (#[trigger] self@.docs[i]).0 == iid
                        && self@.docs[i].1 == d@,
                None => forall|i: int| 0 <= i < self@.docs.len() ==> (#[trigger] self@.docs[i]).0 != iid,
            },
    {
        match self.find_iid_entry(iid) {
            Some(i) => {
                proof {
                    assert(self@.docs[i as int].1 == self.docs@[i as int].1@);
                }
                Some(self.docs[i].1.duplicate())
            },
            None => {
                proof {
                    lemma_find_iid(self@.docs, iid);
                }
                None
            },
        }
    }

    /// Number of live rows.
    pub fn num_rows(&self) -> (r: usize)
        ensures
            r == self@.docs.len(),
    {
        self.docs.len()
    }

    /// Borrows one live row, in insertion order.
    pub fn row(&self, i: usize) -> (r: &(u32, Document))
        requires
            i < self@.docs.len(),
        ensures
            r.0 == self@.docs[i as int].0,
            r.1@ == self@.docs[i as int].1,
    {
        proof {
            assert(self@.docs[i as int] == (self.docs@[i as int].0, self.docs@[i as int].1@));
        }
        &self.docs[i]
    }

    /// Number of live rows (the `db_count` of `count()`).
    pub fn db_count(&self) -> (r: u64)
        ensures
            r == self@.docs.len(),
    {
        self.docs.len() as u64
    }

    /// Last applied log index.
    pub fn get_raft_index(&self) -> (r: u64)
        ensures
            r == self@.raft_index,
    {
        self.raft_index
    }

    /// Last assigned internal id.
    pub fn get_max_iid(&self) -> (r: u32)
        ensures
            r == self@.max_iid,
    {
        self.max_iid
    }

    pub fn is_running(&self) -> (r: bool)
        ensures
            r == (self@.status == EngineStatus::Running),
    {
        match self.status {
            EngineStatus::Running => true,
            _ => false,
        }
    }

    /// Begins shutdown: no further operation succeeds.
    pub fn stop(&mut self)
        ensures
            final(self)@ == (SimbaView {
                docs: old(self)@.docs,
                max_iid: old(self)@.max_iid,
                raft_index: old(self)@.raft_index,
                status: EngineStatus::Stopping,
            }),
            old(self).inv() ==> final(self).inv(),
    {
        self.status = EngineStatus::Stopping;
    }

    /// Final release after all readers drained.
    pub fn release(&mut self)
        ensures
            final(self)@ == (SimbaView {
                docs: old(self)@.docs,
                max_iid: old(self)@.max_iid,
                raft_index: old(self)@.raft_index,
                status: EngineStatus::Released,
            }),
            old(self).inv() ==> final(self).inv(),
    {
        self.status = EngineStatus::Released;
    }

    /// Marks the partition faulted after a fatal storage error reported by
    /// the surrounding process.
    pub fn mark_faulted(&mut self)
        ensures
            final(self)@ == (SimbaView {
                docs: old(self)@.docs,
                max_iid: old(self)@.max_iid,
                raft_index: old(self)@.raft_index,
                status: EngineStatus::Faulted,
            }),
            old(self).inv() ==> final(self).inv(),
    {
        self.status = EngineStatus::Faulted;
    }

    /// Replays committed entries in order, as crash recovery does after
    /// reading the applied-log watermark; returns the index events the
    /// entries emit, in commit order. The result state and events equal
    /// the fold of the same entries, so replay reproduces live application.
    pub fn replay(&mut self, entries: &Vec<(u64, Vec<u8>)>) -> (events: Vec<Event>)
        requires
            old(self).inv(),
            old(self)@.status == EngineStatus::Running,
            forall|i: int|
                0 <= i < entries@.len() ==> (#[trigger] entries@[i]).0 == old(self)@.raft_index + 1
                    + i,
        ensures
            final(self).inv(),
            final(self)@ == apply_all(old(self)@, entries_view(entries@)),
            events@ == events_of(old(self)@, entries_view(entries@)),
    {
        let ghost s0 = self@;
        let ghost ev = entries_view(entries@);
        let mut events: Vec<Event> = Vec::new();
        let mut j: usize = 0;
        proof {
            assert(ev.subrange(0, 0) =~= Seq::<(u64, Seq<u8>)>::empty());
        }
        while j < entries.len()
            invariant
                j <= entries.len(),
                ev == entries_view(entries@),
                ev.len() == entries@.len(),
                forall|i: int| 0 <= i < entries@.len() ==> (#[trigger] entries@[i]).0 == s0.raft_index + 1 + i,
                forall|i: int| 0 <= i < ev.len() ==> (#[trigger] ev[i]) == (entries@[i].0, entries@[i].1@),
                self.inv(),
                self@ == apply_all(s0, ev.subrange(0, j as int)),
                self@.status == EngineStatus::Running,
                self@.raft_index == s0.raft_index + j,
                events@ == events_of(s0, ev.subrange(0, j as int)),
            decreases entries.len() - j,
        {
            let ghost pre = self@;
            let e = &entries[j];
            let (_code, ev_opt) = self.apply(e.0, &e.1);
            match ev_opt {
                Some(evt) => events.push(evt),
                None => {},
            }
            proof {
                let pfx1 = ev.subrange(0, j as int + 1);
                lemma_apply_all_snoc(s0, pfx1);
                assert(pfx1.drop_last() =~= ev.subrange(0, j as int));
                assert(pfx1.last() == ev[j as int]);
                assert(ev[j as int] == (entries@[j as int].0, entries@[j as int].1@));
                assert(self@ == apply_step(pre, e.0, e.1@));
                assert(events@ =~= events_of(s0, ev.subrange(0, j as int)) + step_events(
                    pre,
                    e.0,
                    e.1@,
                ));
            }
            j = j + 1;
        }
        proof {
            assert(ev.subrange(0, entries@.len() as int) =~= ev);
        }
        events
    }
}

/// Lifts the shallow view of a committed-entry vector.
pub open spec fn entries_view(es: Seq<(u64, Vec<u8>)>) -> Seq<(u64, Seq<u8>)> {
    es.map_values(|e: (u64, Vec<u8>)| (e.0, e.1@))
}

/// Byte-vector equality, used by the key scan.
fn bytes_match(a: &Vec<u8>, b: &Vec<u8>) -> (r: bool)
    ensures
        r == (a@ == b@),
{
    crate::doc::bytes_eq(a.as_slice(), b.as_slice())
}

} // verus!
