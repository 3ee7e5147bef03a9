//! The partition engine's laws, proved once over the spec-level fold so
//! every caller — live apply, crash-recovery replay, offload/load — can
//! rely on them.

use vstd::prelude::*;

use crate::codec::dec_mutation;
use crate::doc::FIELD_LEN_MAX;
use crate::codes::Code;
use crate::doc::{MutationView, WriteType};
use crate::indexer::Event;
use crate::simba::{
    advanced, apply_all, apply_step, events_of, find_key, key_is, lemma_apply_preserves_inv,
    spec_apply, step_events, view_inv, EngineStatus, SimbaView,
};

verus! {

/// Whatever a committed entry decodes to, its document is codec-safe.
pub proof fn lemma_dec_mutation_wf(data: Seq<u8>)
    ensures
        dec_mutation(data) matches Some(m) ==> m.wf(),
{
    if dec_mutation(data) is Some {
        let m = dec_mutation(data).unwrap();
        assert(m.doc.id.len() <= FIELD_LEN_MAX);
        assert(m.doc.sort_key.len() <= FIELD_LEN_MAX);
        assert(m.doc.source.len() <= FIELD_LEN_MAX);
    }
}

/// One log step keeps the engine invariant.
pub proof fn lemma_inv_apply_step(s: SimbaView, index: u64, data: Seq<u8>)
    requires
        view_inv(s),
    ensures
        view_inv(apply_step(s, index, data)),
{
    if s.status == EngineStatus::Running {
        match dec_mutation(data) {
            Some(m) => {
                lemma_dec_mutation_wf(data);
                lemma_apply_preserves_inv(s, index, m);
            },
            None => {},
        }
    }
}

/// The invariant — in particular at-most-one-live-row-per-key — holds
/// after any committed sequence.
pub proof fn lemma_inv_apply_all(s: SimbaView, entries: Seq<(u64, Seq<u8>)>)
    requires
        view_inv(s),
    ensures
        view_inv(apply_all(s, entries)),
    decreases entries.len(),
{
    if entries.len() > 0 {
        lemma_inv_apply_step(s, entries[0].0, entries[0].1);
        lemma_inv_apply_all(apply_step(s, entries[0].0, entries[0].1), entries.drop_first());
    }
}

/// While running, a step neither stops the engine nor skips an index: the
/// applied-log watermark becomes exactly the entry's index.
pub proof fn lemma_apply_step_basic(s: SimbaView, index: u64, data: Seq<u8>)
    requires
        s.status == EngineStatus::Running,
    ensures
        apply_step(s, index, data).status == EngineStatus::Running,
        apply_step(s, index, data).raft_index == index,
{
}

/// The applied-log watermark advances by exactly one per committed entry,
/// with no gaps: after the whole sequence it has grown by its length, and
/// after the k-th entry it equals that entry's index (peel with
/// [`lemma_replay_reproduces_live`] to read it off at any k).
pub proof fn lemma_log_monotonic(s: SimbaView, entries: Seq<(u64, Seq<u8>)>)
    requires
        s.status == EngineStatus::Running,
        forall|i: int| 0 <= i < entries.len() ==> (#[trigger] entries[i]).0 == s.raft_index + 1 + i,
    ensures
        apply_all(s, entries).status == EngineStatus::Running,
        apply_all(s, entries).raft_index == s.raft_index + entries.len(),
    decreases entries.len(),
{
    if entries.len() > 0 {
        let s1 = apply_step(s, entries[0].0, entries[0].1);
        lemma_apply_step_basic(s, entries[0].0, entries[0].1);
        let rest = entries.drop_first();
        assert forall|i: int| 0 <= i < rest.len() implies (#[trigger] rest[i]).0 == s1.raft_index
            + 1 + i by {
            assert(rest[i] == entries[i + 1]);
        }
        lemma_log_monotonic(s1, rest);
    }
}

/// Replay reproduces live application: folding a committed sequence in one
/// run equals applying its first k entries live and then folding the rest
/// from the reached state — with the same rows and the same index-event
/// stream. In particular (k = 0 against any split) replaying S on an empty
/// partition gives exactly the state and events of live application of S.
pub proof fn lemma_replay_reproduces_live(s: SimbaView, entries: Seq<(u64, Seq<u8>)>, k: int)
    requires
        0 <= k <= entries.len(),
    ensures
        apply_all(s, entries) == apply_all(
            apply_all(s, entries.subrange(0, k)),
            entries.subrange(k, entries.len() as int),
        ),
        events_of(s, entries) == events_of(s, entries.subrange(0, k)) + events_of(
            apply_all(s, entries.subrange(0, k)),
            entries.subrange(k, entries.len() as int),
        ),
    decreases k,
{
    if k == 0 {
        assert(entries.subrange(0, 0) =~= Seq::<(u64, Seq<u8>)>::empty());
        assert(entries.subrange(0, entries.len() as int) =~= entries);
        assert(events_of(s, entries.subrange(0, 0)) + events_of(s, entries) =~= events_of(
            s,
            entries,
        ));
    } else {
        let s1 = apply_step(s, entries[0].0, entries[0].1);
        let df = entries.drop_first();
        lemma_replay_reproduces_live(s1, df, k - 1);
        assert(entries.subrange(0, k).drop_first() =~= df.subrange(0, k - 1));
        assert(entries.subrange(0, k)[0] == entries[0]);
        assert(entries.subrange(k, entries.len() as int) =~= df.subrange(
            k - 1,
            df.len() as int,
        ));
        let mid = apply_all(s1, df.subrange(0, k - 1));
        assert(apply_all(s, entries.subrange(0, k)) == mid);
        let e0 = step_events(s, entries[0].0, entries[0].1);
        assert(events_of(s, entries) == e0 + events_of(s1, df));
        assert(events_of(s, entries.subrange(0, k)) == e0 + events_of(s1, df.subrange(0, k - 1)));
        assert(e0 + (events_of(s1, df.subrange(0, k - 1)) + events_of(
            mid,
            df.subrange(k - 1, df.len() as int),
        )) =~= (e0 + events_of(s1, df.subrange(0, k - 1))) + events_of(
            mid,
            df.subrange(k - 1, df.len() as int),
        ));
    }
}

/// At most one live row is reachable through any external key: two rows
/// carrying the same `(id, sort_key)` are the same row.
pub proof fn lemma_at_most_one_live_row(v: SimbaView, id: Seq<u8>, sk: Seq<u8>, i: int, j: int)
    requires
        view_inv(v),
        0 <= i < v.docs.len(),
        0 <= j < v.docs.len(),
        key_is(v.docs[i].1, id, sk),
        key_is(v.docs[j].1, id, sk),
    ensures
        i == j,
{
    if i < j {
        assert(v.docs[i].1.id == v.docs[j].1.id && v.docs[i].1.sort_key == v.docs[j].1.sort_key);
    } else if j < i {
        assert(v.docs[j].1.id == v.docs[i].1.id && v.docs[j].1.sort_key == v.docs[i].1.sort_key);
    }
}

/// `Create` on an existing key fails `AlreadyExists` and modifies nothing
/// but the applied-log watermark.
pub proof fn lemma_create_conflict_no_change(s: SimbaView, index: u64, m: MutationView)
    requires
        m.write_type == WriteType::Create,
        find_key(s.docs, m.doc.id, m.doc.sort_key) >= 0,
    ensures
        spec_apply(s, index, m).post == advanced(s, index),
        spec_apply(s, index, m).post.docs == s.docs,
        spec_apply(s, index, m).post.max_iid == s.max_iid,
        spec_apply(s, index, m).code == Code::AlreadyExists,
        spec_apply(s, index, m).event is None,
{
}

/// `Update` on a missing key fails `NotFound` and modifies nothing but the
/// applied-log watermark.
pub proof fn lemma_update_missing_no_change(s: SimbaView, index: u64, m: MutationView)
    requires
        m.write_type == WriteType::Update,
        find_key(s.docs, m.doc.id, m.doc.sort_key) < 0,
    ensures
        spec_apply(s, index, m).post == advanced(s, index),
        spec_apply(s, index, m).post.docs == s.docs,
        spec_apply(s, index, m).post.max_iid == s.max_iid,
        spec_apply(s, index, m).code == Code::NotFound,
        spec_apply(s, index, m).event is None,
{
}

/// Deleting an absent key succeeds without changing any row, and still
/// advances the applied-log watermark by exactly one.
pub proof fn lemma_delete_idempotent(s: SimbaView, index: u64, m: MutationView)
    requires
        m.write_type == WriteType::Delete,
        find_key(s.docs, m.doc.id, m.doc.sort_key) < 0,
    ensures
        spec_apply(s, index, m).post == advanced(s, index),
        spec_apply(s, index, m).post.docs == s.docs,
        spec_apply(s, index, m).post.max_iid == s.max_iid,
        spec_apply(s, index, m).code == Code::Success,
        spec_apply(s, index, m).event is None,
        spec_apply(s, index, m).post.raft_index == index,
{
}

/// A delete makes the key unreadable: after a `Delete` mutation applies,
/// no live row carries the deleted external key, so a lookup fails
/// `NotFound`.
pub proof fn lemma_delete_then_get(s: SimbaView, index: u64, m: MutationView)
    requires
        view_inv(s),
        m.write_type == WriteType::Delete,
    ensures
        find_key(spec_apply(s, index, m).post.docs, m.doc.id, m.doc.sort_key) < 0,
        spec_apply(s, index, m).code == Code::Success,
{
    let k = find_key(s.docs, m.doc.id, m.doc.sort_key);
    crate::simba::lemma_find_key(s.docs, m.doc.id, m.doc.sort_key);
    if k >= 0 {
        crate::simba::lemma_inv_remove(s, k);
        let post = spec_apply(s, index, m).post;
        assert forall|i: int| 0 <= i < post.docs.len() implies !key_is(
            #[trigger] post.docs[i].1,
            m.doc.id,
            m.doc.sort_key,
        ) by {
            if i < k {
                assert(post.docs[i] == s.docs[i]);
            } else {
                assert(post.docs[i] == s.docs[i + 1]);
                if key_is(s.docs[i + 1].1, m.doc.id, m.doc.sort_key) {
                    assert(s.docs[k].1.id == s.docs[i + 1].1.id && s.docs[k].1.sort_key == s.docs[i
                        + 1].1.sort_key);
                }
            }
        }
        crate::simba::lemma_find_key(post.docs, m.doc.id, m.doc.sort_key);
        if find_key(post.docs, m.doc.id, m.doc.sort_key) >= 0 {
            assert(key_is(
                post.docs[find_key(post.docs, m.doc.id, m.doc.sort_key)].1,
                m.doc.id,
                m.doc.sort_key,
            ));
        }
    }
}

/// A successful write makes the document readable: after the write path
/// runs, the written key resolves to the freshly minted internal id and
/// the stored document equals the written one.
pub proof fn lemma_write_then_get(s: SimbaView, index: u64, m: MutationView)
    requires
        view_inv(s),
        m.wf(),
        m.write_type == WriteType::Put || m.write_type == WriteType::Upsert,
        s.max_iid < u32::MAX,
    ensures
        ({
            let post = spec_apply(s, index, m).post;
            let k = find_key(post.docs, m.doc.id, m.doc.sort_key);
            &&& spec_apply(s, index, m).code == Code::Success
            &&& 0 <= k < post.docs.len()
            &&& post.docs[k].1 == m.doc
            &&& post.docs[k].0 == s.max_iid + 1
            &&& spec_apply(s, index, m).event == Some(
                Event::Update(
                    if find_key(s.docs, m.doc.id, m.doc.sort_key) < 0 {
                        0
                    } else {
                        s.docs[find_key(s.docs, m.doc.id, m.doc.sort_key)].0
                    },
                    (s.max_iid + 1) as u32,
                ),
            )
        }),
{
    let k0 = find_key(s.docs, m.doc.id, m.doc.sort_key);
    lemma_find_key_all(s, m, k0);
}

/// After the write path, the appended row is the unique holder of the key.
proof fn lemma_find_key_all(s: SimbaView, m: MutationView, k0: int)
    requires
        view_inv(s),
        m.wf(),
        k0 == find_key(s.docs, m.doc.id, m.doc.sort_key),
        s.max_iid < u32::MAX,
    ensures
        ({
            let post = crate::simba::spec_write(s, 0u64, m.doc, k0, 0u32).post;
            let k = find_key(post.docs, m.doc.id, m.doc.sort_key);
            k == post.docs.len() - 1 && post.docs[k].1 == m.doc && post.docs[k].0 == s.max_iid + 1
        }),
{
    crate::simba::lemma_find_key(s.docs, m.doc.id, m.doc.sort_key);
    if k0 >= 0 {
        crate::simba::lemma_inv_remove(s, k0);
    }
    let base = if k0 < 0 {
        s.docs
    } else {
        s.docs.remove(k0)
    };
    let post = crate::simba::spec_write(s, 0u64, m.doc, k0, 0u32).post;
    assert forall|i: int| 0 <= i < base.len() implies !key_is(
        #[trigger] base[i].1,
        m.doc.id,
        m.doc.sort_key,
    ) by {
        if k0 >= 0 {
            if i < k0 {
                assert(base[i] == s.docs[i]);
            } else {
                assert(base[i] == s.docs[i + 1]);
                if key_is(s.docs[i + 1].1, m.doc.id, m.doc.sort_key) {
                    assert(s.docs[k0].1.id == s.docs[i + 1].1.id && s.docs[k0].1.sort_key == s.docs[i
                        + 1].1.sort_key);
                }
            }
        }
    }
    assert forall|i: int| 0 <= i < post.docs.len() - 1 implies !key_is(
        #[trigger] post.docs[i].1,
        m.doc.id,
        m.doc.sort_key,
    ) by {
        assert(post.docs[i] == base[i]);
    }
    assert(post.docs[post.docs.len() - 1] == ((s.max_iid + 1) as u32, m.doc));
    assert(key_is(post.docs[post.docs.len() - 1].1, m.doc.id, m.doc.sort_key));
    crate::simba::lemma_find_key_is(
        post.docs,
        m.doc.id,
        m.doc.sort_key,
        post.docs.len() - 1,
    );
}

} // verus!
