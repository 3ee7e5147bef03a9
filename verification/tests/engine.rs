//! Scenario tests of the partition engine: the write-type table, lookups,
//! replay, snapshots and the codec.

use simba_core::codec::{decode_document_at, decode_mutation, encode_document, encode_mutation};
use simba_core::codes::Code;
use simba_core::doc::{Document, Mutation, WriteType};
use simba_core::indexer::Event;
use simba_core::simba::Simba;
use simba_core::snapshot::{decode_state, encode_state};

fn doc(id: &str, sort_key: &str, version: i64, source: &[u8]) -> Document {
    Document {
        id: id.as_bytes().to_vec(),
        sort_key: sort_key.as_bytes().to_vec(),
        version,
        source: source.to_vec(),
    }
}

fn mutation(wt: WriteType, id: &str, source: &[u8]) -> Mutation {
    Mutation { write_type: wt, doc: doc(id, "", 0, source) }
}

#[test]
fn document_codec_round_trip() {
    let d = doc("alpha", "k1", -7, b"{\"n\":1}");
    let bytes = encode_document(&d);
    let (back, used) = decode_document_at(&bytes, 0).expect("decodes");
    assert_eq!(used, bytes.len());
    assert_eq!(back.id, d.id);
    assert_eq!(back.sort_key, d.sort_key);
    assert_eq!(back.version, -7);
    assert_eq!(back.source, d.source);
}

#[test]
fn mutation_codec_round_trip() {
    let m = mutation(WriteType::Upsert, "a", b"{\"n\":2}");
    let bytes = encode_mutation(&m);
    let back = decode_mutation(&bytes).expect("decodes");
    assert!(matches!(back.write_type, WriteType::Upsert));
    assert_eq!(back.doc.id, m.doc.id);
    assert_eq!(back.doc.source, m.doc.source);
}

#[test]
fn mutation_codec_rejects_garbage() {
    assert!(decode_mutation(&vec![]).is_none());
    assert!(decode_mutation(&vec![9u8, 0, 0, 0]).is_none());
    // a valid mutation with a trailing byte is refused
    let mut bytes = encode_mutation(&mutation(WriteType::Put, "a", b"x"));
    bytes.push(0);
    assert!(decode_mutation(&bytes).is_none());
}

#[test]
fn put_then_get_returns_source_bit_exact() {
    let mut s = Simba::new();
    let m = mutation(WriteType::Put, "a", b"{\"n\":1}");
    let (code, ev) = s.apply_mutation(1, &m);
    assert_eq!(code.wire(), Code::Success.wire());
    assert!(matches!(ev, Some(Event::Update(0, 1))));
    let got = s.get(&m.doc.id, &m.doc.sort_key).expect("found");
    assert_eq!(got.source, b"{\"n\":1}".to_vec());
    assert_eq!(s.get_raft_index(), 1);
}

#[test]
fn put_delete_get_not_found() {
    let mut s = Simba::new();
    let m = mutation(WriteType::Put, "a", b"{\"n\":1}");
    s.apply_mutation(1, &m);
    let d = mutation(WriteType::Delete, "a", b"");
    let (code, ev) = s.apply_mutation(2, &d);
    assert_eq!(code.wire(), Code::Success.wire());
    assert!(matches!(ev, Some(Event::Delete(1))));
    let err = s.get(&m.doc.id, &m.doc.sort_key).unwrap_err();
    assert_eq!(err.wire(), Code::NotFound.wire());
    assert_eq!(s.db_count(), 0);
}

#[test]
fn create_then_create_conflicts() {
    let mut s = Simba::new();
    let m = mutation(WriteType::Create, "a", b"{\"n\":1}");
    let (code, _) = s.apply_mutation(1, &m);
    assert_eq!(code.wire(), Code::Success.wire());
    let again = mutation(WriteType::Create, "a", b"{\"n\":9}");
    let (code2, ev2) = s.apply_mutation(2, &again);
    assert_eq!(code2.wire(), Code::AlreadyExists.wire());
    assert!(ev2.is_none());
    assert_eq!(s.db_count(), 1);
    // the conflicting write modified nothing
    let got = s.get(&m.doc.id, &m.doc.sort_key).expect("found");
    assert_eq!(got.source, b"{\"n\":1}".to_vec());
    // the log index still advanced
    assert_eq!(s.get_raft_index(), 2);
}

#[test]
fn update_missing_fails_without_change() {
    let mut s = Simba::new();
    let m = mutation(WriteType::Update, "ghost-key", b"{}");
    let (code, ev) = s.apply_mutation(1, &m);
    assert_eq!(code.wire(), Code::NotFound.wire());
    assert!(ev.is_none());
    assert_eq!(s.db_count(), 0);
    assert_eq!(s.get_max_iid(), 0);
    assert_eq!(s.get_raft_index(), 1);
}

#[test]
fn upsert_overwrites_and_emits_delete_of_prior() {
    let mut s = Simba::new();
    s.apply_mutation(1, &mutation(WriteType::Upsert, "a", b"{\"n\":1}"));
    let (code, ev) = s.apply_mutation(2, &mutation(WriteType::Upsert, "a", b"{\"n\":2}"));
    assert_eq!(code.wire(), Code::Success.wire());
    // prior iid 1 is replaced by iid 2
    assert!(matches!(ev, Some(Event::Update(1, 2))));
    let got = s.get(&b"a".to_vec(), &b"".to_vec()).expect("found");
    assert_eq!(got.source, b"{\"n\":2}".to_vec());
    assert_eq!(s.db_count(), 1);
    assert_eq!(s.get_max_iid(), 2);
}

#[test]
fn delete_of_missing_key_is_idempotent_success() {
    let mut s = Simba::new();
    let (code, ev) = s.apply_mutation(1, &mutation(WriteType::Delete, "z", b""));
    assert_eq!(code.wire(), Code::Success.wire());
    assert!(ev.is_none());
    assert_eq!(s.db_count(), 0);
    // the applied-log watermark still advances by one
    assert_eq!(s.get_raft_index(), 1);
}

#[test]
fn internal_ids_are_never_reused() {
    let mut s = Simba::new();
    s.apply_mutation(1, &mutation(WriteType::Put, "a", b"1"));
    s.apply_mutation(2, &mutation(WriteType::Delete, "a", b""));
    let (_, ev) = s.apply_mutation(3, &mutation(WriteType::Put, "a", b"2"));
    // the new row gets a fresh id even though the old one is gone
    assert!(matches!(ev, Some(Event::Update(0, 2))));
    assert_eq!(s.get_max_iid(), 2);
}

#[test]
fn replay_reproduces_live_application() {
    // live run
    let mut live = Simba::new();
    let mut entries: Vec<(u64, Vec<u8>)> = Vec::new();
    let mut live_events: Vec<Event> = Vec::new();
    let cases = [
        (WriteType::Put, "a", &b"{\"n\":1}"[..]),
        (WriteType::Create, "b", b"{\"n\":2}"),
        (WriteType::Create, "a", b"{\"n\":3}"), // conflict
        (WriteType::Upsert, "a", b"{\"n\":4}"),
        (WriteType::Delete, "b", b""),
        (WriteType::Delete, "b", b""), // idempotent
    ];
    let mut index: u64 = 0;
    for (wt, id, src) in cases.iter() {
        index += 1;
        let m = mutation(*wt, id, src);
        let bytes = encode_mutation(&m);
        let (_, ev) = live.apply_mutation(index, &m);
        if let Some(e) = ev {
            live_events.push(e);
        }
        entries.push((index, bytes));
    }
    // replay on an empty partition
    let mut fresh = Simba::new();
    let replay_events = fresh.replay(&entries);
    assert_eq!(encode_state(&fresh), encode_state(&live));
    assert_eq!(replay_events.len(), live_events.len());
    for (a, b) in replay_events.iter().zip(live_events.iter()) {
        assert_eq!(a, b);
    }
    assert_eq!(fresh.get_raft_index(), 6);
    assert_eq!(fresh.db_count(), 1);
}

#[test]
fn snapshot_round_trip_preserves_engine_state() {
    let mut s = Simba::new();
    for i in 0..50u64 {
        let id = format!("doc-{}", i);
        let src = format!("{{\"n\":{}}}", i);
        let (code, _) = s.apply_mutation(i + 1, &mutation(WriteType::Put, &id, src.as_bytes()));
        assert_eq!(code.wire(), Code::Success.wire());
    }
    let bytes = encode_state(&s);
    let back = decode_state(&bytes).expect("loads");
    // byte-equal persistent state
    assert_eq!(encode_state(&back), bytes);
    assert_eq!(back.db_count(), 50);
    assert_eq!(back.get_raft_index(), 50);
    assert_eq!(back.get_max_iid(), 50);
    for i in 0..50u64 {
        let id = format!("doc-{}", i);
        let got = back.get(&id.as_bytes().to_vec(), &vec![]).expect("retrievable");
        assert_eq!(got.source, format!("{{\"n\":{}}}", i).into_bytes());
    }
}

#[test]
fn snapshot_decode_rejects_truncation() {
    let mut s = Simba::new();
    s.apply_mutation(1, &mutation(WriteType::Put, "a", b"xyz"));
    let bytes = encode_state(&s);
    for cut in [0usize, 5, 15, bytes.len() - 1] {
        let partial = bytes[..cut].to_vec();
        assert!(decode_state(&partial).is_none());
    }
}

#[test]
fn stopped_engine_refuses_operations() {
    let mut s = Simba::new();
    s.apply_mutation(1, &mutation(WriteType::Put, "a", b"1"));
    s.stop();
    let err = s.get(&b"a".to_vec(), &b"".to_vec()).unwrap_err();
    assert_eq!(err.wire(), Code::EngineStopped.wire());
    let (code, ev) = s.apply_mutation(2, &mutation(WriteType::Put, "b", b"2"));
    assert_eq!(code.wire(), Code::EngineStopped.wire());
    assert!(ev.is_none());
}

#[test]
fn undecodable_entry_reports_param_error_but_advances_log() {
    let mut s = Simba::new();
    let (code, ev) = s.apply(1, &vec![42u8, 1, 2]);
    assert_eq!(code.wire(), Code::ParamError.wire());
    assert!(ev.is_none());
    assert_eq!(s.get_raft_index(), 1);
    assert_eq!(s.db_count(), 0);
}

#[test]
fn code_table_wire_and_http() {
    assert_eq!(Code::Success.wire(), 200);
    assert_eq!(Code::NotFound.http_code(), 404);
    assert_eq!(Code::AlreadyExists.http_code(), 409);
    assert_eq!(Code::ParamError.http_code(), 400);
    assert_eq!(Code::VersionErr.http_code(), 400);
    assert_eq!(Code::PartitionNotLeader.http_code(), 502);
    assert_eq!(Code::InternalErr.http_code(), 500);
}
