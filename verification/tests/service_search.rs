//! Scenario tests of the node-level service, the scatter/gather merge,
//! the index model, the projection, the filter bitmap and the router
//! parsing.

use simba_core::bitmap::{
    bitmap_from_iids, build_hits, combine_candidates, filter_total, zero_scored,
};
use simba_core::codec::encode_mutation;
use simba_core::codes::Code;
use simba_core::doc::{Document, Mutation, WriteType};
use simba_core::indexer::{build_index_schema, project, Event, IndexEngine, IndexValue};
use simba_core::json::JsonValue;
use simba_core::meta::{merge_u32, split_u32, Collection, FieldMeta, FieldType, Replica};
use simba_core::router::{parse_sort, split_names, split_values};
use simba_core::search::{Hit, SearchDocumentResponse, SearchInfo};
use simba_core::service::PartitionService;
use simba_core::simba::Simba;

fn mutation(wt: WriteType, id: &str, source: &[u8]) -> Mutation {
    Mutation {
        write_type: wt,
        doc: Document {
            id: id.as_bytes().to_vec(),
            sort_key: vec![],
            version: 0,
            source: source.to_vec(),
        },
    }
}

fn test_collection() -> Collection {
    Collection {
        id: 7,
        name: String::from("books"),
        fields: vec![
            FieldMeta { name: String::from("n"), ftype: FieldType::Int, array: false },
            FieldMeta { name: String::from("title"), ftype: FieldType::Text, array: false },
            FieldMeta { name: String::from("tags"), ftype: FieldType::Str, array: true },
            FieldMeta { name: String::from("embedding"), ftype: FieldType::Vector, array: true },
        ],
        scalar_field_index: vec![0, 1, 2],
    }
}

fn int_val(n: i64) -> JsonValue {
    JsonValue::Num { int_val: Some(n), float_bits: 0 }
}

#[test]
fn group_id_round_trip() {
    let v = merge_u32(7, 9);
    assert_eq!(v, (7u64 << 32) | 9);
    let (cid, pid) = split_u32(v);
    assert_eq!((cid, pid), (7, 9));
}

#[test]
fn schema_build_maps_scalar_fields() {
    let schema = build_index_schema(&test_collection()).expect("builds");
    assert_eq!(schema.fields.len(), 3);
    assert!(schema.check_index().is_ok());
    assert_eq!(schema.field_num(), 5);
}

#[test]
fn schema_build_rejects_vector_fields() {
    let mut c = test_collection();
    c.scalar_field_index = vec![0, 3];
    let err = build_index_schema(&c).unwrap_err();
    assert_eq!(err.wire(), Code::FieldTypeErr.wire());
}

#[test]
fn empty_schema_has_no_index() {
    let mut c = test_collection();
    c.scalar_field_index = vec![];
    let schema = build_index_schema(&c).expect("builds");
    let err = schema.check_index().unwrap_err();
    assert_eq!(err.wire(), Code::SpaceNoIndex.wire());
}

fn obj(fields: Vec<(&str, JsonValue)>) -> JsonValue {
    JsonValue::Obj(fields.into_iter().map(|(k, v)| (String::from(k), v)).collect())
}

#[test]
fn projection_emits_one_value_per_field_and_array_element() {
    let schema = build_index_schema(&test_collection()).expect("builds");
    let source = obj(vec![
        ("n", int_val(5)),
        ("title", JsonValue::Str(String::from("war and peace"))),
        (
            "tags",
            JsonValue::Arr(vec![
                JsonValue::Str(String::from("long")),
                JsonValue::Str(String::from("classic")),
            ]),
        ),
    ]);
    let vals = project(&schema, &source).expect("projects");
    // field ids start at 2 after the reserved id fields
    assert_eq!(vals.len(), 4);
    assert_eq!(vals[0].0, 2);
    assert!(matches!(vals[0].1, IndexValue::VInt(5)));
    assert_eq!(vals[1].0, 3);
    assert_eq!(vals[2].0, 4);
    assert_eq!(vals[3].0, 4);
}

#[test]
fn projection_skips_missing_and_null_members() {
    let schema = build_index_schema(&test_collection()).expect("builds");
    let source = obj(vec![("title", JsonValue::Null)]);
    let vals = project(&schema, &source).expect("projects");
    assert_eq!(vals.len(), 0);
}

#[test]
fn projection_rejects_wrong_shapes() {
    let schema = build_index_schema(&test_collection()).expect("builds");
    // a string where an integer field is declared
    let bad = obj(vec![("n", JsonValue::Str(String::from("five")))]);
    assert_eq!(project(&schema, &bad).unwrap_err().wire(), Code::FieldTypeErr.wire());
    // a scalar where an array field is declared
    let bad2 = obj(vec![("tags", JsonValue::Str(String::from("solo")))]);
    assert_eq!(project(&schema, &bad2).unwrap_err().wire(), Code::FieldTypeErr.wire());
}

#[test]
fn index_channel_is_fifo_and_events_rewrite_postings() {
    let mut idx = IndexEngine::new();
    idx.write(Event::Update(0, 1));
    idx.write(Event::Delete(1));
    idx.write(Event::Stop);
    assert!(matches!(idx.next_event(), Some(Event::Update(0, 1))));

    // consume the update: document 1 becomes searchable
    let vals = vec![(2u32, IndexValue::VInt(1))];
    assert!(idx.apply_event(Event::Update(0, 1), Some(vals)));
    assert!(idx.exist(1));
    assert_eq!(idx.count(), 1);

    // overwrite: 1 replaced by 2
    let vals2 = vec![(2u32, IndexValue::VInt(2))];
    assert!(idx.apply_event(Event::Update(1, 2), Some(vals2)));
    assert!(!idx.exist(1));
    assert!(idx.exist(2));
    assert_eq!(idx.count(), 1);

    // delete
    assert!(matches!(idx.next_event(), Some(Event::Delete(1))));
    assert!(idx.apply_event(Event::Delete(2), None));
    assert!(!idx.exist(2));
    assert_eq!(idx.count(), 0);

    // stop ends the loop
    assert!(matches!(idx.next_event(), Some(Event::Stop)));
    assert!(!idx.apply_event(Event::Stop, None));
    assert!(idx.next_event().is_none());
}

#[test]
fn empty_projection_only_clears_the_prior_posting() {
    let mut idx = IndexEngine::new();
    let vals = vec![(2u32, IndexValue::VInt(1))];
    idx.apply_event(Event::Update(0, 1), Some(vals));
    // the rewrite carries no indexable values: the prior posting goes away
    idx.apply_event(Event::Update(1, 2), Some(vec![]));
    assert!(!idx.exist(1));
    assert!(!idx.exist(2));
}

#[test]
fn same_event_stream_reproduces_the_same_index() {
    let stream = || {
        vec![
            (Event::Update(0, 1), Some(vec![(2u32, IndexValue::VInt(1))])),
            (Event::Update(0, 2), Some(vec![(2u32, IndexValue::VInt(2))])),
            (Event::Update(1, 3), Some(vec![(2u32, IndexValue::VInt(3))])),
            (Event::Delete(2), None),
        ]
    };
    let mut live = IndexEngine::new();
    live.run_events(stream());
    let mut replayed = IndexEngine::new();
    replayed.run_events(stream());
    for iid in 1..=4u32 {
        assert_eq!(live.exist(iid), replayed.exist(iid));
    }
    assert_eq!(live.count(), replayed.count());
    assert!(!live.exist(1) && !live.exist(2) && live.exist(3));
}

#[test]
fn flush_commits_only_until_the_quiet_limit() {
    let mut idx = IndexEngine::new();
    let mut committed = 0;
    for _ in 0..20 {
        if idx.flush() {
            committed += 1;
        }
    }
    // the counter passes the limit after a quiet stretch
    assert_eq!(committed, 11);
    // new indexing activity resets the limiter
    idx.apply_event(Event::Update(0, 1), Some(vec![(2u32, IndexValue::VInt(1))]));
    assert!(idx.flush());
}

#[test]
fn bitmap_collects_intersects_and_orders() {
    let a = bitmap_from_iids(&vec![5, 1, 9, 5]);
    assert_eq!(filter_total(&Some(a), 77), 3);
    let a = bitmap_from_iids(&vec![5, 1, 9, 5]);
    let b = bitmap_from_iids(&vec![9, 2, 5]);
    let both = combine_candidates(Some(a), Some(b)).expect("intersected");
    let pairs: Vec<u32> = zero_scored(&both).into_iter().map(|p| p.0).collect();
    assert_eq!(pairs, vec![5, 9]);
    let c = bitmap_from_iids(&vec![9, 1, 5]);
    let kept = combine_candidates(Some(c), None).expect("kept");
    let pairs: Vec<u32> = zero_scored(&kept).into_iter().map(|p| p.0).collect();
    assert_eq!(pairs, vec![1, 5, 9]);
    assert!(combine_candidates(None, None).is_none());
    // an unfiltered query reports the index's own count
    assert_eq!(filter_total(&None, 42), 42);
}

#[test]
fn hits_skip_candidates_whose_row_is_gone() {
    let mut s = Simba::new();
    s.apply_mutation(1, &mutation(WriteType::Put, "a", b"{\"n\":1}"));
    s.apply_mutation(2, &mutation(WriteType::Put, "b", b"{\"n\":2}"));
    s.apply_mutation(3, &mutation(WriteType::Delete, "a", b""));
    let results = vec![(1u32, 77u32), (2u32, 55u32)];
    let hits = build_hits(&s, &results, &String::from("books"));
    // iid 1 was deleted from the rows; only iid 2 yields a hit
    assert_eq!(hits.len(), 1);
    assert_eq!(hits[0].iid, 2);
    assert_eq!(hits[0].score_bits, 55);
    assert_eq!(hits[0].collection_name, "books");
}

fn hit(name: &str, iid: u32, score: f32) -> Hit {
    Hit {
        collection_name: String::from(name),
        iid,
        score_bits: score.to_bits(),
        doc: vec![],
    }
}

fn resp(total: u64, hits: Vec<Hit>) -> SearchDocumentResponse {
    SearchDocumentResponse { code: Code::Success, total, hits, info: None }
}

#[test]
fn scatter_gather_merges_sorts_and_truncates() {
    let a = resp(2, vec![hit("p1", 1, 0.9), hit("p1", 2, 0.5)]);
    let b = resp(2, vec![hit("p2", 1, 0.8), hit("p2", 2, 0.7)]);
    let merged = PartitionService::search(vec![a, b], 3);
    assert_eq!(merged.total, 4);
    assert_eq!(merged.hits.len(), 3);
    let scores: Vec<f32> = merged.hits.iter().map(|h| f32::from_bits(h.score_bits)).collect();
    assert_eq!(scores, vec![0.9, 0.8, 0.7]);
    assert!(merged.info.is_none());
}

#[test]
fn merge_breaks_score_ties_by_name_then_iid() {
    let a = resp(1, vec![hit("zeta", 9, 0.5)]);
    let b = resp(2, vec![hit("alpha", 4, 0.5), hit("alpha", 2, 0.5)]);
    let merged = PartitionService::search(vec![a, b], 10);
    let order: Vec<(String, u32)> = merged
        .hits
        .iter()
        .map(|h| (h.collection_name.clone(), h.iid))
        .collect();
    assert_eq!(
        order,
        vec![
            (String::from("alpha"), 2),
            (String::from("alpha"), 4),
            (String::from("zeta"), 9)
        ]
    );
}

#[test]
fn merge_accumulates_info_counters() {
    let mut a = resp(1, vec![]);
    a.info = Some(SearchInfo { success: 1, error: 2, message: b"bad shard;".to_vec() });
    let b = resp(1, vec![]);
    let merged = PartitionService::search(vec![a, b], 10);
    let info = merged.info.expect("kept");
    // the info-less side counts as one clean success
    assert_eq!(info.success, 2);
    assert_eq!(info.error, 2);
    assert_eq!(info.message, b"bad shard;".to_vec());
}

#[test]
fn service_registry_lifecycle() {
    let mut ps = PartitionService::new(11);
    let replicas = vec![Replica { node_id: 11, addr: String::from("n1:99") }];
    ps.init_partition(7, 0, replicas, 3, 2, Simba::new(), IndexEngine::new())
        .expect("loads");
    // idempotent re-load
    ps.init_partition(7, 0, vec![], 3, 2, Simba::new(), IndexEngine::new())
        .expect("still ok");
    assert_eq!(ps.stores.len(), 1);
    assert_eq!(ps.stores[0].partition.version, 4);

    // stale load of another partition is fenced
    let err = ps
        .init_partition(7, 1, vec![], 3, 9, Simba::new(), IndexEngine::new())
        .unwrap_err();
    assert_eq!(err.wire(), Code::VersionErr.wire());

    // member refuses writes
    let m = mutation(WriteType::Put, "a", b"{}");
    let err = ps.prepare_write(7, 0, &m).unwrap_err();
    assert_eq!(err.wire(), Code::PartitionNotLeader.wire());
    let err = ps.prepare_write(7, 5, &m).unwrap_err();
    assert_eq!(err.wire(), Code::NotFound.wire());

    // leader change makes writes possible and heartbeats carry the leader
    ps.apply_leader_change(7, 0, 11).expect("present");
    let bytes = ps.prepare_write(7, 0, &m).expect("leader now");
    assert_eq!(bytes, encode_mutation(&m));
    let hb = ps.take_heartbeat(String::from("n1:99"), String::from("z1"));
    assert_eq!(hb.id, 11);
    assert_eq!(hb.write_partitions.len(), 1);
    assert_eq!(hb.write_partitions[0].version, 4);

    // demotion
    ps.apply_leader_change(7, 0, 12).expect("present");
    assert!(ps.prepare_write(7, 0, &m).is_err());
    let hb = ps.take_heartbeat(String::from("n1:99"), String::from("z1"));
    assert_eq!(hb.write_partitions.len(), 0);

    // offload always succeeds
    assert_eq!(ps.offload_partition(7, 0).wire(), Code::Success.wire());
    assert_eq!(ps.offload_partition(7, 0).wire(), Code::Success.wire());
    assert_eq!(ps.stores.len(), 0);
}

#[test]
fn leader_change_preserves_data_across_two_writers() {
    let mut ps = PartitionService::new(1);
    ps.init_partition(7, 0, vec![], 0, 0, Simba::new(), IndexEngine::new())
        .expect("loads");
    ps.apply_leader_change(7, 0, 1).expect("promote");
    let mut index: u64 = 0;
    for i in 0..100 {
        index += 1;
        let m = mutation(WriteType::Put, &format!("a-{}", i), b"{\"n\":1}");
        let bytes = ps.prepare_write(7, 0, &m).expect("leader");
        ps.apply_committed(7, 0, index, &bytes).expect("applies");
    }
    // leader moves to another node; this node keeps applying commits
    ps.apply_leader_change(7, 0, 2).expect("demote");
    for i in 100..200 {
        index += 1;
        let m = mutation(WriteType::Put, &format!("a-{}", i), b"{\"n\":1}");
        let bytes = encode_mutation(&m);
        ps.apply_committed(7, 0, index, &bytes).expect("applies");
    }
    let cpids = vec![merge_u32(7, 0)];
    let counts = ps.count(&cpids).expect("counts");
    assert_eq!(counts.db_count, 200);
    for i in 0..200 {
        let id = format!("a-{}", i).into_bytes();
        let got = ps.get(7, 0, &id, &vec![]).expect("readable on any role");
        assert_eq!(got.source, b"{\"n\":1}".to_vec());
    }
}

#[test]
fn count_fails_not_found_for_unknown_partition() {
    let ps = PartitionService::new(1);
    let err = ps.count(&vec![merge_u32(9, 9)]).unwrap_err();
    assert_eq!(err.wire(), Code::NotFound.wire());
}

#[test]
fn parse_sort_accepts_well_formed_entries() {
    let orders = parse_sort(&b"name:asc|age:desc".to_vec()).expect("parses");
    assert_eq!(orders.len(), 2);
    assert_eq!(orders[0].name, b"name".to_vec());
    assert!(orders[0].asc);
    assert_eq!(orders[1].name, b"age".to_vec());
    assert!(!orders[1].asc);
    // ASCII case does not matter for the direction
    let orders = parse_sort(&b"n:ASC".to_vec()).expect("parses");
    assert!(orders[0].asc);
}

#[test]
fn parse_sort_rejects_malformed_entries() {
    for bad in [&b"name"[..], b"name:up", b"a:b:c", b"", b"name:asc|x"] {
        let err = parse_sort(&bad.to_vec()).unwrap_err();
        assert_eq!(err.wire(), Code::ParamError.wire());
    }
}

#[test]
fn name_and_field_splitting() {
    let names = split_names(&b"books,,films".to_vec());
    assert_eq!(names, vec![b"books".to_vec(), b"films".to_vec()]);
    let fields = split_values(&b"title,,body".to_vec());
    assert_eq!(fields, vec![b"title".to_vec(), b"".to_vec(), b"body".to_vec()]);
}
