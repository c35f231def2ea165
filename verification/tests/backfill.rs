use engramai::score::Score;
use engramai::substrate::backfill::{
    backfill_embeddings_to_node_embeddings, backfill_entities_to_nodes,
    backfill_entity_relations_to_edges, backfill_hebbian_links_to_edges,
    backfill_memories_to_nodes, backfill_memory_entities_to_edges,
    backfill_synthesis_provenance_to_edges, count_group_rows, legacy_instant, merge_into_existing,
    opening_notes, outcome_of_insert, plan_hebbian_group, plan_memory_entity, plan_provenance,
    project_entity, project_relation, read_or_quote, tally_outcomes, EdgeAnswer, EmbeddingAnswer,
    Driver, HebbianGroup, MemoryEntityRow, MergeAnswer, ProvenanceRow, RowOutcome, Tally,
};
use engramai::substrate::identity::{backfill_hebbian_links_to_edges_hash_input, uuid_from_hash};
use engramai::substrate::triple_backfill;
use engramai::substrate::triple_backfill::{
    page_sql, retry_after, MemoryEvent, TripleBackfillOpts, TripleRun, FAILED_IDS_CAP,
};

fn namespace() -> Option<String> {
    Some("ns".to_string())
}

fn json(text: &str) -> serde_json::Value {
    serde_json::from_str(text).unwrap()
}

fn shape(kind: &str, predicate: &str) -> Option<(String, String)> {
    Some((kind.to_string(), predicate.to_string()))
}

#[test]
fn an_insert_is_told_apart_by_what_stood_under_its_id() {
    let wanted = ("provenance", "mentions");
    assert_eq!(outcome_of_insert(true, &None, wanted.0, wanted.1), RowOutcome::Inserted);
    assert_eq!(outcome_of_insert(false, &None, wanted.0, wanted.1), RowOutcome::Existing);
    let same = shape("provenance", "mentions");
    assert_eq!(outcome_of_insert(false, &same, wanted.0, wanted.1), RowOutcome::Existing);
    let other = shape("provenance", "derived_from");
    assert_eq!(outcome_of_insert(false, &other, wanted.0, wanted.1), RowOutcome::Mismatched);
    let other = shape("structural", "mentions");
    assert_eq!(outcome_of_insert(false, &other, wanted.0, wanted.1), RowOutcome::Mismatched);
}

#[test]
fn a_tally_puts_each_row_into_one_bucket() {
    let t = tally_outcomes(&vec![
        (RowOutcome::Inserted, 2),
        (RowOutcome::Existing, 3),
        (RowOutcome::Dangling, 5),
        (RowOutcome::Mismatched, 7),
        (RowOutcome::Inserted, 11),
    ]);
    assert_eq!(t, Tally { inserted: 13, existing: 3, dangling: 5, mismatched: 7 });
    let run = t.close("run".to_string(), "table");
    assert_eq!(run.rows_read, 28);
    assert_eq!(run.rows_inserted, 13);
    assert_eq!(run.rows_skipped_existing, 15);
    assert_eq!(run.rows_failed, 0);
    assert_eq!(run.assert_counter_invariant(), 28);
}

#[test]
fn opening_notes_name_the_run() {
    let notes = json(&opening_notes(&namespace(), Driver::Mentions));
    assert_eq!(notes["namespace_filter"], "ns");
    assert_eq!(notes["driver"], "backfill_memory_entities_to_edges");
    assert_eq!(notes["design_ref"], "v04-unified-substrate §3.3 + §5.3 / T23");
    assert!(json(&opening_notes(&None, Driver::Memories))["namespace_filter"].is_null());
    let marks: Vec<&str> = [
        Driver::Memories,
        Driver::Embeddings,
        Driver::Entities,
        Driver::Relations,
        Driver::Coactivation,
        Driver::Provenance,
    ]
    .iter()
    .map(|d| d.design_ref())
    .collect();
    assert_eq!(
        marks,
        vec![
            "v04-unified-substrate §5.3",
            "v04-unified-substrate §5.3 / T20",
            "v04-unified-substrate §5.3 / T21",
            "v04-unified-substrate §5.3 / T22",
            "v04-unified-substrate §3.3 + §4.3 + §5.3 / T24",
            "v04-unified-substrate §5.3 / T25",
        ]
    );
}

#[test]
fn memories_are_inserted_or_were_there() {
    let run = backfill_memories_to_nodes("run".to_string(), &vec![true, false, true]);
    assert_eq!(run.legacy_table, "memories");
    assert_eq!((run.rows_read, run.rows_inserted, run.rows_skipped_existing), (3, 2, 1));
}

#[test]
fn legacy_times_are_read_in_any_offset() {
    assert_eq!(legacy_instant("2024-01-10T12:00:00Z"), Some((1_704_888_000, 0)));
    assert_eq!(
        legacy_instant("2024-01-10T14:00:00.5+02:00"),
        Some((1_704_888_000, 500_000_000))
    );
    assert_eq!(legacy_instant("2024-01-10 noon"), None);
}

#[test]
fn embeddings_without_a_node_are_skipped_and_noted() {
    let gone = EmbeddingAnswer { node_exists: false, time_read: false, inserted: false };
    let new = EmbeddingAnswer { node_exists: true, time_read: true, inserted: true };
    let unread = EmbeddingAnswer { node_exists: true, time_read: false, inserted: true };
    let old = EmbeddingAnswer { node_exists: true, time_read: true, inserted: false };
    let r = backfill_embeddings_to_node_embeddings(
        &namespace(),
        "run".to_string(),
        &vec![gone, new, unread, old],
    );
    assert_eq!(r.run.legacy_table, "memory_embeddings");
    assert_eq!((r.run.rows_read, r.run.rows_inserted, r.run.rows_skipped_existing), (4, 2, 2));
    let notes = json(&r.notes);
    assert_eq!(notes["rows_skipped_missing_node"], 1);
    assert_eq!(notes["rows_failed_parse_used_now"], 1);
}

fn merge(malformed: bool, endpoints_ok: bool, inserted: bool, kind: Option<&str>) -> MergeAnswer {
    MergeAnswer {
        malformed,
        endpoints_ok,
        inserted,
        existing_kind: kind.map(|k| k.to_string()),
    }
}

#[test]
fn entities_are_inserted_merged_or_left() {
    let r = backfill_entities_to_nodes(
        &namespace(),
        "run".to_string(),
        &vec![
            merge(false, true, true, None),
            merge(true, true, true, None),
            merge(false, true, false, Some("entity")),
            merge(false, true, false, Some("memory")),
            merge(false, true, false, None),
        ],
    );
    assert_eq!((r.run.rows_read, r.run.rows_inserted, r.run.rows_skipped_existing), (5, 2, 3));
    let notes = json(&r.notes);
    assert_eq!(notes["rows_metadata_merged"], 1);
    assert_eq!(notes["rows_malformed_metadata"], 1);
    assert_eq!(notes["rows_kind_mismatch"], 1);
}

#[test]
fn relations_without_endpoints_count_as_skipped() {
    let r = backfill_entity_relations_to_edges(
        &namespace(),
        "run".to_string(),
        &vec![
            merge(true, false, false, None),
            merge(false, true, true, None),
            merge(false, true, false, Some("structural")),
            merge(true, true, false, Some("provenance")),
        ],
    );
    assert_eq!((r.run.rows_read, r.run.rows_inserted, r.run.rows_skipped_existing), (4, 1, 3));
    let notes = json(&r.notes);
    assert_eq!(notes["rows_metadata_merged"], 1);
    assert_eq!(notes["rows_malformed_metadata"], 1);
    assert_eq!(notes["rows_skipped_dangling_endpoint"], 1);
    assert_eq!(notes["rows_existing_kind_mismatch"], 1);
}

#[test]
fn attributes_are_projected_with_the_column_first() {
    let (text, malformed) =
        project_entity("person", &Some(r#"{"entity_type":"x","age":3}"#.to_string()));
    assert_eq!(text, r#"{"age":3,"entity_type":"person"}"#);
    assert!(!malformed);
    let (text, malformed) = project_relation(&None, &Some("7".to_string()));
    assert_eq!(text, "{}");
    assert!(malformed);
    let (text, _) = project_relation(&Some("src".to_string()), &None);
    assert_eq!(text, r#"{"source":"src"}"#);
}

#[test]
fn attributes_are_merged_only_into_a_row_of_the_same_kind() {
    let row = Some(("entity".to_string(), r#"{"a":1}"#.to_string()));
    assert_eq!(
        merge_into_existing(&row, "entity", r#"{"a":2,"b":3}"#),
        Some(r#"{"a":1,"b":3}"#.to_string())
    );
    assert_eq!(merge_into_existing(&row, "memory", r#"{"b":3}"#), None);
    assert_eq!(merge_into_existing(&None, "entity", "{}"), None);
}

fn link(role: &str) -> MemoryEntityRow {
    MemoryEntityRow {
        memory_id: "m1".to_string(),
        entity_id: "e1".to_string(),
        role: role.to_string(),
    }
}

#[test]
fn memory_entity_links_keep_a_folded_role() {
    let plan = plan_memory_entity(&link("mention"));
    assert_eq!(plan.id, uuid_from_hash("memory_entities|m1|e1|mention|provenance|mentions"));
    assert_eq!((plan.source_id.as_str(), plan.target_id.as_str()), ("m1", "e1"));
    assert_eq!(plan.attributes, "{}");
    let plan = plan_memory_entity(&link("triple"));
    assert_eq!((plan.edge_kind.as_str(), plan.predicate.as_str()), ("provenance", "mentions"));
    assert_eq!(plan.attributes, r#"{"legacy_role":"triple"}"#);
    let plan = plan_memory_entity(&link("subject"));
    assert_eq!((plan.edge_kind.as_str(), plan.predicate.as_str()), ("structural", "subject_of"));
}

fn answer(endpoints_ok: bool, inserted: bool, found: Option<(String, String)>) -> EdgeAnswer {
    EdgeAnswer { endpoints_ok, found, inserted }
}

#[test]
fn folded_roles_are_sampled_up_to_ten() {
    let mut rows = Vec::new();
    let mut answers = Vec::new();
    for i in 0..12 {
        rows.push(link(&format!("role{}", i)));
        answers.push(answer(true, true, None));
    }
    rows.push(link("role0"));
    answers.push(answer(true, false, shape("structural", "mentions")));
    rows.push(link("mention"));
    answers.push(answer(false, false, None));
    let r = backfill_memory_entities_to_edges(&namespace(), "run".to_string(), &rows, &answers);
    assert_eq!((r.run.rows_read, r.run.rows_inserted, r.run.rows_skipped_existing), (14, 12, 2));
    let notes = json(&r.notes);
    assert_eq!(notes["rows_normalized_legacy_role"], 13);
    assert_eq!(notes["unknown_role_samples"].as_array().unwrap().len(), 10);
    assert_eq!(notes["unknown_role_samples"][9], "role9");
    assert_eq!(notes["unknown_role_samples_truncated"], true);
    assert_eq!(notes["unknown_role_distinct_count"], 12);
    assert_eq!(notes["rows_skipped_dangling_endpoint"], 1);
    assert_eq!(notes["rows_skipped_mismatched_kind"], 1);
}

fn group(directions: &str, details: &str, rows: u64) -> HebbianGroup {
    HebbianGroup {
        lo: "a".to_string(),
        hi: "b".to_string(),
        namespace: "default".to_string(),
        signal_source: "corecall".to_string(),
        coactivation_count: 3,
        temporal_forward: -1,
        temporal_backward: 0,
        directions: directions.to_string(),
        details: details.to_string(),
        rows,
    }
}

#[test]
fn hebbian_groups_pack_their_distinct_values() {
    let plan = plan_hebbian_group(&group("forward,backward,,forward", "", 2));
    assert_eq!(
        plan.id,
        uuid_from_hash(&backfill_hebbian_links_to_edges_hash_input(
            "a", "b", "default", "corecall"
        ))
    );
    assert_eq!(
        plan.attributes,
        "{\"coactivation_count\":3,\"direction\":[\"backward\",\"forward\"],\
         \"signal_detail\":\"\",\"signal_source\":\"corecall\",\"temporal_backward\":0,\
         \"temporal_forward\":-1}"
    );
    assert_eq!(plan.rows, 2);
    let plan = plan_hebbian_group(&group("", "x", 1));
    let attributes = json(&plan.attributes);
    assert_eq!(attributes["direction"], "bidirectional");
    assert_eq!(attributes["signal_detail"], "x");
}

#[test]
fn hebbian_groups_count_with_their_legacy_rows() {
    let groups = vec![group("", "", 2), group("", "", 1), group("", "", 4)];
    let answers = vec![
        answer(true, true, None),
        answer(false, false, None),
        answer(true, false, shape("associative", "co_activated")),
    ];
    let rows = count_group_rows(&groups).unwrap();
    let r = backfill_hebbian_links_to_edges(&namespace(), "run".to_string(), rows, 5, &groups, &answers);
    assert_eq!((r.run.rows_read, r.run.rows_inserted, r.run.rows_skipped_existing), (7, 2, 5));
    let notes = json(&r.notes);
    assert_eq!(notes["groups_processed"], 3);
    assert_eq!(notes["merged_collision_pairs"], 5);
    assert_eq!(notes["rows_skipped_dangling_endpoint"], 1);
    assert_eq!(notes["rows_skipped_mismatched_kind"], 0);
    assert_eq!(count_group_rows(&vec![group("", "", u64::MAX), group("", "", 1)]), None);
}

fn provenance(scores: Option<&str>) -> ProvenanceRow {
    ProvenanceRow {
        id: "p1".to_string(),
        insight_id: "i1".to_string(),
        source_id: "s1".to_string(),
        cluster_id: "c1".to_string(),
        synthesis_timestamp: "2024-01-10T12:00:00Z".to_string(),
        gate_decision: "SYNTHESIZE".to_string(),
        gate_scores: scores.map(|s| s.to_string()),
        source_original_importance: Some("0.5".to_string()),
    }
}

#[test]
fn provenance_rows_keep_their_id_and_read_their_scores() {
    let plan = plan_provenance(&provenance(Some(r#"{"quality": 0.9}"#)));
    assert_eq!(plan.id, "p1");
    assert_eq!((plan.source_id.as_str(), plan.target_id.as_str()), ("i1", "s1"));
    assert_eq!((plan.edge_kind.as_str(), plan.predicate.as_str()), ("provenance", "derived_from"));
    let attributes = json(&plan.attributes);
    assert_eq!(attributes["gate_scores"]["quality"], 0.9);
    assert_eq!(attributes["source_original_importance"], 0.5);
    let attributes = json(&plan_provenance(&provenance(Some("not json"))).attributes);
    assert_eq!(attributes["gate_scores"], "not json");
    let attributes = json(&plan_provenance(&provenance(Some(""))).attributes);
    assert!(attributes.get("gate_scores").is_none());
    assert_eq!(read_or_quote("[1,  2]"), "[1,2]");
    assert_eq!(read_or_quote("[1,"), "\"[1,\"");
}

#[test]
fn provenance_runs_tell_the_confidence_policy() {
    let answers = vec![
        answer(true, true, None),
        answer(true, false, shape("provenance", "mentions")),
        answer(false, true, None),
    ];
    let r = backfill_synthesis_provenance_to_edges(
        &namespace(),
        "run".to_string(),
        3,
        &answers,
    );
    assert_eq!((r.run.rows_read, r.run.rows_inserted, r.run.rows_skipped_existing), (3, 1, 2));
    let notes = json(&r.notes);
    assert_eq!(notes["confidence_policy"], "legacy.confidence pass-through (FINDING-3 reference impl)");
    assert_eq!(notes["rows_skipped_mismatched_kind"], 1);
    assert_eq!(notes["rows_skipped_dangling_endpoint"], 1);
}

// --- the triple backfill ---------------------------------------------------

#[test]
fn a_triple_run_advances_its_checkpoint_past_every_memory() {
    let mut run = TripleRun::resume(Some("m0".to_string()));
    let c = run.step("m1", MemoryEvent::Extracted(3));
    assert_eq!(
        (c.last_memory_id.as_str(), c.memories_processed, c.triples_inserted, c.memories_failed),
        ("m1", 1, 3, 0)
    );
    let c = run.step("m2", MemoryEvent::Failed("timeout".to_string()));
    assert_eq!(
        (c.last_memory_id.as_str(), c.memories_processed, c.triples_inserted, c.memories_failed),
        ("m2", 1, 3, 1)
    );
    run.step("m3", MemoryEvent::AlreadyExtracted);
    assert_eq!(run.cursor.as_deref(), Some("m3"));

    let opts = TripleBackfillOpts::default();
    let closed = run.close("null", &opts, "run".to_string());
    assert_eq!(closed.run.legacy_table, "triples");
    assert_eq!(closed.run.rows_read, 3);
    assert_eq!(closed.run.rows_inserted, 3);
    assert_eq!(closed.run.rows_skipped_existing, 1);
    assert_eq!(closed.run.rows_failed, 1);
    let notes = json(&closed.notes);
    assert_eq!(notes["memories_inserted"], 1);
    assert_eq!(notes["triples_inserted_total"], 3);
    assert_eq!(notes["failed_memory_ids"][0], "m2");
    assert_eq!(notes["failed_ids_truncated"], false);
    assert_eq!(notes["last_error_message"], "timeout");
}

#[test]
fn failed_memories_are_listed_up_to_the_cap() {
    let mut run = TripleRun::resume(None);
    for i in 0..FAILED_IDS_CAP + 1 {
        run.step(&format!("m{}", i), MemoryEvent::Failed("x".to_string()));
    }
    assert_eq!(run.failed_memory_ids.len(), FAILED_IDS_CAP);
    assert!(run.failed_ids_truncated);
    assert_eq!(run.rows_failed, FAILED_IDS_CAP as u64 + 1);
}

#[test]
fn a_triple_run_stops_at_its_limit() {
    let mut opts = TripleBackfillOpts::default();
    let mut run = TripleRun::resume(None);
    assert!(run.may_read(&opts));
    opts.max_memories = Some(1);
    assert!(run.may_read(&opts));
    run.step("m1", MemoryEvent::AlreadyExtracted);
    assert!(!run.may_read(&opts));
}

#[test]
fn retries_back_off_exponentially() {
    let opts = TripleBackfillOpts::production();
    assert_eq!(opts.batch_size, 128);
    assert_eq!(opts.rate_limit_per_sec, Score { bits: 5.0f64.to_bits() });
    assert_eq!(retry_after(&opts, 0), Some(1_000));
    assert_eq!(retry_after(&opts, 1), Some(2_000));
    assert_eq!(retry_after(&opts, 2), Some(4_000));
    assert_eq!(retry_after(&opts, 3), None);
    let plain = TripleBackfillOpts::default();
    assert_eq!(plain.rate_limit_per_sec, Score { bits: f64::INFINITY.to_bits() });
    assert_eq!(retry_after(&plain, 0), None);
    let long = TripleBackfillOpts { max_retries: 64, retry_backoff_ms: u64::MAX, ..plain };
    assert_eq!(retry_after(&long, 63), Some(u64::MAX));
}

#[test]
fn pages_are_read_behind_the_cursor() {
    let mut opts = TripleBackfillOpts::default();
    assert_eq!(
        page_sql(&None, &opts),
        "SELECT id, content FROM memories WHERE deleted_at IS NULL   ORDER BY id ASC LIMIT ?"
    );
    opts.namespace_filter = Some("ns".to_string());
    assert_eq!(
        page_sql(&Some("m1".to_string()), &opts),
        "SELECT id, content FROM memories WHERE deleted_at IS NULL AND id > ? \
         AND namespace = ? ORDER BY id ASC LIMIT ?"
    );
    let notes = json(&triple_backfill::opening_notes("5.0", &opts));
    assert_eq!(notes["rate_limit_per_sec"], 5.0);
    assert_eq!(notes["namespace_filter"], "ns");
    assert_eq!(notes["max_retries"], 0);
}

#[test]
fn a_second_run_over_links_inserts_nothing() {
    let rows: Vec<MemoryEntityRow> = [("m1", "e1", "subject"), ("m1", "e2", "author"), ("m2", "e1", "")]
        .iter()
        .map(|(m, e, r)| MemoryEntityRow {
            memory_id: m.to_string(),
            entity_id: e.to_string(),
            role: r.to_string(),
        })
        .collect();
    let mut edges: std::collections::HashMap<String, (String, String)> = Default::default();
    let mut run = || {
        let mut answers = Vec::new();
        for row in &rows {
            let plan = plan_memory_entity(row);
            let found = edges.get(&plan.id).cloned();
            answers.push(answer(true, found.is_none(), found));
            edges.entry(plan.id).or_insert((plan.edge_kind, plan.predicate));
        }
        backfill_memory_entities_to_edges(&namespace(), "run".to_string(), &rows, &answers).run
    };
    let first = run();
    let second = run();
    assert_eq!((first.rows_read, first.rows_inserted, first.rows_skipped_existing), (3, 3, 0));
    assert_eq!((second.rows_read, second.rows_inserted, second.rows_skipped_existing), (3, 0, 3));
    assert_eq!(edges.len(), 3);
    assert_eq!(
        edges[&plan_memory_entity(&rows[0]).id],
        ("structural".to_string(), "subject_of".to_string())
    );
}
