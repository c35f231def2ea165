use engramai::score::Score;
use engramai::substrate::backfill::{
    plan_hebbian_group, project_entity, BackfillRun, HebbianGroup, MemoryEntityRow, ProvenanceRow,
};
use engramai::substrate::spot_check::{
    blake_short, check_content_spot_check, expected_provenance, hebbian_edge_id,
    memory_entity_edge_id, spot_check_entities, spot_check_entity_relations,
    spot_check_hebbian_links, spot_check_memories, spot_check_memory_entities,
    spot_check_node_embeddings, spot_check_synthesis_provenance, Column, ContentSamples, Drift,
    EdgeRow, EmbeddingRow, EntityRow, HebbianEdge, HebbianRow, MemoryRow, MemorySample,
    RelationRow, RelationSample, SynthesisProvenanceRow,
};
use engramai::substrate::verify::{
    build_union_sql, check_audit_consistency, check_fk_closure, check_idempotency,
    count_edges_predicate_in, count_table, count_unified, driver_count, driver_specs,
    sample_legacy_compound_keys, sample_legacy_ids, sample_positions, verify_phase_c_parity,
    verify_phase_c_parity_mut, AuditRow, ContentMismatch, DanglingEdge, NamespaceJoin, VerifyOpts,
};
use rand::seq::SliceRandom;
use rand::SeedableRng;
use rusqlite::Connection;
use std::hash::{Hash, Hasher};

fn some(s: &str) -> Option<String> {
    Some(s.to_string())
}

fn count(conn: &Connection, sql: &str, params: &[String]) -> i64 {
    conn.query_row(sql, rusqlite::params_from_iter(params.iter()), |r| r.get(0)).unwrap()
}

fn database() -> Connection {
    let conn = Connection::open_in_memory().unwrap();
    conn.execute_batch(
        "CREATE TABLE nodes (id TEXT, node_kind TEXT, namespace TEXT);
         CREATE TABLE node_embeddings (node_id TEXT);
         CREATE TABLE memories (id TEXT, namespace TEXT);
         CREATE TABLE memory_embeddings (memory_id TEXT, model TEXT);
         CREATE TABLE edges (id TEXT, edge_kind TEXT, predicate TEXT, namespace TEXT);
         INSERT INTO nodes VALUES ('m1','memory','a'), ('m2','memory','b'), ('e1','entity','a');
         INSERT INTO node_embeddings VALUES ('m1'), ('m2');
         INSERT INTO memories VALUES ('m1','a'), ('m2','b');
         INSERT INTO memory_embeddings VALUES ('m1','x'), ('m2','x');
         INSERT INTO edges VALUES
           ('1','structural','knows','a'), ('2','structural','subject_of','a'),
           ('3','provenance','mentions','b'), ('4','provenance','derived_from','a'),
           ('5','associative','co_activated','a'), ('6','structural','object_of','b');",
    )
    .unwrap();
    conn
}

#[test]
fn seven_drivers_count_their_own_rows() {
    let conn = database();
    let specs = driver_specs();
    let tables: Vec<&str> = specs.iter().map(|s| s.legacy_table).collect();
    assert_eq!(
        tables,
        vec![
            "memories",
            "memory_embeddings",
            "entities",
            "entity_relations",
            "memory_entities",
            "hebbian_links",
            "synthesis_provenance"
        ]
    );
    let all: Vec<i64> = specs
        .iter()
        .map(|s| {
            let q = count_unified(&s.fingerprint, &None);
            count(&conn, &q.sql, &q.params)
        })
        .collect();
    assert_eq!(all, vec![2, 2, 1, 1, 3, 1, 1]);
    let in_a: Vec<i64> = specs
        .iter()
        .map(|s| {
            let q = count_unified(&s.fingerprint, &some("a"));
            count(&conn, &q.sql, &q.params)
        })
        .collect();
    assert_eq!(in_a, vec![1, 2, 1, 1, 1, 1, 1]);
}

#[test]
fn legacy_tables_are_counted_by_namespace_where_they_have_one() {
    let conn = database();
    let q = count_table("memories", &some("a"), true);
    assert_eq!(count(&conn, &q.sql, &q.params), 1);
    let q = count_table("memory_embeddings", &some("a"), false);
    assert_eq!(q.sql, "SELECT COUNT(*) FROM memory_embeddings");
    assert_eq!(count(&conn, &q.sql, &q.params), 2);
}

#[test]
fn predicates_can_be_asked_for_and_left_out() {
    let conn = database();
    let preds = vec!["subject_of".to_string(), "object_of".to_string()];
    let q = count_edges_predicate_in("structural", &preds, false, &None);
    assert_eq!(count(&conn, &q.sql, &q.params), 2);
    let q = count_edges_predicate_in("structural", &preds, true, &some("a"));
    assert_eq!(count(&conn, &q.sql, &q.params), 1);
    let q = count_edges_predicate_in("structural", &vec![], false, &None);
    assert_eq!(count(&conn, &q.sql, &q.params), 0);
    let q = count_edges_predicate_in("structural", &vec![], true, &None);
    assert_eq!(count(&conn, &q.sql, &q.params), 3);
    let specs = driver_specs();
    assert_eq!(
        build_union_sql(&specs[5].fingerprint, &specs[6].fingerprint, true),
        "SELECT COUNT(DISTINCT id) FROM edges WHERE \
         ((edge_kind = 'associative' AND predicate IN ('co_activated')) OR \
         (edge_kind = 'provenance' AND predicate IN ('derived_from'))) AND namespace = ?"
    );
}

#[test]
fn counts_must_match_unless_rows_are_merged() {
    let specs = driver_specs();
    let same = driver_count(&specs[0], false, 5, 5);
    assert!(same.ok);
    assert_eq!(same.delta, 0);
    assert!(!driver_count(&specs[0], false, 5, 4).ok);
    let merged = driver_count(&specs[5], false, 5, 3);
    assert!(merged.ok && merged.merge_semantics);
    assert_eq!(merged.delta, 2);
    assert!(!driver_count(&specs[5], false, 3, 5).ok);
    // A namespace that the legacy table does not have cannot be compared.
    let apart = driver_count(&specs[1], true, 9, 1);
    assert!(apart.ok);
    assert!(!apart.legacy_ns_filter_applied);
}

#[test]
fn samples_are_drawn_from_the_listed_rows() {
    let conn = database();
    let q = sample_legacy_ids("memories", &some("b"));
    let id: String = conn
        .query_row(&q.sql, rusqlite::params_from_iter(q.params.iter()), |r| r.get(0))
        .unwrap();
    assert_eq!(id, "m2");
    let join = Some(NamespaceJoin {
        table: "memories".to_string(),
        foreign_key: "memory_id".to_string(),
        column: "namespace".to_string(),
    });
    let q = sample_legacy_compound_keys("memory_embeddings", "memory_id", "model", &join, &some("a"));
    let key: (String, String) = conn
        .query_row(&q.sql, rusqlite::params_from_iter(q.params.iter()), |r| {
            Ok((r.get(0)?, r.get(1)?))
        })
        .unwrap();
    assert_eq!(key, ("m1".to_string(), "x".to_string()));
    let q = sample_legacy_compound_keys("memory_embeddings", "memory_id", "model", &None, &some("a"));
    assert_eq!(q.sql, "SELECT memory_id, model FROM memory_embeddings");
}

#[test]
fn a_sample_is_the_start_of_a_seeded_shuffle() {
    let mut ids: Vec<usize> = (0..50).collect();
    ids.shuffle(&mut rand::rngs::StdRng::seed_from_u64(42));
    ids.truncate(7);
    assert_eq!(sample_positions(50, 7, 42), ids);
    assert_ne!(sample_positions(50, 50, 42), (0..50).collect::<Vec<usize>>());
    let mut whole = sample_positions(5, 100, 1);
    whole.sort();
    assert_eq!(whole, vec![0, 1, 2, 3, 4]);
    assert!(sample_positions(0, 3, 1).is_empty());
}

fn run(table: &str, inserted: u64) -> BackfillRun {
    BackfillRun {
        run_id: "r".to_string(),
        legacy_table: table.to_string(),
        rows_read: 4,
        rows_inserted: inserted,
        rows_skipped_existing: 4 - inserted,
        rows_failed: 0,
    }
}

#[test]
fn a_second_run_that_inserts_is_reported() {
    let runs = vec![run("memories", 0), run("entities", 3)];
    let found = check_idempotency(&runs);
    assert_eq!(found.len(), 1);
    assert_eq!(found[0].legacy_table, "entities");
    assert_eq!(found[0].rows_inserted_on_rerun, 3);
    assert_eq!(found[0].rows_read_on_rerun, 4);
    let report = verify_phase_c_parity(vec![], vec![], vec![], vec![]);
    assert!(report.ok);
    assert!(verify_phase_c_parity_mut(report, &vec![run("memories", 0)]).ok);
    let report = verify_phase_c_parity(vec![], vec![], vec![], vec![]);
    let report = verify_phase_c_parity_mut(report, &runs);
    assert!(!report.ok);
    assert_eq!(report.idempotency_violations.len(), 1);
}

#[test]
fn any_finding_makes_the_report_fail() {
    let specs = driver_specs();
    let good = driver_count(&specs[0], false, 1, 1);
    let bad = driver_count(&specs[0], false, 2, 1);
    assert!(verify_phase_c_parity(vec![good], vec![], vec![], vec![]).ok);
    let good = driver_count(&specs[0], false, 1, 1);
    assert!(!verify_phase_c_parity(vec![good, bad], vec![], vec![], vec![]).ok);
    let dangling = check_fk_closure(
        &vec![DanglingEdge {
            edge_id: "e".to_string(),
            edge_kind: "structural".to_string(),
            missing_node_id: some("n"),
        }],
        &vec![],
    );
    assert!(!verify_phase_c_parity(vec![], vec![], vec![], dangling).ok);
    assert!(VerifyOpts::default().spot_check_sample_size > 0);
}

#[test]
fn dangling_edges_are_told_by_their_side() {
    let e = |id: &str, missing: Option<String>| DanglingEdge {
        edge_id: id.to_string(),
        edge_kind: "provenance".to_string(),
        missing_node_id: missing,
    };
    let found = check_fk_closure(&vec![e("1", some("a"))], &vec![e("2", some("b")), e("3", None)]);
    let told: Vec<(&str, &str, &str)> = found
        .iter()
        .map(|v| (v.edge_id.as_str(), v.side, v.missing_node_id.as_str()))
        .collect();
    assert_eq!(told, vec![("1", "source", "a"), ("2", "target", "b"), ("3", "target", "")]);
}

#[test]
fn finished_runs_must_add_up() {
    let row = |read: i64, inserted: i64, finished: bool| AuditRow {
        run_id: "r".to_string(),
        legacy_table: "t".to_string(),
        rows_read: read,
        rows_inserted: inserted,
        rows_skipped_existing: 1,
        rows_failed: 2,
        finished,
    };
    let found = check_audit_consistency(&vec![
        row(6, 3, true),
        row(7, 3, true),
        row(7, 3, false),
        row(-5, -9, true),
    ]);
    assert_eq!(found.len(), 2);
    assert_eq!((found[0].rows_read, found[0].computed_sum), (7, 6));
    assert_eq!((found[1].rows_read, found[1].rows_inserted, found[1].computed_sum), (0, 0, 0));
}

// --- spot checks -----------------------------------------------------------

fn column(x: f64) -> Column {
    Column { value: Some(Score { bits: x.to_bits() }), printed: format!("{:?}", x) }
}

fn memory(content: &str, importance: f64, attributes: &str) -> MemoryRow {
    MemoryRow {
        id: "m1".to_string(),
        namespace: "default".to_string(),
        layer: "working".to_string(),
        memory_type: "factual".to_string(),
        content: content.to_string(),
        occurred_at: Column { value: None, printed: "None".to_string() },
        created_at: column(1.0),
        working_strength: column(0.0),
        core_strength: column(0.0),
        importance: column(importance),
        consolidation_count: 0,
        pinned: 0,
        source: "".to_string(),
        attributes_json: attributes.to_string(),
    }
}

fn fields(found: &Vec<ContentMismatch>) -> Vec<(&str, &str, &str)> {
    found
        .iter()
        .map(|m| (m.field.as_str(), m.legacy.as_str(), m.unified.as_str()))
        .collect()
}

#[test]
fn memories_are_compared_field_by_field() {
    let mut out = Vec::new();
    let l = Some(memory("a", 0.5, r#"{"x": 1, "y": 2}"#));
    let u = Some(memory("a", 0.5, r#"{"y":2,"x":1}"#));
    spot_check_memories("m1", &l, &u, &mut out);
    assert!(out.is_empty());
    let u = Some(memory("b", 0.25, "{}"));
    spot_check_memories("m1", &l, &u, &mut out);
    assert_eq!(
        fields(&out),
        vec![
            ("content", "\"a\"", "\"b\""),
            ("importance", "0.5", "0.25"),
            ("attributes", r#"{"x":1,"y":2}"#, "{}"),
        ]
    );
    let mut out = Vec::new();
    spot_check_memories("m1", &l, &None, &mut out);
    spot_check_memories("m1", &None, &None, &mut out);
    assert_eq!(
        fields(&out),
        vec![("existence", "present", "missing"), ("existence", "missing", "n/a")]
    );
}

#[test]
fn both_zeros_are_the_same_and_nan_differs_from_itself() {
    let mut out = Vec::new();
    let l = Some(memory("a", 0.0, "{}"));
    let u = Some(memory("a", -0.0, "{}"));
    spot_check_memories("m1", &l, &u, &mut out);
    assert!(out.is_empty());
    let l = Some(memory("a", f64::NAN, "{}"));
    let u = Some(memory("a", f64::NAN, "{}"));
    spot_check_memories("m1", &l, &u, &mut out);
    assert_eq!(fields(&out), vec![("importance", "NaN", "NaN")]);
}

fn drift(beyond: bool) -> Drift {
    Drift { beyond, legacy: "1".to_string(), unified: "2".to_string() }
}

fn embedding(bytes: Vec<u8>) -> Option<EmbeddingRow> {
    Some(EmbeddingRow {
        memory_id: "m1".to_string(),
        model: "x".to_string(),
        dimensions: 2,
        embedding: bytes,
    })
}

#[test]
fn embeddings_are_compared_byte_for_byte() {
    let mut out = Vec::new();
    let (l, u) = (embedding(vec![1, 2]), embedding(vec![1, 2]));
    spot_check_node_embeddings("m1", "x", &l, &u, Some((5, 0)), &drift(false), &mut out);
    assert!(out.is_empty());
    // A time that could not be read is not compared.
    spot_check_node_embeddings("m1", "x", &l, &u, None, &drift(true), &mut out);
    assert!(out.is_empty());
    let u = embedding(vec![1, 3]);
    spot_check_node_embeddings("m1", "x", &l, &u, Some((5, 0)), &drift(true), &mut out);
    assert_eq!(out.len(), 2);
    assert_eq!(out[0].row_id, "m1|x");
    assert_eq!(
        out[0].legacy,
        format!("2 bytes (hash {:?})", blake_short(&[1, 2]))
    );
    assert_eq!(out[1].field, "created_at_epoch");
}

#[test]
fn fingerprints_are_the_default_hash() {
    let mut h = std::collections::hash_map::DefaultHasher::new();
    let bytes: &[u8] = &[7, 8, 9];
    bytes.hash(&mut h);
    assert_eq!(blake_short(bytes), h.finish().to_le_bytes());
}

fn entity(name: &str, kind: &str, json: &str) -> Option<EntityRow> {
    Some(EntityRow {
        id: "e1".to_string(),
        name_or_content: name.to_string(),
        namespace: "default".to_string(),
        entity_type_column: kind.to_string(),
        metadata_or_attributes_json: json.to_string(),
    })
}

#[test]
fn entities_keep_their_type_over_the_metadata() {
    let mut out = Vec::new();
    let l = entity("Ann", "person", r#"{"entity_type":"x","age":3}"#);
    let u = entity("Ann", "<column-n/a>", r#"{"age":3,"entity_type":"person"}"#);
    spot_check_entities("e1", &l, &u, &drift(false), &drift(false), &mut out);
    assert!(out.is_empty());
    let u = entity("Bob", "<column-n/a>", "nonsense");
    spot_check_entities("e1", &l, &u, &drift(true), &drift(false), &mut out);
    assert_eq!(
        fields(&out),
        vec![
            ("name->content", "Ann", "Bob"),
            ("created_at", "1", "2"),
            ("attributes.entity_type (FINDING-1 column-wins)", "person", "<missing>"),
            ("attributes", r#"{"age":3,"entity_type":"person"}"#, "null"),
        ]
    );
}

#[test]
fn provenance_rows_are_compared_with_what_the_driver_writes() {
    let row = ProvenanceRow {
        id: "p".to_string(),
        insight_id: "i".to_string(),
        source_id: "s".to_string(),
        cluster_id: "c".to_string(),
        synthesis_timestamp: "t".to_string(),
        gate_decision: "SYNTHESIZE".to_string(),
        gate_scores: None,
        source_original_importance: None,
    };
    let l = expected_provenance(&row, "ns");
    let there = SynthesisProvenanceRow {
        id: "p".to_string(),
        source_id: "i".to_string(),
        target_id: "s".to_string(),
        namespace: "ns".to_string(),
        attributes_json:
            r#"{"synthesis_timestamp":"t","cluster_id":"c","gate_decision":"SYNTHESIZE"}"#
                .to_string(),
        edge_kind: "provenance".to_string(),
        predicate: "mentions".to_string(),
    };
    let mut out = Vec::new();
    spot_check_synthesis_provenance(
        "p",
        &Some(l),
        &Some(there),
        &drift(true),
        &drift(false),
        &mut out,
    );
    assert_eq!(
        fields(&out),
        vec![("predicate", "\"derived_from\"", "\"mentions\""), ("confidence", "1", "2")]
    );
}

fn edge(kind: &str, predicate: &str, source: &str, target: &str) -> EdgeRow {
    EdgeRow {
        edge_kind: kind.to_string(),
        predicate: predicate.to_string(),
        source_id: source.to_string(),
        target_id: target.to_string(),
    }
}

fn relation() -> Option<RelationRow> {
    Some(RelationRow {
        relation: "knows".to_string(),
        source_id: "a".to_string(),
        target_id: "b".to_string(),
    })
}

#[test]
fn relations_become_structural_edges_of_the_same_name() {
    let mut out = Vec::new();
    let u = Some(edge("structural", "knows", "a", "b"));
    spot_check_entity_relations("1", &relation(), &u, &mut out);
    assert!(out.is_empty());
    let u = Some(edge("provenance", "subject_of", "b", "a"));
    spot_check_entity_relations("1", &relation(), &u, &mut out);
    let names: Vec<&str> = out.iter().map(|m| m.field.as_str()).collect();
    assert_eq!(
        names,
        vec![
            "edge_kind",
            "predicate (T22 must NOT use T23 predicates)",
            "predicate",
            "source_id",
            "target_id"
        ]
    );
}

#[test]
fn links_are_found_under_their_derived_id() {
    let row = MemoryEntityRow {
        memory_id: "m".to_string(),
        entity_id: "e".to_string(),
        role: "subject".to_string(),
    };
    assert_eq!(
        memory_entity_edge_id(&row),
        engramai::substrate::identity::uuid_from_hash(
            "memory_entities|m|e|subject|structural|subject_of"
        )
    );
    let mut out = Vec::new();
    let u = Some(edge("structural", "subject_of", "m", "e"));
    spot_check_memory_entities(&row, &u, &mut out);
    assert!(out.is_empty());
    spot_check_memory_entities(&row, &None, &mut out);
    assert_eq!(out[0].row_id, "m|e|subject");
}

#[test]
fn merged_links_reach_at_least_what_each_row_had() {
    let row = HebbianRow {
        source_id: "b".to_string(),
        target_id: "a".to_string(),
        namespace: "ns".to_string(),
        signal_source: "corecall".to_string(),
        coactivation_count: 3,
        temporal_forward: 1,
        temporal_backward: 0,
    };
    assert_eq!(
        hebbian_edge_id(&row),
        engramai::substrate::identity::uuid_from_hash(
            "hebbian_links|a|b|ns|corecall|associative|co_activated"
        )
    );
    let there = |count: i64, short: bool| {
        Some(HebbianEdge {
            edge: edge("associative", "co_activated", "a", "b"),
            weight_short: short,
            strength: "0.5".to_string(),
            weight: "0.4".to_string(),
            coactivation_count: count,
            temporal_forward: 1,
            temporal_backward: 0,
        })
    };
    let mut out = Vec::new();
    spot_check_hebbian_links(&row, &there(7, false), &mut out);
    assert!(out.is_empty());
    spot_check_hebbian_links(&row, &there(2, true), &mut out);
    assert_eq!(
        fields(&out),
        vec![
            ("weight (SUM >= per-row lower bound)", ">= 0.5", "0.4"),
            ("coactivation_count (SUM >= lower bound)", ">= 3", "2"),
        ]
    );
    assert_eq!(out[0].row_id, "a|b|ns|corecall");
}

#[test]
fn all_tables_are_checked_in_turn_unless_no_sample_is_asked_for() {
    let samples = || ContentSamples {
        memories: vec![MemorySample { id: "m1".to_string(), legacy: None, unified: None }],
        embeddings: vec![],
        entities: vec![],
        provenance: vec![],
        relations: vec![RelationSample {
            id: "1".to_string(),
            legacy: relation(),
            unified: None,
        }],
        links: vec![],
        hebbian: vec![],
    };
    let mut opts = VerifyOpts::default();
    let found = check_content_spot_check(&opts, &samples());
    let tables: Vec<&str> = found.iter().map(|m| m.legacy_table.as_str()).collect();
    assert_eq!(tables, vec!["memories", "entity_relations"]);
    opts.spot_check_sample_size = 0;
    assert!(check_content_spot_check(&opts, &samples()).is_empty());
}

#[test]
fn a_projected_entity_passes_its_check() {
    let metadata = r#"{"$serde_json::private::RawValue": "1", "entity_type": [], "z": {"b": 1.50, "a": null}}"#;
    let (attributes, malformed) = project_entity("person", &some(metadata));
    assert!(!malformed);
    assert_eq!(
        attributes,
        r#"{"$serde_json::private::RawValue":"1","entity_type":"person","z":{"a":null,"b":1.5}}"#
    );
    let mut out = Vec::new();
    let l = entity("Ann", "person", metadata);
    let u = entity("Ann", "<column-n/a>", &attributes);
    spot_check_entities("e1", &l, &u, &drift(false), &drift(false), &mut out);
    assert!(out.is_empty());
}

#[test]
fn a_planned_group_passes_the_check_of_each_of_its_rows() {
    let group = HebbianGroup {
        lo: "a".to_string(),
        hi: "b".to_string(),
        namespace: "ns".to_string(),
        signal_source: "corecall".to_string(),
        coactivation_count: 5,
        temporal_forward: 2,
        temporal_backward: 1,
        directions: "bidirectional".to_string(),
        details: String::new(),
        rows: 2,
    };
    let plan = plan_hebbian_group(&group);
    let mut out = Vec::new();
    for (source, target, count) in [("a", "b", 3), ("b", "a", 2)] {
        let row = HebbianRow {
            source_id: source.to_string(),
            target_id: target.to_string(),
            namespace: "ns".to_string(),
            signal_source: "corecall".to_string(),
            coactivation_count: count,
            temporal_forward: 1,
            temporal_backward: 1,
        };
        assert_eq!(hebbian_edge_id(&row), plan.id);
        let there = Some(HebbianEdge {
            edge: edge(&plan.edge_kind, &plan.predicate, &plan.source_id, &plan.target_id),
            weight_short: false,
            strength: "0.5".to_string(),
            weight: "0.9".to_string(),
            coactivation_count: group.coactivation_count,
            temporal_forward: group.temporal_forward,
            temporal_backward: group.temporal_backward,
        });
        spot_check_hebbian_links(&row, &there, &mut out);
    }
    assert!(out.is_empty());
}

#[test]
fn no_edge_is_counted_for_two_drivers() {
    let kinds = ["structural", "provenance", "associative"];
    let predicates =
        ["knows", "subject_of", "object_of", "mentions", "derived_from", "co_activated"];
    for kind in kinds {
        for predicate in predicates {
            let conn = database();
            conn.execute_batch("DELETE FROM edges; DELETE FROM nodes; DELETE FROM node_embeddings;")
                .unwrap();
            conn.execute("INSERT INTO edges VALUES ('1', ?1, ?2, 'a')", [kind, predicate]).unwrap();
            let total: i64 = driver_specs()
                .iter()
                .map(|s| {
                    let q = count_unified(&s.fingerprint, &None);
                    count(&conn, &q.sql, &q.params)
                })
                .sum();
            assert!(total <= 1, "{} {}", kind, predicate);
        }
    }
}
