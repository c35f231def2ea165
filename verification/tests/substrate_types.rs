use engramai::score::Score;
use engramai::substrate::attributes::{merge_attributes_existing_wins, project_attributes};
use engramai::substrate::identity::{
    backfill_hebbian_links_to_edges_hash_input, canonical_pair, memory_entity_hash_input,
    role_to_kind_predicate, uuid_from_hash,
};
use engramai::substrate::types::{
    Edge, EdgeAttributes, EdgeKind, MemoryAttributes, MemoryLayer, MemoryType, Node,
    NodeAttributes, NodeKind, UnknownEdgeKind,
};

fn score(x: f64) -> Score {
    Score { bits: x.to_bits() }
}

#[test]
fn node_kind_round_trips_known_strings() {
    for s in &["memory", "entity", "topic", "insight", "episode", "plan"] {
        let k: NodeKind = s.parse().unwrap();
        assert_eq!(k.as_str(), *s, "round-trip {s}");
    }
}

#[test]
fn node_kind_other_variant_preserves_unknown() {
    let k: NodeKind = "experimental_v05".parse().unwrap();
    assert_eq!(k, NodeKind::Other("experimental_v05".to_string()));
    assert_eq!(k.as_str(), "experimental_v05");
}

#[test]
fn edge_kind_round_trips_all_six() {
    for s in &["structural", "associative", "containment",
               "provenance", "temporal", "supersession"] {
        let k: EdgeKind = s.parse().unwrap();
        assert_eq!(k.as_str(), *s);
    }
}

#[test]
fn edge_kind_rejects_unknown() {
    let err = "made_up_kind".parse::<EdgeKind>().unwrap_err();
    assert!(err.text().contains("made_up_kind"));
    // The message lists the legal alternatives.
    assert!(err.text().contains("structural"));
}

#[test]
fn unknown_edge_kinds_are_quoted_with_escapes() {
    let err = UnknownEdgeKind("a \"b\"".to_string());
    assert_eq!(
        err.text(),
        "unknown edge_kind \"a \\\"b\\\"\" (expected one of: structural, associative, \
         containment, provenance, temporal, supersession)"
    );
}

#[test]
fn memory_layer_round_trips() {
    for s in &["core", "working", "archive"] {
        let l: MemoryLayer = s.parse().unwrap();
        assert_eq!(l.as_str(), *s);
    }
    assert!("nonsense".parse::<MemoryLayer>().is_err());
}

#[test]
fn memory_type_round_trips_all_seven() {
    for s in &["factual", "episodic", "relational", "emotional",
               "procedural", "opinion", "causal"] {
        let t: MemoryType = s.parse().unwrap();
        assert_eq!(t.as_str(), *s);
    }
    assert!("garbage".parse::<MemoryType>().is_err());
}

fn sample_memory_node() -> Node {
    Node {
        id: "mem-1".into(),
        node_kind: NodeKind::Memory,
        namespace: "default".into(),
        layer: Some(MemoryLayer::Working),
        memory_type: Some(MemoryType::Episodic),
        content: "potato discovered KC degeneration".into(),
        summary: "KC bug".into(),
        attributes: r#"{"tags": ["bench", "kc"], "source": "telegram"}"#.into(),
        embedding: None,
        embedding_model: None,
        occurred_at: Some(score(1_715_000_000.0)),
        valid_from: None,
        valid_to: None,
        created_at: score(1_715_000_500.0),
        updated_at: score(1_715_000_500.0),
        first_seen: None,
        last_seen: None,
        activation: score(0.5),
        working_strength: score(1.0),
        core_strength: score(0.0),
        superseded_by: None,
        deleted_at: None,
        agent_id: Some("rustclaw".into()),
        source_run_id: None,
        fts_rowid: 42,
    }
}

#[test]
fn node_typed_attributes_memory_returns_typed_view() {
    let n = sample_memory_node();
    match n.typed_attributes() {
        NodeAttributes::Memory(m) => {
            assert_eq!(m.tags, vec!["bench".to_string(), "kc".to_string()]);
            assert_eq!(m.source.as_deref(), Some("telegram"));
        }
        other => panic!("expected Memory variant, got {other:?}"),
    }
}

#[test]
fn node_typed_attributes_non_memory_kind_round_trips_unknown() {
    let mut n = sample_memory_node();
    n.node_kind = NodeKind::Entity;
    n.attributes = r#"{"canonical_name": "potato"}"#.into();
    match n.typed_attributes() {
        NodeAttributes::Unknown { kind, attributes } => {
            assert_eq!(kind, "entity");
            assert_eq!(attributes, r#"{"canonical_name": "potato"}"#);
        }
        _ => panic!("entity kind has no typed variant yet"),
    }
}

#[test]
fn node_set_typed_attributes_round_trip() {
    let mut n = sample_memory_node();
    let new = MemoryAttributes {
        tags: vec!["x".into()],
        source: None,
        metadata: Some(r#"{"k":1}"#.into()),
    };
    n.set_typed_attributes(NodeAttributes::Memory(new.clone()));
    match n.typed_attributes() {
        NodeAttributes::Memory(m) => {
            assert_eq!(m.tags, vec!["x".to_string()]);
            assert_eq!(m.source, None);
            assert_eq!(m.metadata, Some(r#"{"k":1}"#.to_string()));
        }
        _ => unreachable!(),
    }
}

#[test]
fn malformed_memory_attributes_round_trip_as_unknown() {
    let mut n = sample_memory_node();
    n.attributes = r#"{"tags": "should-be-list"}"#.into();
    match n.typed_attributes() {
        NodeAttributes::Unknown { kind, .. } => assert_eq!(kind, "memory"),
        other => panic!("expected Unknown fallback, got {other:?}"),
    }
}

#[test]
fn memory_attributes_are_written_as_an_object() {
    let all = MemoryAttributes {
        tags: vec!["a".into(), "\"b\"".into()],
        source: Some("s".into()),
        metadata: None,
    };
    let text = all.to_json();
    let value: serde_json::Value = serde_json::from_str(&text).unwrap();
    assert_eq!(value["tags"][1], "\"b\"");
    assert_eq!(value["source"], "s");
    assert_eq!(MemoryAttributes::from_json(&text), Some(all));
    assert_eq!(MemoryAttributes::from_json("[1]"), None);
    assert_eq!(MemoryAttributes::from_json("nonsense"), None);
}

fn sample_edge() -> Edge {
    Edge {
        id: "edge-1".into(),
        source_id: "mem-1".into(),
        target_id: Some("mem-2".into()),
        target_literal: None,
        edge_kind: EdgeKind::Associative,
        predicate_kind: "canonical".into(),
        predicate: "co_activated".into(),
        summary: "".into(),
        attributes: r#"{"coactivation_count": 3}"#.into(),
        weight: score(0.7),
        activation: score(0.0),
        confidence: score(0.9),
        valid_from: None,
        valid_to: None,
        recorded_at: score(1_715_000_500.0),
        invalidated_at: None,
        invalidated_by: None,
        supersedes: None,
        agent_affect: None,
        source_run_id: None,
        source_memory_id: None,
        resolution_method: "direct".into(),
        namespace: "default".into(),
        created_at: score(1_715_000_500.0),
        updated_at: score(1_715_000_500.0),
    }
}

#[test]
fn edge_validate_target_happy_paths() {
    let e = sample_edge();
    assert!(e.validate_target().is_ok());

    let mut e2 = sample_edge();
    e2.target_id = None;
    e2.target_literal = Some("\"literal value\"".into());
    assert!(e2.validate_target().is_ok());
}

#[test]
fn edge_validate_target_rejects_both() {
    let mut e = sample_edge();
    e.target_literal = Some("\"also a literal\"".into());
    let err = e.validate_target().unwrap_err();
    assert!(err.contains("both"));
}

#[test]
fn edge_validate_target_rejects_neither() {
    let mut e = sample_edge();
    e.target_id = None;
    e.target_literal = None;
    let err = e.validate_target().unwrap_err();
    assert!(err.contains("neither"));
}

#[test]
fn edge_typed_attributes_returns_unknown_for_all_kinds_today() {
    let e = sample_edge();
    match e.typed_attributes() {
        EdgeAttributes::Unknown { kind, attributes } => {
            assert_eq!(kind, "associative");
            assert_eq!(attributes, r#"{"coactivation_count": 3}"#);
        }
    }
}

#[test]
fn edge_attributes_can_be_replaced() {
    let mut e = sample_edge();
    let new = EdgeAttributes::from_json(&EdgeKind::Associative, "{}");
    assert_eq!(new.kind_str(), "associative");
    e.set_typed_attributes(new);
    assert_eq!(e.attributes, "{}");
}

// --- identity --------------------------------------------------------------

#[test]
fn role_to_kind_predicate_canonical_roles() {
    assert_eq!(role_to_kind_predicate("mention"), ("provenance", "mentions", false));
    assert_eq!(role_to_kind_predicate(""), ("provenance", "mentions", false));
    assert_eq!(role_to_kind_predicate("subject"), ("structural", "subject_of", false));
    assert_eq!(role_to_kind_predicate("object"), ("structural", "object_of", false));
}

#[test]
fn role_to_kind_predicate_unknown_normalized() {
    let (k, p, n) = role_to_kind_predicate("triple");
    assert_eq!((k, p), ("provenance", "mentions"));
    assert!(n, "triple must signal normalization for audit");

    let (k, p, n) = role_to_kind_predicate("custom_role_x");
    assert_eq!((k, p), ("provenance", "mentions"));
    assert!(n);
}

#[test]
fn uuid_from_hash_is_deterministic() {
    let a = uuid_from_hash("memory_entities|m1|e1|mention|provenance|mentions");
    let b = uuid_from_hash("memory_entities|m1|e1|mention|provenance|mentions");
    assert_eq!(a, b);
    // ...and different inputs yield different ids:
    let c = uuid_from_hash("memory_entities|m1|e2|mention|provenance|mentions");
    assert_ne!(a, c);
    // Parses as a valid UUID:
    assert!(uuid::Uuid::parse_str(&a).is_ok());
}

#[test]
fn uuid_from_hash_takes_the_first_half_of_the_digest() {
    // SHA-256 of the empty text starts e3b0c442 98fc 1c14 9afb f4c8996fb924.
    assert_eq!(uuid_from_hash(""), "e3b0c442-98fc-1c14-9afb-f4c8996fb924");
}

#[test]
fn t24_hash_canonicalization_collapses_directions() {
    let a = backfill_hebbian_links_to_edges_hash_input("mem-A", "mem-B", "default", "corecall");
    let b = backfill_hebbian_links_to_edges_hash_input("mem-B", "mem-A", "default", "corecall");
    assert_ne!(a, b, "hash is order-sensitive; caller MUST canonicalize");

    let canon = |s: &str, t: &str| -> (String, String) {
        if s < t { (s.into(), t.into()) } else { (t.into(), s.into()) }
    };
    let (lo1, hi1) = canon("mem-A", "mem-B");
    let (lo2, hi2) = canon("mem-B", "mem-A");
    let h1 = backfill_hebbian_links_to_edges_hash_input(&lo1, &hi1, "default", "corecall");
    let h2 = backfill_hebbian_links_to_edges_hash_input(&lo2, &hi2, "default", "corecall");
    assert_eq!(h1, h2, "canonicalized directions hash identically");
}

#[test]
fn t24_hash_includes_signal_source_for_future_proofing() {
    let h1 = backfill_hebbian_links_to_edges_hash_input("a", "b", "default", "corecall");
    let h2 = backfill_hebbian_links_to_edges_hash_input("a", "b", "default", "multi");
    assert_ne!(h1, h2, "different signal_source MUST produce different id");
}

#[test]
fn t24_hash_includes_namespace() {
    let h1 = backfill_hebbian_links_to_edges_hash_input("a", "b", "ns-a", "corecall");
    let h2 = backfill_hebbian_links_to_edges_hash_input("a", "b", "ns-b", "corecall");
    assert_ne!(h1, h2, "namespace is part of identity");
}

#[test]
fn canonical_pairs_have_no_direction() {
    assert_eq!(canonical_pair("b", "a"), ("a".to_string(), "b".to_string()));
    assert_eq!(canonical_pair("a", "b"), ("a".to_string(), "b".to_string()));
    assert_eq!(canonical_pair("a", "a"), ("a".to_string(), "a".to_string()));
    assert_eq!(canonical_pair("\u{e9}", "z"), ("z".to_string(), "\u{e9}".to_string()));
}

#[test]
fn memory_entity_identity_names_kind_and_predicate() {
    assert_eq!(
        memory_entity_hash_input("m1", "e1", "mention"),
        "memory_entities|m1|e1|mention|provenance|mentions"
    );
    assert_eq!(
        memory_entity_hash_input("m1", "e1", "subject"),
        "memory_entities|m1|e1|subject|structural|subject_of"
    );
}

// --- attributes ------------------------------------------------------------

#[test]
fn existing_keys_win_a_merge() {
    let merged = merge_attributes_existing_wins(r#"{"a": 1, "c": [2]}"#, r#"{"b": 3, "a": 9}"#);
    assert_eq!(merged, r#"{"a":1,"b":3,"c":[2]}"#);
    // Merging the same keys again changes nothing.
    assert_eq!(merge_attributes_existing_wins(&merged, r#"{"b": 3, "a": 9}"#), merged);
}

#[test]
fn attributes_that_are_no_object_stay_as_they_are() {
    assert_eq!(merge_attributes_existing_wins("[1]", r#"{"b": 3}"#), "[1]");
    assert_eq!(merge_attributes_existing_wins(r#"{"a": 1}"#, "nonsense"), r#"{"a": 1}"#);
    assert_eq!(merge_attributes_existing_wins("", "{}"), "");
}

#[test]
fn metadata_cannot_shadow_a_column() {
    let seed = vec![("source".to_string(), "\"column\"".to_string())];
    let metadata = Some(r#"{"source": "metadata", "extra": true}"#.to_string());
    let (text, malformed) = project_attributes(seed.clone(), &metadata);
    assert_eq!(text, r#"{"extra":true,"source":"column"}"#);
    assert!(!malformed);
    let (text, malformed) = project_attributes(seed, &Some("[]".to_string()));
    assert_eq!(text, r#"{"source":"column"}"#);
    assert!(malformed);
}
