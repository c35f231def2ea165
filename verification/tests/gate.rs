use engramai::score::Score;
use engramai::substrate::types::MemoryType;
use engramai::synthesis::gate::{
    check_early_rules, check_gate, compute_gate_scores, content_bytes, GateContext, GateFigures,
};
use engramai::synthesis::types::{
    AutoUpdateAction, ClusterSignal, GateConfig, GateDecision, GateResult, MemoryCluster,
    MemoryRecord, SignalsSummary, Timestamp,
};

fn score(x: f64) -> Score {
    Score { bits: x.to_bits() }
}

fn num(s: Score) -> f64 {
    f64::from_bits(s.bits)
}

fn make_member(id: &str, content: &str, memory_type: MemoryType) -> MemoryRecord {
    MemoryRecord {
        id: id.to_string(),
        content: content.to_string(),
        memory_type,
        importance: score(0.5),
        access_count: 1,
        metadata: None,
    }
}

fn cost_of(members: &Vec<MemoryRecord>) -> f64 {
    content_bytes(members) as f64 / 4.0 * 0.000001
}

fn decide(
    cluster: &MemoryCluster,
    members: &Vec<MemoryRecord>,
    config: &GateConfig,
    covered_pct: f64,
    cluster_changed: bool,
    all_pairs_similar: bool,
) -> GateResult {
    let cost = cost_of(members);
    let q = num(cluster.quality_score);
    let context = GateContext {
        covered_pct: score(covered_pct),
        cluster_changed,
        all_pairs_similar,
        cost: score(cost),
    };
    let figures = GateFigures {
        quality: format!("{:.3}", q),
        quality_threshold: format!("{}", num(config.gate_quality_threshold)),
        defer_threshold: format!("{}", num(config.defer_quality_threshold)),
        covered: format!("{:.0}", covered_pct * 100.0),
        cost: format!("{:.4}", cost),
        cost_threshold: format!("{}", num(config.cost_threshold)),
    };
    if check_early_rules(cluster, config, &context, &figures).is_none() {
        assert!(!members.is_empty() || config.min_type_diversity == 0);
    }
    let now = Timestamp { secs: 7, nanos: 0 };
    check_gate(cluster, members, config, &context, &figures, now)
}

fn make_members(n: usize, memory_type: MemoryType) -> Vec<MemoryRecord> {
    (0..n)
        .map(|i| {
            make_member(
                &format!("mem-{}", i),
                &format!("Memory content number {}", i),
                memory_type,
            )
        })
        .collect()
}

fn make_diverse_members(n: usize) -> Vec<MemoryRecord> {
    let types = [MemoryType::Factual, MemoryType::Episodic, MemoryType::Relational];
    (0..n)
        .map(|i| {
            make_member(
                &format!("mem-{}", i),
                &format!("Memory content number {}", i),
                types[i % types.len()],
            )
        })
        .collect()
}

fn make_cluster(members: &[MemoryRecord], quality_score: f64) -> MemoryCluster {
    make_cluster_with_signals(members, quality_score, default_signals())
}

fn default_signals() -> SignalsSummary {
    SignalsSummary {
        dominant_signal: ClusterSignal::Hebbian,
        hebbian_contribution: score(0.4),
        entity_contribution: score(0.3),
        embedding_contribution: score(0.2),
        temporal_contribution: score(0.1),
    }
}

fn make_cluster_with_signals(
    members: &[MemoryRecord],
    quality_score: f64,
    signals_summary: SignalsSummary,
) -> MemoryCluster {
    let mut member_ids: Vec<String> = members.iter().map(|m| m.id.clone()).collect();
    member_ids.sort();
    let centroid_id = member_ids.first().cloned().unwrap_or_default();
    MemoryCluster {
        id: format!("cluster-{}", member_ids.join("-")),
        members: member_ids,
        quality_score: score(quality_score),
        centroid_id,
        signals_summary,
    }
}

fn default_config() -> GateConfig {
    GateConfig::default()
}

#[test]
fn rule1_skip_too_small() {
    let members = make_diverse_members(2);
    let cluster = make_cluster(&members, 0.8);
    let config = default_config();

    let result = decide(&cluster, &members, &config, 0.0, true, false);

    match &result.decision {
        GateDecision::Skip { reason } => {
            assert!(reason.contains("too small"), "reason: {}", reason);
            assert!(reason.contains("2 members"), "reason: {}", reason);
            assert!(reason.contains("min 3"), "reason: {}", reason);
        }
        other => panic!("expected Skip, got {:?}", other),
    }
}

#[test]
fn rule2_auto_update_duplicates() {
    let members = make_diverse_members(3);
    let cluster = make_cluster(&members, 0.95);
    let config = default_config();

    let result = decide(&cluster, &members, &config, 0.0, true, true);

    match &result.decision {
        GateDecision::AutoUpdate { action } => match action {
            AutoUpdateAction::MergeDuplicates { keep, demote } => {
                assert_eq!(keep, &cluster.centroid_id);
                assert_eq!(demote.len(), 2);
                assert!(!demote.contains(keep));
            }
            other => panic!("expected MergeDuplicates, got {:?}", other),
        },
        other => panic!("expected AutoUpdate, got {:?}", other),
    }
}

#[test]
fn rule3_skip_low_quality() {
    let members = make_diverse_members(4);
    let cluster = make_cluster(&members, 0.2);
    let config = default_config();

    let result = decide(&cluster, &members, &config, 0.0, true, false);

    match &result.decision {
        GateDecision::Skip { reason } => {
            assert!(reason.contains("low quality"), "reason: {}", reason);
            assert!(reason.contains("0.200"), "reason: {}", reason);
        }
        other => panic!("expected Skip, got {:?}", other),
    }
}

#[test]
fn rule4_defer_minimum_size_low_quality() {
    let members = make_diverse_members(3);
    let cluster = make_cluster(&members, 0.45);
    let config = default_config();

    let result = decide(&cluster, &members, &config, 0.0, true, false);

    match &result.decision {
        GateDecision::Defer { reason } => {
            assert!(reason.contains("minimum size"), "reason: {}", reason);
            assert!(reason.contains("0.450"), "reason: {}", reason);
        }
        other => panic!("expected Defer, got {:?}", other),
    }
}

#[test]
fn rule5_skip_already_covered() {
    let members = make_diverse_members(5);
    let cluster = make_cluster(&members, 0.7);
    let config = default_config();

    let result = decide(&cluster, &members, &config, 0.85, true, false);

    match &result.decision {
        GateDecision::Skip { reason } => {
            assert!(reason.contains("already covered"), "reason: {}", reason);
            assert!(reason.contains("85%"), "reason: {}", reason);
        }
        other => panic!("expected Skip, got {:?}", other),
    }
}

#[test]
fn rule6_skip_no_growth() {
    let members = make_diverse_members(5);
    let cluster = make_cluster(&members, 0.7);
    let config = default_config();

    let result = decide(&cluster, &members, &config, 0.0, false, false);

    match &result.decision {
        GateDecision::Skip { reason } => {
            assert!(
                reason.contains("no growth"),
                "reason: {}",
                reason
            );
        }
        other => panic!("expected Skip, got {:?}", other),
    }
}

#[test]
fn rule7_skip_homogeneous() {
    let members = make_members(4, MemoryType::Procedural);
    let cluster = make_cluster(&members, 0.7);
    let config = default_config();

    let result = decide(&cluster, &members, &config, 0.0, true, false);

    match &result.decision {
        GateDecision::Skip { reason } => {
            assert!(reason.contains("homogeneous"), "reason: {}", reason);
            assert!(reason.contains("procedural"), "reason: {}", reason);
        }
        other => panic!("expected Skip, got {:?}", other),
    }
}

#[test]
fn rule7_exception_factual_entity_overlap() {
    let members = make_members(4, MemoryType::Factual);
    let signals = SignalsSummary {
        dominant_signal: ClusterSignal::Entity,
        hebbian_contribution: score(0.1),
        entity_contribution: score(0.6),
        embedding_contribution: score(0.2),
        temporal_contribution: score(0.1),
    };
    let cluster = make_cluster_with_signals(&members, 0.7, signals);
    let config = default_config();

    let result = decide(&cluster, &members, &config, 0.0, true, false);

    match &result.decision {
        GateDecision::Skip { reason } if reason.contains("homogeneous") => {
            panic!("factual+entity exception should have allowed this cluster");
        }
        _ => {}
    }
}

#[test]
fn rule7_exception_episodic_entity_overlap() {
    let members = make_members(4, MemoryType::Episodic);
    let signals = SignalsSummary {
        dominant_signal: ClusterSignal::Entity,
        hebbian_contribution: score(0.1),
        entity_contribution: score(0.6),
        embedding_contribution: score(0.2),
        temporal_contribution: score(0.1),
    };
    let cluster = make_cluster_with_signals(&members, 0.7, signals);
    let config = default_config();

    let result = decide(&cluster, &members, &config, 0.0, true, false);

    match &result.decision {
        GateDecision::Skip { reason } if reason.contains("homogeneous") => {
            panic!("episodic+entity exception should have allowed this cluster");
        }
        _ => {}
    }
}

#[test]
fn rule8_skip_expensive_non_premium() {
    let types = [MemoryType::Factual, MemoryType::Episodic, MemoryType::Relational];
    let members: Vec<MemoryRecord> = (0..5)
        .map(|i| {
            make_member(
                &format!("mem-{}", i),
                &"x".repeat(50_000),
                types[i % types.len()],
            )
        })
        .collect();
    let cluster = make_cluster(&members, 0.7);
    let config = default_config();

    let result = decide(&cluster, &members, &config, 0.0, true, false);

    match &result.decision {
        GateDecision::Skip { reason } => {
            assert!(reason.contains("cost"), "reason: {}", reason);
            assert!(reason.contains("non-premium"), "reason: {}", reason);
        }
        other => panic!("expected Skip for cost, got {:?}", other),
    }
}

#[test]
fn rule9_synthesize_passes_all() {
    let members = make_diverse_members(5);
    let cluster = make_cluster(&members, 0.7);
    let config = default_config();

    let result = decide(&cluster, &members, &config, 0.0, true, false);

    match &result.decision {
        GateDecision::Synthesize { reason } => {
            assert!(reason.contains("passed all gates"), "reason: {}", reason);
            assert!(reason.contains("quality=0.700"), "reason: {}", reason);
        }
        other => panic!("expected Synthesize, got {:?}", other),
    }
}

#[test]
fn test_gate_scores() {
    let members = make_diverse_members(5);
    let cluster = make_cluster(&members, 0.75);

    let scores = compute_gate_scores(&cluster, &members, score(cost_of(&members)));

    assert_eq!(scores.quality, score(0.75));
    assert_eq!(scores.member_count, 5);
    assert_eq!(scores.type_diversity, 3);
    assert!(num(scores.estimated_cost) > 0.0);
}

#[test]
fn edge_case_premium_quality_bypasses_cost() {
    let types = [MemoryType::Factual, MemoryType::Episodic, MemoryType::Relational];
    let members: Vec<MemoryRecord> = (0..5)
        .map(|i| {
            make_member(
                &format!("mem-{}", i),
                &"x".repeat(50_000),
                types[i % types.len()],
            )
        })
        .collect();
    let cluster = make_cluster(&members, 0.85);
    let config = default_config();

    let result = decide(&cluster, &members, &config, 0.0, true, false);

    match &result.decision {
        GateDecision::Synthesize { reason } => {
            assert!(reason.contains("passed all gates"), "reason: {}", reason);
        }
        other => panic!("expected Synthesize for premium quality, got {:?}", other),
    }
}

#[test]
fn edge_case_defer_only_at_min_size() {
    let members = make_diverse_members(4);
    let cluster = make_cluster(&members, 0.45);
    let config = default_config();

    let result = decide(&cluster, &members, &config, 0.0, true, false);

    match &result.decision {
        GateDecision::Defer { .. } => {
            panic!("Defer should only apply at exactly min_cluster_size");
        }
        _ => {}
    }
}

#[test]
fn edge_case_coverage_exactly_80_percent() {
    let members = make_diverse_members(5);
    let cluster = make_cluster(&members, 0.7);
    let config = default_config();

    let result = decide(&cluster, &members, &config, 0.80, true, false);

    match &result.decision {
        GateDecision::Skip { reason } => {
            assert!(reason.contains("already covered"), "reason: {}", reason);
        }
        other => panic!("expected Skip at 80% coverage, got {:?}", other),
    }
}

#[test]
fn edge_case_coverage_below_80_percent() {
    let members = make_diverse_members(5);
    let cluster = make_cluster(&members, 0.7);
    let config = default_config();

    let result = decide(&cluster, &members, &config, 0.79, true, false);

    match &result.decision {
        GateDecision::Skip { reason } if reason.contains("already covered") => {
            panic!("should not skip at 79% coverage");
        }
        _ => {}
    }
}

#[test]
fn decisions_carry_the_cluster_and_the_time() {
    let members = make_diverse_members(5);
    let cluster = make_cluster(&members, 0.7);
    let r = decide(&cluster, &members, &default_config(), 0.0, true, false);
    assert_eq!(r.cluster_id, cluster.id);
    assert_eq!(r.timestamp, Timestamp { secs: 7, nanos: 0 });
    assert_eq!(r.scores.member_count, 5);
    assert_eq!(
        r.decision,
        GateDecision::Synthesize {
            reason: "passed all gates: quality=0.700, diversity=3, cost=0.0000".to_string()
        }
    );
}

#[test]
fn a_quality_that_is_no_number_is_not_below_a_threshold() {
    let members = make_diverse_members(5);
    let cluster = make_cluster(&members, f64::NAN);
    let r = decide(&cluster, &members, &default_config(), f64::NAN, true, false);
    assert!(matches!(r.decision, GateDecision::Synthesize { .. }));
}

#[test]
fn contents_are_counted_in_bytes() {
    let members = vec![
        make_member("a", "caf\u{e9}", MemoryType::Factual),
        make_member("b", "", MemoryType::Factual),
    ];
    assert_eq!(content_bytes(&members), 5);
}

#[test]
fn a_mixed_cluster_is_not_excused() {
    let mut config = GateConfig::default();
    config.min_type_diversity = 3;
    let mut signals = default_signals();
    signals.entity_contribution = score(0.9);
    let mut members = make_members(4, MemoryType::Factual);
    let cluster = make_cluster_with_signals(&members, 0.8, signals.clone());
    let r = decide(&cluster, &members, &config, 0.0, true, false);
    assert!(matches!(r.decision, GateDecision::Synthesize { .. }));
    members[3].memory_type = MemoryType::Episodic;
    let r = decide(&cluster, &members, &config, 0.0, true, false);
    assert_eq!(
        r.decision,
        GateDecision::Skip { reason: "homogeneous: only factual".to_string() }
    );
}
