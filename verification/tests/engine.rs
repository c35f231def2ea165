use engramai::score::Score;
use engramai::substrate::types::MemoryType;
use engramai::synthesis::engine::{
    choose_strategy, cluster_changed, copy_record, generate_id,
    linear_index_to_pair, max_importance, member_overlap, record_attempt, record_synthesis,
    resolve_members, settle_source, should_resynthesize, store_insight_atomically, AutoOutcome,
    ClusterSource, Outcome, Step, Strategy, SynthesisRun,
};
use engramai::synthesis::gate::{check_gate, content_bytes, GateContext, GateFigures};
use engramai::synthesis::sampling::{
    compute_all_pairs_similar, draw_distinct, pairs_to_compare,
};
use engramai::synthesis::types::{
    AutoUpdateAction, ClusterDiscoveryConfig, ClusterSignal, GateConfig, GateDecision, GateResult, GateScores,
    IncrementalConfig, IncrementalState, InsightType, MemoryCluster, MemoryRecord, Period,
    SignalsSummary, SynthesisError, SynthesisOutput, SynthesisReport,
    SynthesisSettings, Timestamp,
};
use std::collections::{HashMap, HashSet};

fn score(x: f64) -> Score {
    Score { bits: x.to_bits() }
}

fn num(s: Score) -> f64 {
    f64::from_bits(s.bits)
}

fn texts(items: &[&str]) -> Vec<String> {
    items.iter().map(|s| s.to_string()).collect()
}

fn at(secs: i64) -> Timestamp {
    Timestamp { secs, nanos: 0 }
}

fn make_memory(id: &str, content: &str, memory_type: MemoryType, importance: f64) -> MemoryRecord {
    MemoryRecord {
        id: id.to_string(),
        content: content.to_string(),
        memory_type,
        importance: score(importance),
        access_count: 1,
        metadata: None,
    }
}

fn make_cluster(id: &str, members: &[&str], quality: f64) -> MemoryCluster {
    MemoryCluster {
        id: id.to_string(),
        members: texts(members),
        quality_score: score(quality),
        centroid_id: members.first().unwrap_or(&"").to_string(),
        signals_summary: SignalsSummary {
            dominant_signal: ClusterSignal::Hebbian,
            hebbian_contribution: score(0.4),
            entity_contribution: score(0.3),
            embedding_contribution: score(0.2),
            temporal_contribution: score(0.1),
        },
    }
}

fn make_state(snapshot: &[&str], quality: f64, runs: usize, attempted: &[&str]) -> IncrementalState {
    IncrementalState {
        last_member_snapshot: texts(snapshot),
        last_quality_score: score(quality),
        last_run: at(100),
        run_count: runs,
        last_attempt_timestamp: at(100),
        attempt_count: runs,
        last_attempt_members: texts(attempted),
    }
}

fn stale(cluster: &MemoryCluster, state: &IncrementalState) -> bool {
    let (shared, union) = member_overlap(&cluster.members, &state.last_member_snapshot);
    let change = if union == 0 { 0.0 } else { 1.0 - shared as f64 / union as f64 };
    let delta = (num(cluster.quality_score) - num(state.last_quality_score)).abs();
    should_resynthesize(union, score(change), score(delta), &IncrementalConfig::default())
}

#[test]
fn test_should_resynthesize_new_cluster() {
    let cluster = make_cluster("c1", &["m1", "m2", "m3"], 0.7);
    let state = make_state(&[], 0.7, 0, &[]);
    assert!(stale(&cluster, &state));
}

#[test]
fn test_should_resynthesize_no_change() {
    let cluster = make_cluster("c1", &["m1", "m2", "m3"], 0.7);
    let state = make_state(&["m1", "m2", "m3"], 0.7, 1, &["m1", "m2", "m3"]);
    assert!(!stale(&cluster, &state));
}

#[test]
fn test_should_resynthesize_member_change() {
    let cluster = make_cluster("c1", &["m1", "m4", "m5"], 0.7);
    let state = make_state(&["m1", "m2", "m3"], 0.7, 1, &["m1", "m2", "m3"]);
    assert_eq!(member_overlap(&cluster.members, &state.last_member_snapshot), (1, 5));
    assert!(stale(&cluster, &state));
}

#[test]
fn test_should_resynthesize_quality_delta() {
    let cluster = make_cluster("c1", &["m1", "m2", "m3"], 1.0);
    let state = make_state(&["m1", "m2", "m3"], 0.7, 1, &["m1", "m2", "m3"]);
    assert!(stale(&cluster, &state));
}

#[test]
fn resynthesis_thresholds_are_reached_not_passed() {
    let config = IncrementalConfig::default();
    assert!(should_resynthesize(2, config.staleness_member_change_pct, score(0.0), &config));
    assert!(should_resynthesize(2, score(0.0), config.staleness_quality_delta, &config));
    assert!(!should_resynthesize(2, score(0.49), score(0.19), &config));
    assert!(should_resynthesize(0, score(0.0), score(0.0), &config));
}

#[test]
fn test_cluster_changed_jaccard_detects_membership_change() {
    let current_members = texts(&["m1", "m2", "m4"]);
    let previous_members = texts(&["m1", "m2", "m3"]);
    let (intersection, union_size) = member_overlap(&current_members, &previous_members);
    let jaccard = intersection as f64 / union_size as f64;
    assert_eq!(intersection, 2);
    assert_eq!(union_size, 4);
    assert!((jaccard - 0.5).abs() < 0.001);
    assert!(jaccard < 1.0);
    let state = make_state(&[], 0.7, 1, &["m1", "m2", "m3"]);
    assert!(cluster_changed(&current_members, &Some(state)));
}

#[test]
fn test_cluster_changed_jaccard_identical_members() {
    let members = texts(&["m1", "m2", "m3"]);
    let (intersection, union_size) = member_overlap(&members, &members);
    let jaccard = intersection as f64 / union_size as f64;
    assert_eq!(jaccard, 1.0);
    assert!(!(jaccard < 1.0));
    let state = make_state(&[], 0.7, 1, &["m1", "m2", "m3"]);
    assert!(!cluster_changed(&members, &Some(state)));
}

#[test]
fn cluster_without_an_attempt_counts_as_changed() {
    let members = texts(&["m1"]);
    assert!(cluster_changed(&members, &None));
    assert!(cluster_changed(&members, &Some(make_state(&["m1"], 0.5, 1, &[]))));
    // Order and repeats do not matter.
    let shuffled = texts(&["m2", "m1", "m2"]);
    assert!(!cluster_changed(&shuffled, &Some(make_state(&[], 0.5, 1, &["m1", "m2"]))));
}

#[test]
fn overlap_counts_texts_once() {
    let a = texts(&["x", "y", "x"]);
    let b = texts(&["y", "z", "z"]);
    assert_eq!(member_overlap(&a, &b), (1, 3));
    assert_eq!(member_overlap(&texts(&[]), &texts(&[])), (0, 0));
}

#[test]
fn test_linear_index_to_pair() {
    assert_eq!(linear_index_to_pair(0, 4), (0, 1));
    assert_eq!(linear_index_to_pair(1, 4), (0, 2));
    assert_eq!(linear_index_to_pair(2, 4), (0, 3));
    assert_eq!(linear_index_to_pair(3, 4), (1, 2));
    assert_eq!(linear_index_to_pair(4, 4), (1, 3));
    assert_eq!(linear_index_to_pair(5, 4), (2, 3));

    assert_eq!(linear_index_to_pair(0, 3), (0, 1));
    assert_eq!(linear_index_to_pair(1, 3), (0, 2));
    assert_eq!(linear_index_to_pair(2, 3), (1, 2));

    // A place behind the last pair gives the last pair.
    assert_eq!(linear_index_to_pair(99, 3), (1, 2));
}

fn cosine(a: &[f32], b: &[f32]) -> f64 {
    let dot: f64 = a.iter().zip(b).map(|(x, y)| *x as f64 * *y as f64).sum();
    let na: f64 = a.iter().map(|x| *x as f64 * *x as f64).sum::<f64>().sqrt();
    let nb: f64 = b.iter().map(|x| *x as f64 * *x as f64).sum::<f64>().sqrt();
    dot / (na * nb)
}

fn all_similar(ids: &Vec<String>, embeddings: &[Option<Vec<f32>>], threshold: f64) -> bool {
    let all = embeddings.iter().all(|e| e.is_some());
    let similarity = |i: usize, j: usize| {
        score(cosine(embeddings[i].as_ref().unwrap(), embeddings[j].as_ref().unwrap()))
    };
    compute_all_pairs_similar(ids, all, &similarity, score(threshold))
}

#[test]
fn test_all_pairs_similar_identical_embeddings() {
    let emb = Some(vec![1.0_f32, 0.0, 0.0]);
    let ids = texts(&["m1", "m2", "m3"]);
    assert!(all_similar(&ids, &[emb.clone(), emb.clone(), emb], 0.95));
}

#[test]
fn test_all_pairs_similar_dissimilar_pair() {
    let ids = texts(&["m1", "m2", "m3"]);
    let embeddings = [
        Some(vec![1.0_f32, 0.0, 0.0]),
        Some(vec![0.99_f32, 0.1, 0.0]),
        Some(vec![0.0_f32, 1.0, 0.0]),
    ];
    assert!(!all_similar(&ids, &embeddings, 0.95));
}

#[test]
fn test_all_pairs_similar_missing_embedding() {
    let emb = Some(vec![1.0_f32, 0.0, 0.0]);
    let ids = texts(&["m1", "m2", "m3"]);
    assert!(!all_similar(&ids, &[emb.clone(), emb, None], 0.95));
}

#[test]
fn test_all_pairs_similar_single_member() {
    let ids = texts(&["m1"]);
    assert!(!all_similar(&ids, &[Some(vec![1.0_f32, 0.0, 0.0])], 0.95));
}

#[test]
fn test_all_pairs_similar_large_cluster_sampling() {
    let ids: Vec<String> = (0..12).map(|i| format!("m{}", i)).collect();
    let embeddings = vec![Some(vec![1.0_f32, 0.0, 0.0]); 12];
    assert!(all_similar(&ids, &embeddings, 0.95));
}

#[test]
fn test_all_pairs_similar_large_cluster_with_outlier() {
    let ids: Vec<String> = (0..15).map(|i| format!("m{}", i)).collect();
    let mut embeddings = vec![Some(vec![1.0_f32, 0.0, 0.0]); 15];
    embeddings[14] = Some(vec![0.0_f32, 1.0, 0.0]);
    assert!(!all_similar(&ids, &embeddings, 0.95));
}

#[test]
fn near_duplicates_exceed_the_threshold() {
    let ids = texts(&["m1", "m2"]);
    let near = |limit: f64, found: f64| {
        compute_all_pairs_similar(&ids, true, &|_: usize, _: usize| score(found), score(limit))
    };
    assert!(near(0.5, 0.75));
    assert!(!near(0.5, 0.5));
    assert!(!near(0.5, 0.25));
    assert!(!near(0.5, f64::NAN));
    assert!(!near(1.0, 1.0));
}

#[test]
fn small_clusters_compare_every_pair() {
    let ids: Vec<String> = (0..10).map(|i| format!("m{}", i)).collect();
    let pairs = pairs_to_compare(&ids);
    assert_eq!(pairs.len(), 45);
    assert_eq!(pairs[0], (0, 1));
    assert_eq!(pairs[44], (8, 9));
    assert!(pairs_to_compare(&texts(&["m"])).is_empty());
    assert!(pairs_to_compare(&texts(&[])).is_empty());
}

#[test]
fn large_clusters_compare_a_fixed_sample() {
    let ids: Vec<String> = (0..20).map(|i| format!("m{}", i)).collect();
    let pairs = pairs_to_compare(&ids);
    assert_eq!(pairs.len(), 45);
    let distinct: HashSet<(usize, usize)> = pairs.iter().copied().collect();
    assert_eq!(distinct.len(), 45);
    for (i, j) in &pairs {
        assert!(i < j && *j < 20);
    }
    assert_eq!(pairs, pairs_to_compare(&ids));
    // The sample goes by the ids: the same number of others gives another one.
    let others: Vec<String> = (0..20).map(|i| format!("n{}", i)).collect();
    assert_ne!(pairs, pairs_to_compare(&others));
}

#[test]
fn draws_follow_the_generator() {
    // From 0 the first state is the increment, whose upper bits give the draw.
    let first = (1_442_695_040_888_963_407_u64 >> 33) as usize % 1000;
    assert_eq!(draw_distinct(0, 1000, 1), vec![first]);
    // A draw as large as the range takes every place once.
    let mut all = draw_distinct(7, 6, 6);
    all.sort();
    assert_eq!(all, vec![0, 1, 2, 3, 4, 5]);
    assert!(draw_distinct(7, 6, 0).is_empty());
}

#[test]
fn test_generate_id_format() {
    let id = generate_id(123_456_789, 4242);
    assert_eq!(id.len(), 8);
    assert!(id.chars().all(|c| c.is_ascii_hexdigit()));
    assert_eq!(id, format!("{:08x}", 123_456_789_u32 ^ 4242_u32));
    assert_eq!(generate_id(5, 5), "00000000");
}

#[test]
fn test_three_tier_config_defaults() {
    let config = ClusterDiscoveryConfig::default();
    assert!(config.cold_recluster_ratio.is_none());
    assert!(config.warm_recluster_interval.is_none());
    assert!(config.hot_assign_threshold.is_none());
}

#[test]
fn test_three_tier_config_custom() {
    let mut config = ClusterDiscoveryConfig::default();
    config.cold_recluster_ratio = Some(score(0.3));
    config.warm_recluster_interval = Some(50);
    config.hot_assign_threshold = Some(score(0.7));

    assert_eq!(num(config.cold_recluster_ratio.unwrap()), 0.3);
    assert_eq!(config.warm_recluster_interval.unwrap(), 50);
    assert_eq!(num(config.hot_assign_threshold.unwrap()), 0.7);
}

#[test]
fn strategies_go_by_counts_and_ratio() {
    assert_eq!(choose_strategy(0, 0, 0, false), Strategy::Cold);
    assert_eq!(choose_strategy(3, 2, 0, true), Strategy::Cold);
    assert_eq!(choose_strategy(5, 1, 0, false), Strategy::Warm);
    assert_eq!(choose_strategy(5, 0, 2, false), Strategy::Warm);
    assert_eq!(choose_strategy(3, 0, 0, false), Strategy::Cached);
}

#[test]
fn attempts_are_recorded_for_a_new_cluster() {
    let cluster = make_cluster("c1", &["m2", "m1", "m2"], 0.7);
    let state = record_attempt(&None, &cluster, at(50));
    assert!(state.last_member_snapshot.is_empty());
    assert_eq!(num(state.last_quality_score), 0.7);
    assert_eq!(state.run_count, 0);
    assert_eq!(state.attempt_count, 1);
    assert_eq!(state.last_run.secs, 50);
    assert_eq!(state.last_attempt_timestamp.secs, 50);
    let members: HashSet<&str> = state.last_attempt_members.iter().map(|s| s.as_str()).collect();
    assert_eq!(members, HashSet::from(["m1", "m2"]));
    assert_eq!(state.last_attempt_members.len(), 2);
}

#[test]
fn attempts_add_up() {
    let cluster = make_cluster("c1", &["m1", "m2"], 0.9);
    let before = make_state(&["m1"], 0.4, 3, &["m1"]);
    let state = record_attempt(&Some(before), &cluster, at(200));
    assert_eq!(state.attempt_count, 4);
    assert_eq!(state.run_count, 3);
    assert_eq!(num(state.last_quality_score), 0.4);
    assert_eq!(state.last_run.secs, 100);
    assert_eq!(state.last_attempt_timestamp.secs, 200);
    assert_eq!(state.last_member_snapshot, vec!["m1"]);
    assert_eq!(state.last_attempt_members.len(), 2);
}

#[test]
fn synthesis_is_recorded_with_the_latest_attempt() {
    let cluster = make_cluster("c1", &["m1", "m2"], 0.9);
    let before = make_state(&["m1"], 0.4, 3, &["m1"]);
    let latest = record_attempt(&Some(make_state(&["m1"], 0.4, 3, &["m1"])), &cluster, at(200));
    let state = record_synthesis(&Some(before), &Some(latest), &cluster, at(300));
    assert_eq!(state.run_count, 4);
    assert_eq!(state.attempt_count, 4);
    assert_eq!(num(state.last_quality_score), 0.9);
    assert_eq!(state.last_run.secs, 300);
    assert_eq!(state.last_attempt_timestamp.secs, 200);
    assert_eq!(state.last_member_snapshot.len(), 2);
    assert_eq!(state.last_attempt_members.len(), 2);
    // What was stored is not stale, and does not count as changed.
    assert!(!stale(&cluster, &state));
    assert!(!cluster_changed(&cluster.members, &Some(state)));

    let first = record_synthesis(&None, &None, &cluster, at(300));
    assert_eq!(first.run_count, 1);
    assert_eq!(first.attempt_count, 1);
    assert_eq!(first.last_attempt_timestamp.secs, 300);
}

#[test]
fn members_are_resolved_in_cluster_order() {
    let memories = vec![
        make_memory("a", "first", MemoryType::Factual, 0.1),
        make_memory("b", "second", MemoryType::Episodic, 0.2),
        make_memory("a", "third", MemoryType::Causal, 0.3),
    ];
    let members = resolve_members(&memories, &texts(&["b", "gone", "a"]));
    assert_eq!(members.len(), 2);
    assert_eq!(members[0].content, "second");
    // Of two memories with one id the later stands.
    assert_eq!(members[1].content, "third");
    let copy = copy_record(&memories[1]);
    assert_eq!(copy.id, "b");
    assert_eq!(copy.memory_type, MemoryType::Episodic);
}

#[test]
fn the_greatest_importance_is_taken() {
    let members = vec![
        make_memory("m1", "Dup X", MemoryType::Factual, 0.4),
        make_memory("m2", "Dup Y", MemoryType::Factual, 0.9),
        make_memory("m3", "Dup Z", MemoryType::Factual, 0.7),
    ];
    assert_eq!(num(max_importance(&members)), 0.9);
    assert_eq!(num(max_importance(&Vec::new())), 0.0);
    let negative = vec![make_memory("m", "", MemoryType::Factual, -1.0)];
    assert_eq!(num(max_importance(&negative)), 0.0);
    let odd = vec![
        make_memory("m", "", MemoryType::Factual, f64::NAN),
        make_memory("n", "", MemoryType::Factual, 0.25),
    ];
    assert_eq!(num(max_importance(&odd)), 0.25);
}

#[test]
fn test_store_insight_atomically() {
    let memories = vec![
        make_memory("s1", "Source memory one", MemoryType::Factual, 0.8),
        make_memory("s2", "Source memory two", MemoryType::Episodic, 0.7),
    ];
    let cluster = make_cluster("test-cluster-001", &["s1", "s2"], 0.75);
    let output = SynthesisOutput {
        insight_text: "Test insight text".to_string(),
        confidence: score(0.85),
        insight_type: InsightType::Pattern,
        source_references: texts(&["s1", "s2"]),
    };
    let scores = GateScores {
        quality: score(0.75),
        type_diversity: 2,
        estimated_cost: score(0.01),
        member_count: 2,
    };
    let insight_id = generate_id(1, 2);
    let plan = store_insight_atomically(
        &cluster,
        &memories,
        &output,
        "0.85",
        scores,
        at(9),
        insight_id.clone(),
        &texts(&["p1", "p2"]),
    );
    assert_eq!(plan.insight_id.len(), 8);
    assert_eq!(plan.insight_id, insight_id);
    assert_eq!(plan.content, "Test insight text");
    assert_eq!(plan.memory_type, "factual");

    let meta: serde_json::Value = serde_json::from_str(&plan.metadata).unwrap();
    assert_eq!(meta["is_synthesis"], true);
    assert_eq!(meta["source_cluster"], "test-cluster-001");
    assert_eq!(meta["insight_type"], "Pattern");
    assert_eq!(meta["confidence"], 0.85);
    assert_eq!(meta["source_count"], 2);
    assert_eq!(meta.as_object().unwrap().len(), 5);
    assert_eq!(plan.metadata, meta.to_string());

    assert_eq!(plan.records.len(), 2);
    assert_eq!(plan.records[0].id, "p1");
    assert_eq!(plan.records[0].source_id, "s1");
    assert_eq!(plan.records[1].source_id, "s2");
    for r in &plan.records {
        assert_eq!(r.insight_id, insight_id);
        assert_eq!(r.cluster_id, "test-cluster-001");
        assert_eq!(r.gate_decision, "SYNTHESIZE");
        assert_eq!(num(r.confidence), 0.85);
        assert_eq!(r.synthesis_timestamp.secs, 9);
        assert_eq!(r.gate_scores.as_ref().unwrap().member_count, 2);
    }
    assert_eq!(num(plan.records[0].source_original_importance.unwrap()), 0.8);

    assert_eq!(plan.demotions.len(), 2);
    let factor = num(SynthesisSettings::default().demotion_factor);
    assert!((num(plan.demotions[0].importance) * factor - 0.4).abs() < 0.001);
    assert!((num(plan.demotions[1].importance) * factor - 0.35).abs() < 0.001);
}

#[test]
fn a_source_outside_the_cluster_is_linked_but_not_demoted() {
    let memories = vec![make_memory("s1", "One", MemoryType::Factual, 0.8)];
    let cluster = make_cluster("c", &["s1"], 0.75);
    for (kind, stored) in [
        (InsightType::Pattern, "factual"),
        (InsightType::Rule, "factual"),
        (InsightType::Connection, "relational"),
        (InsightType::Contradiction, "causal"),
    ] {
        let output = SynthesisOutput {
            insight_text: "x".to_string(),
            confidence: score(1.0),
            insight_type: kind,
            source_references: texts(&["s9", "s1"]),
        };
        let scores = GateScores {
            quality: score(0.5),
            type_diversity: 1,
            estimated_cost: score(0.0),
            member_count: 1,
        };
        let ids = texts(&["p1", "p2"]);
        let id = "i1".to_string();
        let plan =
            store_insight_atomically(&cluster, &memories, &output, "1.0", scores, at(1), id, &ids);
        assert_eq!(plan.memory_type, stored);
        assert_eq!(plan.records.len(), 2);
        assert!(plan.records[0].source_original_importance.is_none());
        assert_eq!(plan.demotions.len(), 1);
        assert_eq!(plan.demotions[0].source_id, "s1");
    }
}

fn skip() -> GateDecision {
    GateDecision::Skip { reason: "r".to_string() }
}

fn synthesize() -> GateDecision {
    GateDecision::Synthesize { reason: "passed all gates".to_string() }
}

#[test]
fn a_run_without_clusters_reports_nothing() {
    let run = SynthesisRun::new(0, &SynthesisSettings::default());
    let report = run.finish(Period { secs: 2, nanos: 5 });
    assert_eq!(report.clusters_found, 0);
    assert_eq!(report.clusters_synthesized, 0);
    assert_eq!(report.clusters_auto_updated, 0);
    assert_eq!(report.clusters_deferred, 0);
    assert_eq!(report.clusters_skipped, 0);
    assert!(report.insights_created.is_empty());
    assert!(report.sources_demoted.is_empty());
    assert!(report.errors.is_empty());
    assert_eq!(report.duration.secs, 2);
    assert_eq!(report.duration.nanos, 5);
}

#[test]
fn a_run_counts_each_cluster_once() {
    let mut run = SynthesisRun::new(6, &SynthesisSettings::default());
    run.skip_unchanged();
    assert_eq!(run.decide(&GateDecision::Defer { reason: "d".to_string() }, true), Step::Done);
    assert_eq!(run.decide(&GateDecision::Skip { reason: "s".to_string() }, true), Step::Done);
    let merge = GateDecision::AutoUpdate {
        action: AutoUpdateAction::MergeDuplicates {
            keep: "m1".to_string(),
            demote: texts(&["m2"]),
        },
    };
    assert_eq!(run.decide(&merge, false), Step::AutoUpdate);
    run.auto_updated("c4", AutoOutcome::Merged(texts(&["m2"])));
    assert_eq!(run.decide(&synthesize(), false), Step::Done);
    assert_eq!(run.decide(&synthesize(), true), Step::Generate);
    let stored = Outcome::Stored { insight_id: "i1".to_string(), demoted: texts(&["s1", "s2"]) };
    run.conclude("c6", false, stored);
    let report = run.finish(Period { secs: 0, nanos: 0 });
    assert_eq!(report.clusters_skipped, 3);
    assert_eq!(report.clusters_deferred, 1);
    assert_eq!(report.clusters_auto_updated, 1);
    assert_eq!(report.clusters_synthesized, 1);
    assert_eq!(report.synthesis_runs_full, 1);
    assert_eq!(report.synthesis_runs_incremental, 0);
    assert_eq!(report.insights_created, vec!["i1"]);
    assert_eq!(report.sources_demoted, vec!["m2", "s1", "s2"]);
    assert!(report.errors.is_empty());
}

#[test]
fn a_run_stops_asking_when_the_calls_are_used_up() {
    let mut settings = SynthesisSettings::default();
    settings.max_llm_calls_per_run = 1;
    let mut run = SynthesisRun::new(3, &settings);
    assert_eq!(run.decide(&synthesize(), true), Step::Generate);
    run.conclude("c1", true, Outcome::Stored { insight_id: "i1".to_string(), demoted: vec![] });
    assert_eq!(run.decide(&synthesize(), true), Step::Done);
    assert_eq!(run.decide(&synthesize(), true), Step::Done);
    let report = run.finish(Period { secs: 0, nanos: 0 });
    assert_eq!(report.clusters_synthesized, 1);
    assert_eq!(report.synthesis_runs_incremental, 1);
    assert_eq!(report.clusters_skipped, 2);
    assert_eq!(report.errors.len(), 2);
    assert!(matches!(
        report.errors[0],
        SynthesisError::BudgetExhausted { remaining_clusters: 2 }
    ));
    assert!(matches!(
        report.errors[1],
        SynthesisError::BudgetExhausted { remaining_clusters: 1 }
    ));
}

#[test]
fn a_run_stops_asking_when_the_insights_are_used_up() {
    let mut settings = SynthesisSettings::default();
    settings.max_insights_per_consolidation = 1;
    let mut run = SynthesisRun::new(2, &settings);
    assert_eq!(run.decide(&synthesize(), true), Step::Generate);
    run.conclude("c1", false, Outcome::Stored { insight_id: "i1".to_string(), demoted: vec![] });
    assert_eq!(run.decide(&synthesize(), true), Step::Done);
    let report = run.finish(Period { secs: 0, nanos: 0 });
    assert_eq!(report.clusters_synthesized, 1);
    assert_eq!(report.clusters_skipped, 1);
    assert!(report.errors.is_empty());
}

#[test]
fn failures_are_reported_and_skip_the_cluster() {
    let mut settings = SynthesisSettings::default();
    settings.max_llm_calls_per_run = 4;
    let mut run = SynthesisRun::new(5, &settings);
    assert_eq!(run.decide(&synthesize(), true), Step::Generate);
    run.conclude("c1", false, Outcome::Unreachable);
    // A call that never came back is charged like any other.
    assert_eq!(run.llm_calls_remaining, 3);
    assert_eq!(run.decide(&synthesize(), true), Step::Generate);
    let rejected = SynthesisError::LlmTimeout { cluster_id: "other".to_string() };
    run.conclude("c2", false, Outcome::Rejected(rejected));
    assert_eq!(run.llm_calls_remaining, 2);
    assert_eq!(run.decide(&synthesize(), true), Step::Generate);
    run.conclude("c3", false, Outcome::StoreFailed("disk full".to_string()));
    assert_eq!(run.llm_calls_remaining, 1);
    run.auto_updated("c4", AutoOutcome::MergeFailed("locked".to_string()));
    run.auto_updated("c5", AutoOutcome::Strengthened);
    let report = run.finish(Period { secs: 0, nanos: 0 });
    assert_eq!(report.clusters_skipped, 3);
    assert_eq!(report.clusters_auto_updated, 2);
    assert_eq!(report.errors.len(), 4);
    assert!(matches!(&report.errors[0], SynthesisError::LlmTimeout { cluster_id } if cluster_id == "c1"));
    assert!(matches!(&report.errors[1], SynthesisError::LlmTimeout { cluster_id } if cluster_id == "other"));
    match &report.errors[2] {
        SynthesisError::StorageError { cluster_id, message } => {
            assert_eq!(cluster_id, "c3");
            assert_eq!(message, "disk full");
        }
        other => panic!("unexpected {:?}", other),
    }
    match &report.errors[3] {
        SynthesisError::StorageError { cluster_id, message } => {
            assert_eq!(cluster_id, "c4");
            assert_eq!(message, "MergeDuplicates failed: locked");
        }
        other => panic!("unexpected {:?}", other),
    }
}

#[test]
fn results_of_the_synthesis_gate_are_kept_in_order() {
    let mut run = SynthesisRun::new(2, &SynthesisSettings::default());
    for id in ["c1", "c2"] {
        run.record_gate(GateResult {
            cluster_id: id.to_string(),
            decision: GateDecision::Skip { reason: "r".to_string() },
            scores: GateScores {
                quality: score(0.5),
                type_diversity: 1,
                estimated_cost: score(0.0),
                member_count: 1,
            },
            timestamp: at(3),
        });
        assert_eq!(run.decide(&skip(), true), Step::Done);
    }
    assert_eq!(run.report.gate_results.len(), 2);
    assert_eq!(run.report.gate_results[0].cluster_id, "c1");
    assert_eq!(run.report.gate_results[1].cluster_id, "c2");
}

#[test]
fn failed_calls_use_up_the_budget() {
    let mut settings = SynthesisSettings::default();
    settings.max_llm_calls_per_run = 1;
    settings.max_insights_per_consolidation = 2;
    let mut run = SynthesisRun::new(2, &settings);
    assert_eq!(run.decide(&synthesize(), true), Step::Generate);
    run.conclude("c1", false, Outcome::Unreachable);
    assert_eq!(run.decide(&synthesize(), true), Step::Done);
    let report = run.finish(Period { secs: 0, nanos: 0 });
    assert_eq!(report.clusters_skipped, 2);
    assert!(matches!(report.errors[1], SynthesisError::BudgetExhausted { remaining_clusters: 1 }));
}

#[test]
fn stored_clusters_are_used_where_there_are_any() {
    assert_eq!(settle_source(Strategy::Cold, 3), ClusterSource::DiscoverAndStore);
    assert_eq!(settle_source(Strategy::Warm, 0), ClusterSource::ReclusterDirty);
    assert_eq!(settle_source(Strategy::Cached, 3), ClusterSource::Stored);
    assert_eq!(settle_source(Strategy::Cached, 0), ClusterSource::Discover);
}

fn gate_result(
    cluster: &MemoryCluster,
    members: &Vec<MemoryRecord>,
    config: &GateConfig,
    cluster_changed: bool,
) -> GateResult {
    let cost = content_bytes(members) as f64 / 4.0 * 0.000001;
    let context = GateContext {
        covered_pct: score(0.0),
        cluster_changed,
        all_pairs_similar: false,
        cost: score(cost),
    };
    let figures = GateFigures {
        quality: format!("{:.3}", num(cluster.quality_score)),
        quality_threshold: format!("{}", num(config.gate_quality_threshold)),
        defer_threshold: format!("{}", num(config.defer_quality_threshold)),
        covered: "0".to_string(),
        cost: format!("{:.4}", cost),
        cost_threshold: format!("{}", num(config.cost_threshold)),
    };
    check_gate(cluster, members, config, &context, &figures, at(7))
}

/// One run over clusters, with every insight stored.
fn run_over(
    clusters: &[MemoryCluster],
    memories: &Vec<MemoryRecord>,
    states: &mut HashMap<String, IncrementalState>,
    settings: &SynthesisSettings,
) -> SynthesisReport {
    let mut run = SynthesisRun::new(clusters.len(), settings);
    for cluster in clusters {
        let before = states.get(&cluster.id).cloned();
        if let Some(s) = &before {
            if !stale(cluster, s) {
                run.skip_unchanged();
                continue;
            }
        }
        let members = resolve_members(memories, &cluster.members);
        let changed = cluster_changed(&cluster.members, &before);
        let gate = gate_result(cluster, &members, &settings.gate, changed);
        let decision = gate.decision.clone();
        run.record_gate(gate);
        let latest = record_attempt(&before, cluster, at(10));
        states.insert(cluster.id.clone(), latest.clone());
        if run.decide(&decision, true) == Step::Generate {
            let outcome =
                Outcome::Stored { insight_id: format!("i-{}", cluster.id), demoted: vec![] };
            run.conclude(&cluster.id, before.is_some(), outcome);
            let done = record_synthesis(&before, &Some(latest), cluster, at(11));
            states.insert(cluster.id.clone(), done);
        }
    }
    run.finish(Period { secs: 0, nanos: 0 })
}

fn open_settings() -> SynthesisSettings {
    let mut settings = SynthesisSettings::default();
    settings.enabled = true;
    settings.cluster_discovery.min_importance = score(0.3);
    settings.cluster_discovery.cluster_threshold = score(0.1);
    settings.gate.gate_quality_threshold = score(0.1);
    settings.gate.defer_quality_threshold = score(0.1);
    settings.gate.min_type_diversity = 1;
    settings
}

#[test]
fn test_cluster_changed_no_prior_attempt() {
    let memories = vec![
        make_memory("m1", "Cats are animals", MemoryType::Factual, 0.7),
        make_memory("m2", "Dogs are animals", MemoryType::Episodic, 0.7),
        make_memory("m3", "Birds are animals", MemoryType::Relational, 0.7),
    ];
    let clusters = [make_cluster("c1", &["m1", "m2", "m3"], 0.7)];
    assert!(cluster_changed(&clusters[0].members, &None));
    let report = run_over(&clusters, &memories, &mut HashMap::new(), &open_settings());
    assert_eq!(report.gate_results.len(), 1);
    for gr in &report.gate_results {
        if let GateDecision::Skip { reason } = &gr.decision {
            assert!(
                !reason.contains("no growth"),
                "New cluster should not be skipped for 'no growth': {}",
                reason
            );
        }
    }
    assert_eq!(report.clusters_synthesized, 1);
}

#[test]
fn test_cluster_changed_same_members_returns_false() {
    let memories = vec![
        make_memory("m1", "Apples are fruit", MemoryType::Factual, 0.7),
        make_memory("m2", "Oranges are fruit", MemoryType::Episodic, 0.7),
        make_memory("m3", "Bananas are fruit", MemoryType::Relational, 0.7),
    ];
    let clusters = [make_cluster("c1", &["m1", "m2", "m3"], 0.7)];
    let mut states = HashMap::new();
    let report1 = run_over(&clusters, &memories, &mut states, &open_settings());
    assert_eq!(report1.clusters_synthesized, 1);
    let report2 = run_over(&clusters, &memories, &mut states, &open_settings());
    assert_eq!(report2.clusters_synthesized, 0, "Unchanged cluster should not be re-synthesized");
    let state = states.get("c1").cloned();
    assert!(!cluster_changed(&clusters[0].members, &state));
    let gate = gate_result(&clusters[0], &memories, &open_settings().gate, false);
    assert_eq!(
        gate.decision,
        GateDecision::Skip { reason: "no growth since last attempt".to_string() }
    );
}

#[test]
fn test_attempt_count_persisted() {
    let memories = vec![
        make_memory("m1", "Fish swim in water", MemoryType::Factual, 0.7),
        make_memory("m2", "Fish have gills", MemoryType::Episodic, 0.7),
        make_memory("m3", "Fish are cold-blooded", MemoryType::Relational, 0.7),
    ];
    let clusters = [make_cluster("c1", &["m1", "m2", "m3"], 0.7)];
    let mut states = HashMap::new();
    let report = run_over(&clusters, &memories, &mut states, &open_settings());
    assert_eq!(report.gate_results.len(), 1);
    for gr in &report.gate_results {
        let state = states.get(&gr.cluster_id);
        assert!(state.is_some(), "Incremental state should be saved for attempted cluster");
        let state = state.unwrap();
        assert!(
            state.attempt_count >= 1,
            "attempt_count should be at least 1 after first run, got {}",
            state.attempt_count
        );
        assert!(
            !state.last_attempt_members.is_empty(),
            "last_attempt_members should be populated"
        );
    }
}

#[test]
fn test_budget_exhaustion() {
    let memories = vec![
        make_memory("m1", "First topic memory A", MemoryType::Factual, 0.7),
        make_memory("m2", "First topic memory B", MemoryType::Episodic, 0.7),
        make_memory("m3", "First topic memory C", MemoryType::Relational, 0.7),
        make_memory("m4", "Second topic memory D", MemoryType::Factual, 0.7),
        make_memory("m5", "Second topic memory E", MemoryType::Episodic, 0.7),
        make_memory("m6", "Second topic memory F", MemoryType::Relational, 0.7),
    ];
    let clusters = [
        make_cluster("c1", &["m1", "m2", "m3"], 0.7),
        make_cluster("c2", &["m4", "m5", "m6"], 0.7),
    ];
    let mut settings = open_settings();
    settings.max_llm_calls_per_run = 1;
    let report = run_over(&clusters, &memories, &mut HashMap::new(), &settings);
    assert!(
        report.clusters_synthesized <= 1,
        "Expected at most 1 synthesis, got {}",
        report.clusters_synthesized
    );
    let synthesize_gate_count = report
        .gate_results
        .iter()
        .filter(|r| matches!(r.decision, GateDecision::Synthesize { .. }))
        .count();
    assert_eq!(synthesize_gate_count, 2);
    let budget_errors = report
        .errors
        .iter()
        .filter(|e| matches!(e, SynthesisError::BudgetExhausted { .. }))
        .count();
    assert!(
        budget_errors > 0,
        "Expected BudgetExhausted error when multiple clusters need synthesis"
    );
}

#[test]
fn test_check_gate_delegation() {
    let members = vec![
        make_memory("m1", "Fact A", MemoryType::Factual, 0.5),
        make_memory("m2", "Episode B", MemoryType::Episodic, 0.5),
        make_memory("m3", "Relation C", MemoryType::Relational, 0.5),
    ];
    let cluster = make_cluster("test-cluster", &["m1", "m2", "m3"], 0.8);
    let result = gate_result(&cluster, &members, &GateConfig::default(), true);
    assert!(
        matches!(result.decision, GateDecision::Synthesize { .. }),
        "Expected Synthesize, got {:?}",
        result.decision
    );
}
