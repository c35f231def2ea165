use engramai::score::Score;
use engramai::substrate::types::MemoryType;
use engramai::synthesis::cluster::{
    anything_to_recluster, apply_emotional_modulation, assign_new_memory, build_memory_cluster,
    candidate_pairs, collect_links, community_params, compute_pairwise_signals, copy_cluster,
    count_with_entities, edges_above, edges_within, emotional_valence, infomap_communities,
    involved_ids, is_synthesis_output, max_neighbors, recluster_dirty, select_candidates,
    sort_by_quality, sparsify_edges, summarize_signals, CommunityParams, Edge, HotAssignResult,
    Link, PairFacts, WarmReclusterResult,
};
use engramai::synthesis::discovery::{
    candidate_ids, discover_clusters, discover_clusters_subset, Appraisal, Arithmetic, Gathered,
};
use engramai::synthesis::types::{
    ClusterDiscoveryConfig, ClusterSignal, EmotionalModulationConfig, MemoryCluster, MemoryRecord,
    SignalsSummary,
};
use infomap_rs::{Infomap, Network};
use std::collections::HashSet;

fn score(x: f64) -> Score {
    Score { bits: x.to_bits() }
}

fn num(s: Score) -> f64 {
    f64::from_bits(s.bits)
}

fn texts(items: &[&str]) -> Vec<String> {
    items.iter().map(|s| s.to_string()).collect()
}

fn make_test_record(id: &str) -> MemoryRecord {
    MemoryRecord {
        id: id.to_string(),
        content: format!("Test memory {}", id),
        memory_type: MemoryType::Factual,
        importance: score(0.5),
        access_count: 1,
        metadata: Some("{}".to_string()),
    }
}

#[test]
fn test_is_synthesis_output_true() {
    let mut record = make_test_record("test-1");
    record.metadata = Some("{\"is_synthesis\": true}".to_string());
    assert!(is_synthesis_output(&record));
}

#[test]
fn test_is_synthesis_output_false() {
    let record = make_test_record("test-2");
    assert!(!is_synthesis_output(&record));
}

#[test]
fn test_is_synthesis_output_no_metadata() {
    let mut record = make_test_record("test-3");
    record.metadata = None;
    assert!(!is_synthesis_output(&record));
}

#[test]
fn test_is_synthesis_output_wrong_type() {
    let mut record = make_test_record("test-4");
    record.metadata = Some("{\"is_synthesis\": \"yes\"}".to_string());
    assert!(!is_synthesis_output(&record));
}

#[test]
fn metadata_that_is_no_object_is_no_synthesis() {
    let mut record = make_test_record("test-5");
    for metadata in ["[true]", "true", "not json", "{\"is_synthesis\": false}"] {
        record.metadata = Some(metadata.to_string());
        assert!(!is_synthesis_output(&record));
    }
}

#[test]
fn candidates_are_used_important_and_not_derived() {
    let config = ClusterDiscoveryConfig {
        min_cluster_size: 1,
        min_importance: score(0.5),
        ..Default::default()
    };
    let kept = make_test_record("kept");
    let mut unused = make_test_record("unused");
    unused.access_count = 0;
    let mut minor = make_test_record("minor");
    minor.importance = score(0.49);
    let mut derived = make_test_record("derived");
    derived.metadata = Some("{\"is_synthesis\":true}".to_string());
    let memories = vec![kept, unused, minor, derived];
    let found = select_candidates(&memories, &config, false);
    assert_eq!(found.len(), 1);
    assert_eq!(found[0].id, "kept");
    // Of a chosen subset only what is derived is left out.
    let subset: Vec<String> =
        select_candidates(&memories, &config, true).iter().map(|m| m.id.clone()).collect();
    assert_eq!(subset, vec!["kept", "unused", "minor"]);
    assert_eq!(candidate_ids(&memories, &config, true), vec!["kept", "minor", "unused"]);
    // Fewer than a cluster needs are none.
    let strict = ClusterDiscoveryConfig { min_cluster_size: 4, ..Default::default() };
    assert!(select_candidates(&memories, &strict, false).is_empty());
    assert!(select_candidates(&memories, &strict, true).is_empty());
}

fn communities(
    ids: &[&str],
    links: &[(&str, &str, f64)],
    config: &ClusterDiscoveryConfig,
) -> Vec<Vec<String>> {
    let mut sorted: Vec<&str> = ids.to_vec();
    sorted.sort();
    let place = |id: &str| sorted.iter().position(|x| *x == id).unwrap();
    let mut network = Network::with_capacity(sorted.len());
    network.ensure_capacity(sorted.len());
    for (a, b, weight) in links {
        network.add_edge(place(a), place(b), *weight);
        network.add_edge(place(b), place(a), *weight);
    }
    let params = community_params(sorted.len(), links.len(), config);
    let assignments = Infomap::new(&network)
        .seed(42)
        .num_trials(params.trials)
        .hierarchical(params.hierarchical)
        .run()
        .assignments;
    infomap_communities(&assignments, sorted.len(), links.len(), config)
        .iter()
        .map(|g| g.iter().map(|i| sorted[*i].to_string()).collect())
        .collect()
}

fn sizes(min_cluster_size: usize, max_cluster_size: usize) -> ClusterDiscoveryConfig {
    ClusterDiscoveryConfig { min_cluster_size, max_cluster_size, ..Default::default() }
}

#[test]
fn test_infomap_communities_simple_triangle() {
    let links = [("a", "b", 0.5), ("b", "c", 0.6), ("a", "c", 0.4)];
    let components = communities(&["a", "b", "c"], &links, &sizes(3, 15));
    assert_eq!(components.len(), 1);
    assert_eq!(components[0], vec!["a", "b", "c"]);
}

#[test]
fn test_infomap_communities_two_clusters() {
    let links = [
        ("a", "b", 1.0),
        ("b", "c", 1.0),
        ("a", "c", 1.0),
        ("d", "e", 1.0),
        ("e", "f", 1.0),
        ("d", "f", 1.0),
    ];
    let mut components = communities(&["a", "b", "c", "d", "e", "f"], &links, &sizes(2, 15));
    components.sort_by(|a, b| a[0].cmp(&b[0]));
    assert_eq!(components.len(), 2);
    assert_eq!(components[0], vec!["a", "b", "c"]);
    assert_eq!(components[1], vec!["d", "e", "f"]);
}

#[test]
fn test_infomap_communities_filters_small() {
    let components = communities(&["a", "b", "c"], &[("a", "b", 0.5)], &sizes(3, 15));
    assert_eq!(components.len(), 0);
}

#[test]
fn test_infomap_communities_truncates_large() {
    let links = [
        ("a", "b", 1.0),
        ("b", "c", 1.0),
        ("c", "d", 1.0),
        ("d", "e", 1.0),
        ("a", "c", 1.0),
        ("a", "d", 1.0),
        ("a", "e", 1.0),
        ("b", "d", 1.0),
        ("b", "e", 1.0),
        ("c", "e", 1.0),
    ];
    let components = communities(&["a", "b", "c", "d", "e"], &links, &sizes(2, 3));
    for component in &components {
        assert!(component.len() <= 3);
    }
}

#[test]
fn test_infomap_no_chaining_effect() {
    let links = [
        ("a", "b", 1.0),
        ("b", "c", 1.0),
        ("a", "c", 1.0),
        ("d", "e", 1.0),
        ("e", "f", 1.0),
        ("d", "f", 1.0),
        ("c", "d", 0.05),
    ];
    let components = communities(&["a", "b", "c", "d", "e", "f"], &links, &sizes(3, 15));
    assert_eq!(components.len(), 2);
}

#[test]
fn communities_follow_the_assignments() {
    let config = sizes(2, 3);
    let groups = infomap_communities(&vec![7, 1, 7, 7, 1, 7, 4], 7, 1, &config);
    // Seven is cut to three, four stands alone.
    assert_eq!(groups, vec![vec![0, 2, 3], vec![1, 4]]);
    // What is assigned beyond the nodes is left out.
    assert_eq!(infomap_communities(&vec![1, 1, 1], 2, 1, &config), vec![vec![0, 1]]);
    // Without edges there are none.
    let any = sizes(1, 3);
    assert!(infomap_communities(&vec![0, 1, 2], 3, 0, &any).is_empty());
}

#[test]
fn detection_is_tuned_by_size_unless_configured() {
    let config = ClusterDiscoveryConfig::default();
    assert_eq!(community_params(10, 49, &config).trials, 1);
    assert_eq!(community_params(10, 50, &config).trials, 3);
    assert_eq!(community_params(0, 50, &config).trials, 1);
    assert!(!community_params(2000, 1, &config).hierarchical);
    assert!(community_params(2001, 1, &config).hierarchical);
    let fixed = ClusterDiscoveryConfig {
        infomap_trials: Some(9),
        infomap_hierarchical: Some(true),
        ..Default::default()
    };
    assert_eq!(community_params(10, 1, &fixed).trials, 9);
    assert!(community_params(10, 1, &fixed).hierarchical);
}

fn build(
    members: &[&str],
    links: &[(usize, usize, f64)],
    min_cluster_size: usize,
) -> Option<MemoryCluster> {
    let edges: Vec<Edge> =
        links.iter().map(|(lo, hi, w)| Edge { lo: *lo, hi: *hi, weight: score(*w) }).collect();
    let nodes: Vec<usize> = (0..members.len()).collect();
    let inside = edges_within(&edges, &nodes);
    let mut total = 0.0;
    let mut sums = vec![(0.0, 0_usize); members.len()];
    for i in &inside {
        let w = num(edges[*i].weight);
        total += w;
        for end in [edges[*i].lo, edges[*i].hi] {
            sums[end].0 += w;
            sums[end].1 += 1;
        }
    }
    let quality = if inside.is_empty() { 0.0 } else { total / inside.len() as f64 };
    let averages: Vec<Option<Score>> = sums
        .iter()
        .map(|(s, n)| if *n == 0 { None } else { Some(score(s / *n as f64)) })
        .collect();
    let signals = summarize_signals(score(0.4), score(0.0), score(0.2), score(0.1));
    build_memory_cluster(&texts(members), &averages, score(quality), signals, min_cluster_size)
}

#[test]
fn test_build_memory_cluster_basic() {
    let cluster = build(&["m1", "m2", "m3"], &[(0, 1, 0.5), (1, 2, 0.6)], 2).unwrap();
    assert_eq!(cluster.members, vec!["m1", "m2", "m3"]);
    assert!(num(cluster.quality_score) > 0.0);
    assert!(cluster.id.starts_with("cluster-"));
    assert_eq!(cluster.id.len(), "cluster-".len() + 16);
    assert_eq!(cluster.centroid_id, "m3");
    assert_eq!(cluster.signals_summary.dominant_signal, ClusterSignal::Hebbian);
}

#[test]
fn test_build_memory_cluster_too_small() {
    assert!(build(&["m1"], &[], 5).is_none());
}

#[test]
fn a_cluster_is_named_by_its_members() {
    let a = build(&["m1", "m2"], &[(0, 1, 0.5)], 2).unwrap();
    let b = build(&["m2", "m1"], &[(0, 1, 0.9)], 2).unwrap();
    let c = build(&["m1", "m3"], &[(0, 1, 0.5)], 2).unwrap();
    assert_eq!(a.id, b.id);
    assert_eq!(b.members, vec!["m1", "m2"]);
    assert_ne!(a.id, c.id);
    // Without edges the first member stands in the middle.
    let lone = build(&["m2", "m1"], &[], 1).unwrap();
    assert_eq!(lone.centroid_id, "m2");
    assert_eq!(num(lone.quality_score), 0.0);
    let copy = copy_cluster(&a);
    assert_eq!(copy.id, a.id);
    assert_eq!(copy.members, a.members);
}

#[test]
fn the_greatest_contribution_dominates() {
    let of = |h, e, m, t| summarize_signals(score(h), score(e), score(m), score(t)).dominant_signal;
    assert_eq!(of(0.4, 0.3, 0.2, 0.1), ClusterSignal::Hebbian);
    assert_eq!(of(0.2, 0.3, 0.2, 0.1), ClusterSignal::Entity);
    assert_eq!(of(0.1, 0.1, 0.2, 0.1), ClusterSignal::Embedding);
    assert_eq!(of(0.1, 0.1, 0.1, 0.2), ClusterSignal::Temporal);
    // Ties go to the earlier one.
    assert_eq!(of(0.2, 0.2, 0.2, 0.2), ClusterSignal::Hebbian);
    assert_eq!(of(0.1, 0.2, 0.2, 0.2), ClusterSignal::Entity);
    assert_eq!(of(0.1, 0.1, 0.2, 0.2), ClusterSignal::Embedding);
}

fn make_cluster_with_quality(id: &str, members: &[&str], quality: f64) -> MemoryCluster {
    MemoryCluster {
        id: id.to_string(),
        members: texts(members),
        quality_score: score(quality),
        centroid_id: members[0].to_string(),
        signals_summary: SignalsSummary {
            dominant_signal: ClusterSignal::Hebbian,
            hebbian_contribution: score(0.4),
            entity_contribution: score(0.3),
            embedding_contribution: score(0.2),
            temporal_contribution: score(0.1),
        },
    }
}

fn make_record_with_emotion(id: &str, valence: Option<f64>) -> MemoryRecord {
    let mut rec = make_test_record(id);
    rec.memory_type = MemoryType::Emotional;
    if let Some(v) = valence {
        rec.metadata = Some(format!("{{\"emotional_valence\": {}}}", v));
    }
    rec
}

fn salience(cluster: &MemoryCluster, records: &[MemoryRecord]) -> f64 {
    let total: f64 = cluster
        .members
        .iter()
        .map(|id| {
            records
                .iter()
                .find(|m| m.id == *id)
                .and_then(|m| emotional_valence(m))
                .map(|v| num(v).abs())
                .unwrap_or(0.0)
        })
        .sum();
    total / cluster.members.len() as f64
}

fn modulate(
    clusters: Vec<MemoryCluster>,
    records: &[MemoryRecord],
    config: &EmotionalModulationConfig,
) -> Vec<MemoryCluster> {
    let saliences: Vec<Score> = clusters.iter().map(|c| score(salience(c, records))).collect();
    let weight = num(config.emotional_boost_weight);
    let boosts: Vec<Score> = clusters
        .iter()
        .zip(&saliences)
        .map(|(c, s)| score(num(c.quality_score) * (1.0 + weight * num(*s))))
        .collect();
    apply_emotional_modulation(clusters, &saliences, &boosts, config)
}

#[test]
fn test_emotional_modulation_noop_when_disabled() {
    let config = EmotionalModulationConfig {
        emotional_boost_weight: score(0.0),
        prioritize_emotional: false,
        include_emotion_in_prompt: false,
    };
    let clusters = vec![
        make_cluster_with_quality("c1", &["a", "b"], 0.5),
        make_cluster_with_quality("c2", &["c", "d"], 0.8),
    ];
    let result = modulate(clusters, &[], &config);
    assert_eq!(result.len(), 2);
    assert_eq!(num(result[0].quality_score), 0.5);
    assert_eq!(num(result[1].quality_score), 0.8);
}

#[test]
fn test_emotional_modulation_boosts_quality() {
    let config = EmotionalModulationConfig {
        emotional_boost_weight: score(0.5),
        prioritize_emotional: false,
        include_emotion_in_prompt: true,
    };
    let clusters = vec![make_cluster_with_quality("c1", &["a", "b"], 0.6)];
    let records =
        [make_record_with_emotion("a", Some(0.8)), make_record_with_emotion("b", Some(0.4))];
    let result = modulate(clusters, &records, &config);
    assert!((num(result[0].quality_score) - 0.78).abs() < 0.001);
}

#[test]
fn test_emotional_modulation_prioritizes_emotional_clusters() {
    let config = EmotionalModulationConfig {
        emotional_boost_weight: score(0.0),
        prioritize_emotional: true,
        include_emotion_in_prompt: true,
    };
    let clusters = vec![
        make_cluster_with_quality("c1", &["a"], 0.9),
        make_cluster_with_quality("c2", &["b"], 0.3),
    ];
    let records = [make_record_with_emotion("a", None), make_record_with_emotion("b", Some(0.9))];
    let result = modulate(clusters, &records, &config);
    assert_eq!(result[0].id, "c2");
    assert_eq!(result[1].id, "c1");
}

#[test]
fn test_emotional_boost_increases_quality() {
    let config = EmotionalModulationConfig {
        emotional_boost_weight: score(0.5),
        prioritize_emotional: false,
        include_emotion_in_prompt: true,
    };
    let records = [
        make_record_with_emotion("m1", None),
        make_record_with_emotion("m2", Some(0.9)),
        make_record_with_emotion("m3", None),
    ];
    let clusters = vec![make_cluster_with_quality("c1", &["m1", "m2", "m3"], 0.5)];
    let result = modulate(clusters, &records, &config);
    assert_eq!(result.len(), 1);
    assert!(num(result[0].quality_score) > 0.5);
}

#[test]
fn test_emotional_salience_no_emotion() {
    let cluster = make_cluster_with_quality("c1", &["a", "b"], 0.5);
    let records = [make_record_with_emotion("a", None), make_record_with_emotion("b", None)];
    assert!(emotional_valence(&records[0]).is_none());
    assert_eq!(salience(&cluster, &records), 0.0);
}

#[test]
fn equal_salience_goes_by_quality() {
    let config = EmotionalModulationConfig {
        emotional_boost_weight: score(0.0),
        prioritize_emotional: true,
        include_emotion_in_prompt: true,
    };
    let clusters = vec![
        make_cluster_with_quality("low", &["a"], 0.3),
        make_cluster_with_quality("high", &["b"], 0.9),
        make_cluster_with_quality("high2", &["c"], 0.9),
    ];
    let result = modulate(clusters, &[], &config);
    let order: Vec<&str> = result.iter().map(|c| c.id.as_str()).collect();
    assert_eq!(order, vec!["high", "high2", "low"]);
}

#[test]
fn valences_are_read_from_metadata() {
    let read = |m: &str| {
        let mut r = make_test_record("x");
        r.metadata = Some(m.to_string());
        emotional_valence(&r).map(num)
    };
    assert_eq!(read("{\"emotional_valence\": -0.8}"), Some(0.8));
    assert_eq!(read("{\"emotional_valence\": 1}"), Some(1.0));
    assert_eq!(read("{\"emotional_valence\": \"0.8\"}"), None);
    assert_eq!(read("{}"), None);
    assert_eq!(read("[]"), None);
}

fn cosine(a: &[f32], b: &[f32]) -> f64 {
    let dot: f64 = a.iter().zip(b).map(|(x, y)| *x as f64 * *y as f64).sum();
    let na: f64 = a.iter().map(|x| *x as f64 * *x as f64).sum::<f64>().sqrt();
    let nb: f64 = b.iter().map(|x| *x as f64 * *x as f64).sum::<f64>().sqrt();
    dot / (na * nb)
}

fn assign(embedding: &[f32], centroids: &[(&str, Vec<f32>)]) -> HotAssignResult {
    let ids: Vec<String> = centroids.iter().map(|c| c.0.to_string()).collect();
    let similarities: Vec<Score> =
        centroids.iter().map(|c| score(cosine(embedding, &c.1))).collect();
    assign_new_memory(&ids, &similarities, &ClusterDiscoveryConfig::default())
}

#[test]
fn test_assign_new_memory_no_clusters() {
    let result = assign(&[1.0, 0.0, 0.0], &[]);
    assert_eq!(result, HotAssignResult::NoClusters);
}

#[test]
fn test_assign_new_memory_assigned() {
    let result = assign(&[0.9, 0.1, 0.0], &[("cluster-a", vec![1.0, 0.0, 0.0])]);
    match result {
        HotAssignResult::Assigned { cluster_id, confidence } => {
            assert_eq!(cluster_id, "cluster-a");
            assert!(num(confidence) >= 0.6);
        }
        other => panic!("expected Assigned, got {:?}", other),
    }
}

#[test]
fn test_assign_new_memory_pending() {
    let result = assign(&[0.0, 1.0, 0.0], &[("cluster-a", vec![1.0, 0.0, 0.0])]);
    assert_eq!(result, HotAssignResult::Pending);
}

#[test]
fn the_first_of_equally_near_clusters_is_taken() {
    let ids = texts(&["c1", "c2", "c3"]);
    let config =
        ClusterDiscoveryConfig { hot_assign_threshold: Some(score(0.7)), ..Default::default() };
    let near = vec![score(0.5), score(0.7), score(0.7)];
    match assign_new_memory(&ids, &near, &config) {
        HotAssignResult::Assigned { cluster_id, confidence } => {
            assert_eq!(cluster_id, "c2");
            assert_eq!(num(confidence), 0.7);
        }
        other => panic!("expected Assigned, got {:?}", other),
    }
    let far = vec![score(0.5), score(0.69), score(0.1)];
    assert_eq!(assign_new_memory(&ids, &far, &config), HotAssignResult::Pending);
}

#[test]
fn test_recluster_dirty_nothing_to_do() {
    assert!(!anything_to_recluster(0, 0));
    assert_eq!(recluster_dirty(0, 0, 0), WarmReclusterResult::NothingToDo);
}

fn l2(a: &[f32], b: &[f32]) -> f32 {
    a.iter().zip(b.iter()).map(|(x, y)| (x - y) * (x - y)).sum::<f32>().sqrt()
}

fn narrow(s: Score) -> f32 {
    num(s) as f32
}

fn discover(
    memories: &Vec<MemoryRecord>,
    links: Vec<Link>,
    entities: Vec<Vec<String>>,
    embeddings: &[Option<Vec<f32>>],
    config: &ClusterDiscoveryConfig,
    subset: bool,
) -> Vec<MemoryCluster> {
    let ids = candidate_ids(memories, config, subset);
    let embedded: Vec<usize> = (0..ids.len()).filter(|i| embeddings[*i].is_some()).collect();
    let vectors: Vec<&Vec<f32>> =
        embedded.iter().map(|i| embeddings[*i].as_ref().unwrap()).collect();
    let weights = [
        num(config.weights.hebbian),
        num(config.weights.entity),
        num(config.weights.embedding),
    ];
    let arithmetic = Arithmetic {
        distance: |i: usize, j: usize| score(l2(vectors[i], vectors[j]) as f64),
        outer: |d: Score, tau: Score, t: Score| narrow(d) + narrow(tau) > narrow(t),
        inner: |d: Score, tau: Score, t: Score| narrow(d) - narrow(tau) <= narrow(t),
        relate: |facts: PairFacts, i: usize, j: usize| {
            let hebbian = facts.hebbian_weight.map(|w| (num(w) / 10.0).min(1.0)).unwrap_or(0.0);
            let entity = if facts.all_entities == 0 {
                0.0
            } else {
                facts.shared_entities as f64 / facts.all_entities as f64
            };
            let embedding = match (&embeddings[i], &embeddings[j]) {
                (Some(a), Some(b)) => cosine(a, b),
                _ => 0.0,
            };
            score(weights[0] * hebbian + weights[1] * entity + weights[2] * embedding)
        },
        detect: |edges: &Vec<Edge>, n: usize, params: CommunityParams| {
            let mut network = Network::with_capacity(n);
            network.ensure_capacity(n);
            for e in edges {
                network.add_edge(e.lo, e.hi, num(e.weight));
                network.add_edge(e.hi, e.lo, num(e.weight));
            }
            Infomap::new(&network)
                .seed(42)
                .num_trials(params.trials)
                .hierarchical(params.hierarchical)
                .run()
                .assignments
        },
        appraise: |edges: &Vec<Edge>, members: &Vec<usize>, with_entities: usize| {
            let total: f64 = edges.iter().map(|e| num(e.weight)).sum();
            let averages = members
                .iter()
                .map(|m| {
                    let own: Vec<f64> = edges
                        .iter()
                        .filter(|e| e.lo == *m || e.hi == *m)
                        .map(|e| num(e.weight))
                        .collect();
                    if own.is_empty() {
                        None
                    } else {
                        Some(score(own.iter().sum::<f64>() / own.len() as f64))
                    }
                })
                .collect();
            Appraisal {
                averages,
                quality: score(if edges.is_empty() { 0.0 } else { total / edges.len() as f64 }),
                entity: score(weights[1] * with_entities as f64 / members.len().max(1) as f64),
            }
        },
    };
    let gathered = Gathered { ids, links, entities, embedded };
    if subset {
        discover_clusters_subset(memories, &gathered, config, &arithmetic)
    } else {
        discover_clusters(memories, &gathered, config, &arithmetic)
    }
}

#[test]
fn test_recluster_dirty_with_pending() {
    let config = ClusterDiscoveryConfig {
        cluster_threshold: score(0.1),
        min_cluster_size: 2,
        min_importance: score(0.0),
        ..Default::default()
    };
    let pending: Vec<String> = (0..4).map(|i| format!("mem-{}", i)).collect();
    assert!(anything_to_recluster(0, pending.len()));
    let ids = involved_ids(&Vec::new(), &pending);
    let records: Vec<MemoryRecord> = ids.iter().map(|id| make_test_record(id)).collect();
    let embeddings = [
        Some(vec![1.0_f32, 0.0, 0.0]),
        Some(vec![0.9, 0.1, 0.0]),
        Some(vec![0.0, 0.0, 1.0]),
        Some(vec![0.0, 0.1, 0.9]),
    ];
    let entities = vec![Vec::new(); 4];
    let clusters = discover(&records, Vec::new(), entities, &embeddings, &config, true);
    assert_eq!(clusters.len(), 2);
    let mut members: Vec<Vec<String>> = clusters.iter().map(|c| c.members.clone()).collect();
    members.sort();
    assert_eq!(members, vec![texts(&["mem-0", "mem-1"]), texts(&["mem-2", "mem-3"])]);
    match recluster_dirty(0, pending.len(), clusters.len()) {
        WarmReclusterResult::Reclustered { dirty_clusters, pending_count, new_clusters } => {
            assert_eq!(dirty_clusters, 0);
            assert_eq!(pending_count, 4);
            assert_eq!(new_clusters, 2);
        }
        other => panic!("expected Reclustered, got {:?}", other),
    }
}

#[test]
fn linked_memories_cluster_and_the_best_comes_first() {
    let config = ClusterDiscoveryConfig {
        cluster_threshold: score(0.1),
        min_cluster_size: 3,
        min_importance: score(0.3),
        ..Default::default()
    };
    let mut memories: Vec<MemoryRecord> =
        ["m6", "m1", "m2", "m3", "m4", "m5"].iter().map(|id| make_test_record(id)).collect();
    // One that takes no part stands among them.
    let mut derived = make_test_record("m0");
    derived.metadata = Some("{\"is_synthesis\":true}".to_string());
    memories.push(derived);
    let link = |from: usize, to: &str, w: f64| Link { from, to: to.to_string(), weight: score(w) };
    let links = vec![
        link(0, "m2", 4.0),
        link(0, "m3", 4.0),
        link(1, "m3", 4.0),
        link(3, "m5", 9.0),
        link(3, "m6", 9.0),
        link(4, "m6", 9.0),
        link(0, "m0", 9.0),
    ];
    let mut entities = vec![Vec::new(); 6];
    entities[0] = texts(&["rust"]);
    entities[1] = texts(&["rust"]);
    let embeddings = vec![None; 6];
    let clusters = discover(&memories, links, entities, &embeddings, &config, false);
    assert_eq!(clusters.len(), 2);
    assert_eq!(clusters[0].members, texts(&["m4", "m5", "m6"]));
    assert_eq!(clusters[1].members, texts(&["m1", "m2", "m3"]));
    assert!(num(clusters[0].quality_score) > num(clusters[1].quality_score));
    assert_eq!(clusters[0].signals_summary.dominant_signal, ClusterSignal::Hebbian);
    assert!((num(clusters[1].signals_summary.entity_contribution) - 0.3 * 2.0 / 3.0).abs() < 1e-9);
}

#[test]
fn too_few_memories_make_no_cluster() {
    let config = ClusterDiscoveryConfig { min_cluster_size: 3, ..Default::default() };
    let memories = vec![make_test_record("m1"), make_test_record("m2")];
    assert!(discover(&memories, Vec::new(), Vec::new(), &[], &config, false).is_empty());
    // Nor do memories that nothing relates.
    let more = vec![make_test_record("m1"), make_test_record("m2"), make_test_record("m3")];
    let entities = vec![Vec::new(); 3];
    assert!(discover(&more, Vec::new(), entities, &[None, None, None], &config, true).is_empty());
}

#[test]
fn involved_ids_are_sorted_and_unique() {
    let dirty = vec![texts(&["m3", "m1"]), texts(&["m2"])];
    assert_eq!(involved_ids(&dirty, &texts(&["m1", "m9", "m0"])), texts(&[
        "m0", "m1", "m2", "m3", "m9"
    ]));
}

#[test]
fn the_first_weight_of_a_link_stands() {
    let ids = texts(&["a", "b", "c"]);
    let link = |from: usize, to: &str, w: f64| Link { from, to: to.to_string(), weight: score(w) };
    let links = vec![link(0, "b", 1.0), link(1, "a", 2.0), link(2, "a", 3.0), link(2, "zz", 4.0)];
    let edges = collect_links(&ids, &links);
    assert_eq!(edges.len(), 2);
    let found: HashSet<(usize, usize, u64)> =
        edges.iter().map(|e| (e.lo, e.hi, e.weight.bits)).collect();
    assert!(found.contains(&(0, 1, score(1.0).bits)));
    assert!(found.contains(&(0, 2, score(3.0).bits)));
}

#[test]
fn pairs_come_from_links_entities_and_neighbours() {
    let linked = vec![Edge { lo: 0, hi: 1, weight: score(1.0) }];
    let entities = vec![texts(&["rust"]), texts(&[]), texts(&["rust", "go"]), texts(&["go"])];
    let pairs = candidate_pairs(&linked, &entities, &vec![(3, 0), (1, 0)]);
    let found: HashSet<(usize, usize)> = pairs.iter().copied().collect();
    assert_eq!(found, HashSet::from([(0, 1), (0, 2), (2, 3), (0, 3)]));
    assert_eq!(pairs.len(), 4);
}

#[test]
fn signals_of_a_pair_count_entities_once() {
    let linked = vec![Edge { lo: 0, hi: 1, weight: score(5.0) }];
    let entities = vec![texts(&["a", "b", "a"]), texts(&["b", "c"]), texts(&[])];
    let facts = compute_pairwise_signals(&linked, &entities, (0, 1));
    assert_eq!(num(facts.hebbian_weight.unwrap()), 5.0);
    assert_eq!((facts.shared_entities, facts.all_entities), (1, 3));
    let none = compute_pairwise_signals(&linked, &entities, (0, 2));
    assert!(none.hebbian_weight.is_none());
    assert_eq!((none.shared_entities, none.all_entities), (0, 2));
}

#[test]
fn an_edge_reaches_the_threshold() {
    let pairs = vec![(0, 1), (0, 2), (1, 2)];
    let edges = edges_above(&pairs, &vec![score(0.3), score(0.29), score(f64::NAN)], score(0.3));
    assert_eq!(edges, vec![Edge { lo: 0, hi: 1, weight: score(0.3) }]);
}

#[test]
fn the_neighbour_limit_is_the_root_within_bounds() {
    assert_eq!(max_neighbors(Some(2), 100), 2);
    assert_eq!(max_neighbors(None, 0), 5);
    assert_eq!(max_neighbors(None, 30), 5);
    assert_eq!(max_neighbors(None, 31), 6);
    assert_eq!(max_neighbors(None, 100), 10);
    assert_eq!(max_neighbors(None, 1_000_000), 30);
    for n in 0..3000_usize {
        let expected = ((n as f64).sqrt().round() as usize).clamp(5, 30);
        assert_eq!(max_neighbors(None, n), expected);
    }
}

#[test]
fn edges_are_kept_while_an_end_has_room() {
    let e = |lo: usize, hi: usize, w: f64| Edge { lo, hi, weight: score(w) };
    let edges = vec![e(0, 1, 0.2), e(0, 2, 0.9), e(0, 3, 0.8), e(1, 2, 0.7)];
    let kept = sparsify_edges(&edges, 1, 4);
    // The weakest meets two ends that are full.
    assert_eq!(kept, vec![e(0, 2, 0.9), e(0, 3, 0.8), e(1, 2, 0.7)]);
    assert!(sparsify_edges(&edges, 0, 4).is_empty());
    assert_eq!(sparsify_edges(&edges, 9, 4).len(), 4);
}

#[test]
fn edges_inside_a_cluster_are_found() {
    let e = |lo: usize, hi: usize| Edge { lo, hi, weight: score(0.5) };
    let edges = vec![e(0, 1), e(1, 4), e(4, 0), e(2, 3)];
    assert_eq!(edges_within(&edges, &vec![0, 1, 2]), vec![0]);
    assert_eq!(edges_within(&edges, &vec![0, 1, 4]), vec![0, 1, 2]);
}

#[test]
fn members_with_entities_are_counted() {
    let entities = vec![texts(&["a"]), texts(&[]), texts(&["b"])];
    assert_eq!(count_with_entities(&entities, &vec![0, 1]), 1);
    assert_eq!(count_with_entities(&entities, &vec![0, 1, 2]), 2);
}

#[test]
fn the_best_cluster_stands_first() {
    let clusters = vec![
        make_cluster_with_quality("c1", &["a"], 0.5),
        make_cluster_with_quality("c2", &["b"], 0.8),
        make_cluster_with_quality("c3", &["c"], 0.5),
    ];
    assert_eq!(sort_by_quality(&clusters), vec![1, 0, 2]);
}

#[test]
fn the_order_of_members_does_not_matter() {
    let a = build(&["m3", "m1", "m2"], &[(0, 1, 0.5), (1, 2, 0.5), (0, 2, 0.5)], 2).unwrap();
    let b = build(&["m1", "m2", "m3"], &[(0, 1, 0.5), (1, 2, 0.5), (0, 2, 0.5)], 2).unwrap();
    assert_eq!(a.members, texts(&["m1", "m2", "m3"]));
    assert_eq!(a.members, b.members);
    assert_eq!(a.id, b.id);
}

#[test]
fn discovered_clusters_keep_to_the_sizes() {
    let config = ClusterDiscoveryConfig {
        cluster_threshold: score(0.1),
        min_cluster_size: 2,
        max_cluster_size: 3,
        min_importance: score(0.0),
        ..Default::default()
    };
    let memories: Vec<MemoryRecord> =
        ["m1", "m2", "m3", "m4", "m5"].iter().map(|id| make_test_record(id)).collect();
    let mut links = Vec::new();
    for from in 0..5_usize {
        for to in from + 1..5 {
            links.push(Link { from, to: format!("m{}", to + 1), weight: score(9.0) });
        }
    }
    let entities = vec![Vec::new(); 5];
    let embeddings = vec![None; 5];
    let clusters = discover(&memories, links, entities, &embeddings, &config, true);
    assert!(!clusters.is_empty());
    for c in &clusters {
        assert!(2 <= c.members.len() && c.members.len() <= 3);
    }
}
