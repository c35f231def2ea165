use engramai::score::Score;
use engramai::synthesis::provenance::{undo_synthesis, ProvenanceTrace};
use engramai::synthesis::types::{ProvenanceChain, ProvenanceRecord, Timestamp};

fn score(x: f64) -> Score {
    Score { bits: x.to_bits() }
}

fn make_provenance(
    id: &str,
    insight_id: &str,
    source_id: &str,
    cluster_id: &str,
    original_importance: Option<f64>,
) -> ProvenanceRecord {
    ProvenanceRecord {
        id: id.to_string(),
        insight_id: insight_id.to_string(),
        source_id: source_id.to_string(),
        cluster_id: cluster_id.to_string(),
        synthesis_timestamp: Timestamp { secs: 0, nanos: 0 },
        gate_decision: "Synthesize".to_string(),
        gate_scores: None,
        confidence: score(0.85),
        source_original_importance: original_importance.map(score),
    }
}

fn sources(records: &Vec<ProvenanceRecord>, id: &str) -> Vec<ProvenanceRecord> {
    records.iter().filter(|r| r.insight_id == id).cloned().collect()
}

fn trace(records: &Vec<ProvenanceRecord>, id: &str, max_depth: usize) -> ProvenanceChain {
    let mut trace = ProvenanceTrace::new(id, max_depth);
    while trace.wants_layer() {
        let mut layer = Vec::new();
        for id in &trace.frontier {
            layer.extend(sources(records, id));
        }
        trace.advance(layer);
    }
    trace.finish()
}

#[test]
fn test_provenance_chain_single_level() {
    let records = vec![
        make_provenance("p1", "ins1", "src1", "c1", Some(0.5)),
        make_provenance("p2", "ins1", "src2", "c1", Some(0.6)),
    ];
    let chain = trace(&records, "ins1", 3);
    assert_eq!(chain.root_id, "ins1");
    assert_eq!(chain.layers.len(), 1);
    assert_eq!(chain.layers[0].len(), 2);
}

#[test]
fn test_provenance_chain_multi_level() {
    let records = vec![
        make_provenance("p1", "ins1", "a", "c1", Some(0.5)),
        make_provenance("p2", "ins1", "b", "c1", Some(0.6)),
        make_provenance("p3", "ins2", "ins1", "c2", Some(0.8)),
        make_provenance("p4", "ins2", "c", "c2", Some(0.4)),
    ];
    let chain = trace(&records, "ins2", 5);
    assert_eq!(chain.root_id, "ins2");
    assert_eq!(chain.layers.len(), 2);
    assert_eq!(chain.layers[0].len(), 2);
    assert_eq!(chain.layers[1].len(), 2);
}

#[test]
fn test_provenance_chain_max_depth() {
    let records = vec![
        make_provenance("p1", "ins1", "a", "c1", Some(0.5)),
        make_provenance("p2", "ins2", "ins1", "c2", Some(0.8)),
    ];
    let chain = trace(&records, "ins2", 1);
    assert_eq!(chain.layers.len(), 1);
    assert_eq!(chain.layers[0].len(), 1);
    assert_eq!(chain.layers[0][0].source_id, "ins1");
}

#[test]
fn test_provenance_chain_no_sources() {
    let chain = trace(&vec![], "raw1", 5);
    assert_eq!(chain.root_id, "raw1");
    assert!(chain.layers.is_empty());
}

#[test]
fn a_trace_of_no_depth_looks_at_nothing() {
    let records = vec![make_provenance("p1", "ins1", "a", "c1", None)];
    assert!(trace(&records, "ins1", 0).layers.is_empty());
}

#[test]
fn test_undo_synthesis() {
    let records = vec![
        make_provenance("p1", "ins1", "src1", "c1", Some(0.8)),
        make_provenance("p2", "ins1", "src2", "c1", Some(0.7)),
    ];
    let result = undo_synthesis("ins1", &records).unwrap();
    assert_eq!(result.insight_id, "ins1");
    assert_eq!(result.restored_sources.len(), 2);
    assert!(result.restored_sources.iter().all(|r| r.restored));
    assert_eq!(result.restored_sources[0].memory_id, "src1");
    assert_eq!(result.restored_sources[0].original_importance, score(0.8));
    assert_eq!(result.restored_sources[1].original_importance, score(0.7));
}

#[test]
fn test_undo_synthesis_no_provenance() {
    let result = undo_synthesis("nonexistent", &vec![]);
    assert!(result.is_err());
    let err_msg = result.unwrap_err();
    assert!(err_msg.contains("No provenance records found"));
}

#[test]
fn test_undo_synthesis_partial_restore() {
    let records = vec![
        make_provenance("p1", "ins1", "src1", "c1", Some(0.8)),
        make_provenance("p2", "ins1", "src1", "c1", None),
    ];
    let result = undo_synthesis("ins1", &records).unwrap();
    let restored_count = result.restored_sources.iter().filter(|r| r.restored).count();
    let not_restored_count = result.restored_sources.iter().filter(|r| !r.restored).count();
    assert_eq!(restored_count, 1);
    assert_eq!(not_restored_count, 1);
    assert_eq!(result.restored_sources[1].original_importance, score(0.0));
}
