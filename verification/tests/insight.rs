use engramai::score::Score;
use engramai::substrate::types::MemoryType;
use engramai::synthesis::insight;
use engramai::synthesis::insight::{clean_response, select_template, validate_output, LlmReply};
use engramai::synthesis::types::{
    ClusterSignal, InsightType, MemoryCluster, MemoryRecord, PromptTemplate, SignalsSummary,
    SynthesisConfig, SynthesisError, SynthesisOutput,
};

fn score(x: f64) -> Score {
    Score { bits: x.to_bits() }
}

fn num(s: Score) -> f64 {
    f64::from_bits(s.bits)
}

fn make_record(id: &str, content: &str, memory_type: MemoryType, importance: f64) -> MemoryRecord {
    MemoryRecord {
        id: id.to_string(),
        content: content.to_string(),
        memory_type,
        importance: score(importance),
        access_count: 1,
        metadata: None,
    }
}

fn build(
    cluster: &MemoryCluster,
    members: &Vec<MemoryRecord>,
    config: &SynthesisConfig,
    include_emotion: bool,
) -> String {
    let importances = members.iter().map(|m| format!("{:.2}", num(m.importance))).collect();
    let quality = format!("{:.3}", num(cluster.quality_score));
    insight::build_prompt(cluster, members, config, include_emotion, &importances, &quality)
}

fn read_reply(raw: &str) -> Result<LlmReply, String> {
    let cleaned = clean_response(raw);
    let value: serde_json::Value = serde_json::from_str(&cleaned).map_err(|e| e.to_string())?;
    let confidence = value["confidence"].as_f64().ok_or("confidence")?;
    let mut source_references = Vec::new();
    for r in value["source_references"].as_array().ok_or("source_references")? {
        source_references.push(r.as_str().ok_or("source_references")?.to_string());
    }
    Ok(LlmReply {
        insight: value["insight"].as_str().ok_or("insight")?.to_string(),
        confidence: score(confidence),
        confidence_text: format!("{}", confidence),
        insight_type: value["insight_type"].as_str().ok_or("insight_type")?.to_string(),
        source_references,
    })
}

fn check(
    raw: &str,
    cluster: &MemoryCluster,
    members: &Vec<MemoryRecord>,
) -> Result<SynthesisOutput, SynthesisError> {
    validate_output(read_reply(raw), cluster, members)
}

fn make_cluster(members: &[&str]) -> MemoryCluster {
    MemoryCluster {
        id: "test-cluster".to_string(),
        members: members.iter().map(|s| s.to_string()).collect(),
        quality_score: score(0.7),
        centroid_id: members[0].to_string(),
        signals_summary: SignalsSummary {
            dominant_signal: ClusterSignal::Hebbian,
            hebbian_contribution: score(0.5),
            entity_contribution: score(0.2),
            embedding_contribution: score(0.2),
            temporal_contribution: score(0.1),
        },
    }
}

#[test]
fn test_select_template_factual_majority() {
    let members = vec![
        make_record("a", "fact1", MemoryType::Factual, 0.5),
        make_record("b", "fact2", MemoryType::Factual, 0.5),
        make_record("c", "ep1", MemoryType::Episodic, 0.5),
    ];
    assert_eq!(select_template(&members), PromptTemplate::FactualPattern);
}

#[test]
fn test_select_template_episodic_majority() {
    let members = vec![
        make_record("a", "ep1", MemoryType::Episodic, 0.5),
        make_record("b", "ep2", MemoryType::Episodic, 0.5),
        make_record("c", "fact1", MemoryType::Factual, 0.5),
    ];
    assert_eq!(select_template(&members), PromptTemplate::EpisodicThread);
}

#[test]
fn test_select_template_causal_majority() {
    let members = vec![
        make_record("a", "cause1", MemoryType::Causal, 0.5),
        make_record("b", "cause2", MemoryType::Causal, 0.5),
        make_record("c", "fact1", MemoryType::Factual, 0.5),
    ];
    assert_eq!(select_template(&members), PromptTemplate::CausalChain);
}

#[test]
fn test_select_template_mixed() {
    let members = vec![
        make_record("a", "fact1", MemoryType::Factual, 0.5),
        make_record("b", "ep1", MemoryType::Episodic, 0.5),
        make_record("c", "rel1", MemoryType::Relational, 0.5),
    ];
    assert_eq!(select_template(&members), PromptTemplate::General);
}

#[test]
fn test_select_template_empty() {
    assert_eq!(select_template(&vec![]), PromptTemplate::General);
}

#[test]
fn test_build_prompt_general() {
    let cluster = make_cluster(&["m1", "m2", "m3"]);
    let members = vec![
        make_record("m1", "fact about coding", MemoryType::Factual, 0.6),
        make_record("m2", "episode about debugging", MemoryType::Episodic, 0.7),
        make_record("m3", "opinion about Rust", MemoryType::Opinion, 0.5),
    ];
    let config = SynthesisConfig::default();
    let prompt = build(&cluster, &members, &config, false);

    assert!(prompt.contains("knowledge synthesizer"));
    assert!(prompt.contains("[m1:"));
    assert!(prompt.contains("[m2:"));
    assert!(prompt.contains("[m3:"));
    assert!(prompt.contains("JSON"));
    assert!(!prompt.contains("emotion:"));
}

#[test]
fn test_build_prompt_with_emotion() {
    let cluster = make_cluster(&["m1"]);
    let mut record = make_record("m1", "emotional memory", MemoryType::Emotional, 0.8);
    record.metadata = Some(r#"{"emotional_valence": 0.9}"#.to_string());
    let config = SynthesisConfig::default();
    let prompt = build(&cluster, &vec![record], &config, true);

    assert!(prompt.contains("emotion: 0.9"));
}

#[test]
fn test_build_prompt_factual_template() {
    let cluster = make_cluster(&["m1", "m2", "m3"]);
    let members = vec![
        make_record("m1", "fact1", MemoryType::Factual, 0.5),
        make_record("m2", "fact2", MemoryType::Factual, 0.5),
        make_record("m3", "fact3", MemoryType::Factual, 0.5),
    ];
    let config = SynthesisConfig::default();
    let prompt = build(&cluster, &members, &config, false);

    assert!(prompt.contains("recurring patterns"));
}

fn valid_json(cluster: &MemoryCluster) -> String {
    format!(
        r#"{{"insight": "This is a valid insight that meets the 50-character minimum length requirement for testing purposes.", "confidence": 0.85, "insight_type": "pattern", "source_references": ["{}", "{}"]}}"#,
        cluster.members[0], cluster.members[1],
    )
}

#[test]
fn test_validate_output_valid() {
    let cluster = make_cluster(&["m1", "m2", "m3"]);
    let members = vec![
        make_record("m1", "content one", MemoryType::Factual, 0.5),
        make_record("m2", "content two", MemoryType::Factual, 0.5),
        make_record("m3", "content three", MemoryType::Factual, 0.5),
    ];
    let json = valid_json(&cluster);
    let result = check(&json, &cluster, &members);
    assert!(result.is_ok());
    let output = result.unwrap();
    assert_eq!(output.confidence, score(0.85));
    assert_eq!(output.insight_type, InsightType::Pattern);
    assert_eq!(output.source_references.len(), 2);
}

#[test]
fn test_validate_output_strips_markdown_fences() {
    let cluster = make_cluster(&["m1", "m2"]);
    let members = vec![
        make_record("m1", "c1", MemoryType::Factual, 0.5),
        make_record("m2", "c2", MemoryType::Factual, 0.5),
    ];
    let json = format!("```json\n{}\n```", valid_json(&cluster));
    let result = check(&json, &cluster, &members);
    assert!(result.is_ok());
}

#[test]
fn test_validate_output_invalid_json() {
    let cluster = make_cluster(&["m1", "m2"]);
    let members = vec![make_record("m1", "c1", MemoryType::Factual, 0.5)];
    let result = check("not json at all", &cluster, &members);
    assert!(matches!(
        result,
        Err(SynthesisError::LlmInvalidResponse { .. })
    ));
}

#[test]
fn test_validate_output_confidence_too_high() {
    let cluster = make_cluster(&["m1", "m2"]);
    let members = vec![
        make_record("m1", "c1", MemoryType::Factual, 0.5),
        make_record("m2", "c2", MemoryType::Factual, 0.5),
    ];
    let json = r#"{"insight": "This is a valid insight that meets the fifty character minimum length requirement for tests.", "confidence": 1.5, "insight_type": "pattern", "source_references": ["m1"]}"#;
    let result = check(json, &cluster, &members);
    assert!(matches!(
        result,
        Err(SynthesisError::ValidationFailed { .. })
    ));
}

#[test]
fn test_validate_output_confidence_negative() {
    let cluster = make_cluster(&["m1", "m2"]);
    let members = vec![make_record("m1", "c1", MemoryType::Factual, 0.5)];
    let json = r#"{"insight": "This is a valid insight that meets the fifty character minimum length requirement for tests.", "confidence": -0.1, "insight_type": "pattern", "source_references": ["m1"]}"#;
    let result = check(json, &cluster, &members);
    assert!(matches!(
        result,
        Err(SynthesisError::ValidationFailed { .. })
    ));
}

#[test]
fn test_validate_output_empty_insight() {
    let cluster = make_cluster(&["m1", "m2"]);
    let members = vec![make_record("m1", "c1", MemoryType::Factual, 0.5)];
    let json = r#"{"insight": "", "confidence": 0.5, "insight_type": "pattern", "source_references": ["m1"]}"#;
    let result = check(json, &cluster, &members);
    assert!(matches!(
        result,
        Err(SynthesisError::ValidationFailed { .. })
    ));
}

#[test]
fn test_validate_output_invalid_type() {
    let cluster = make_cluster(&["m1", "m2"]);
    let members = vec![make_record("m1", "c1", MemoryType::Factual, 0.5)];
    let json = r#"{"insight": "This is a valid insight that meets the fifty character minimum length requirement for tests.", "confidence": 0.5, "insight_type": "summary", "source_references": ["m1"]}"#;
    let result = check(json, &cluster, &members);
    assert!(matches!(
        result,
        Err(SynthesisError::ValidationFailed { .. })
    ));
}

#[test]
fn test_validate_output_too_short() {
    let cluster = make_cluster(&["m1", "m2"]);
    let members = vec![make_record("m1", "c1", MemoryType::Factual, 0.5)];
    let json = r#"{"insight": "Too short", "confidence": 0.5, "insight_type": "pattern", "source_references": ["m1"]}"#;
    let result = check(json, &cluster, &members);
    assert!(matches!(
        result,
        Err(SynthesisError::ValidationFailed { .. })
    ));
}

#[test]
fn test_validate_output_too_long() {
    let cluster = make_cluster(&["m1", "m2"]);
    let members = vec![make_record("m1", "c1", MemoryType::Factual, 0.5)];
    let long_text = "x".repeat(501);
    let json = format!(
        r#"{{"insight": "{long_text}", "confidence": 0.5, "insight_type": "pattern", "source_references": ["m1"]}}"#,
    );
    let result = check(&json, &cluster, &members);
    assert!(matches!(
        result,
        Err(SynthesisError::ValidationFailed { .. })
    ));
}

#[test]
fn test_validate_output_hallucinated_refs() {
    let cluster = make_cluster(&["m1", "m2"]);
    let members = vec![
        make_record("m1", "c1", MemoryType::Factual, 0.5),
        make_record("m2", "c2", MemoryType::Factual, 0.5),
    ];
    let json = r#"{"insight": "This is a valid insight that meets the fifty character minimum length requirement for tests.", "confidence": 0.5, "insight_type": "pattern", "source_references": ["m1", "m99"]}"#;
    let result = check(json, &cluster, &members);
    assert!(matches!(
        result,
        Err(SynthesisError::HallucinatedReferences { .. })
    ));
}

#[test]
fn test_validate_output_identical_to_source() {
    let cluster = make_cluster(&["m1", "m2"]);
    let content = "This is a valid insight that meets the fifty character minimum length requirement for tests.";
    let members = vec![
        make_record("m1", content, MemoryType::Factual, 0.5),
        make_record("m2", "other content", MemoryType::Factual, 0.5),
    ];
    let json = format!(
        r#"{{"insight": "{content}", "confidence": 0.5, "insight_type": "pattern", "source_references": ["m1"]}}"#,
    );
    let result = check(&json, &cluster, &members);
    assert!(matches!(
        result,
        Err(SynthesisError::ValidationFailed { .. })
    ));
}

#[test]
fn test_validate_output_case_insensitive_type() {
    let cluster = make_cluster(&["m1", "m2"]);
    let members = vec![
        make_record("m1", "c1", MemoryType::Factual, 0.5),
        make_record("m2", "c2", MemoryType::Factual, 0.5),
    ];
    let json = r#"{"insight": "This is a valid insight that meets the fifty character minimum length requirement for tests.", "confidence": 0.5, "insight_type": "Connection", "source_references": ["m1"]}"#;
    let result = check(json, &cluster, &members);
    assert!(result.is_ok());
    assert_eq!(result.unwrap().insight_type, InsightType::Connection);
}

fn refusal(raw: &str, members: &Vec<MemoryRecord>) -> String {
    match check(raw, &make_cluster(&["m1", "m2"]), members) {
        Err(SynthesisError::ValidationFailed { cluster_id, reason }) => {
            assert_eq!(cluster_id, "test-cluster");
            reason
        }
        other => panic!("expected a refusal, got {:?}", other),
    }
}

fn answer(insight: &str, confidence: &str, kind: &str) -> String {
    format!(
        r#"{{"insight": "{insight}", "confidence": {confidence}, "insight_type": "{kind}", "source_references": ["m1"]}}"#
    )
}

#[test]
fn each_refusal_tells_its_reason() {
    let fine = "y".repeat(60);
    let none = vec![];
    assert_eq!(refusal(&answer(&fine, "1.5", "rule"), &none), "confidence 1.5 not in 0.0-1.0");
    assert_eq!(refusal(&answer("  ", "0.5", "rule"), &none), "insight text is empty");
    assert_eq!(refusal(&answer(&fine, "0.5", "Summary"), &none), "invalid insight_type: summary");
    assert_eq!(
        refusal(&answer("short", "0.5", "rule"), &none),
        "insight too short: 5 chars, minimum 50"
    );
    assert_eq!(
        refusal(&answer(&"z".repeat(501), "0.5", "rule"), &none),
        "insight too long: 501 chars, maximum 500"
    );
    let same = vec![make_record("m1", &"Y".repeat(60), MemoryType::Factual, 0.5)];
    assert_eq!(
        refusal(&answer(&fine, "0.5", "rule"), &same),
        "insight is identical to source m1"
    );
    let inner = vec![make_record("m2", &"Y".repeat(50), MemoryType::Factual, 0.5)];
    assert_eq!(
        refusal(&answer(&fine, "0.5", "rule"), &inner),
        "insight contains full content of source m2"
    );
    let short = vec![make_record("m2", &"Y".repeat(49), MemoryType::Factual, 0.5)];
    let cluster = make_cluster(&["m1", "m2"]);
    assert!(check(&answer(&fine, "0.5", "rule"), &cluster, &short).is_ok());
}

#[test]
fn the_bounds_of_a_confidence_are_allowed() {
    let cluster = make_cluster(&["m1", "m2"]);
    let fine = "y".repeat(50);
    assert!(check(&answer(&fine, "0.0", "rule"), &cluster, &vec![]).is_ok());
    assert!(check(&answer(&fine, "1.0", "contradiction"), &cluster, &vec![]).is_ok());
}

#[test]
fn foreign_references_are_listed() {
    let cluster = make_cluster(&["m1", "m2"]);
    let json = format!(
        r#"{{"insight": "{}", "confidence": 0.5, "insight_type": "rule", "source_references": ["x", "m1", "y"]}}"#,
        "y".repeat(50)
    );
    assert_eq!(
        check(&json, &cluster, &vec![]),
        Err(SynthesisError::HallucinatedReferences {
            cluster_id: "test-cluster".to_string(),
            invalid_ids: vec!["x".to_string(), "y".to_string()],
        })
    );
    assert_eq!(
        validate_output(Err("oops".to_string()), &cluster, &vec![]),
        Err(SynthesisError::LlmInvalidResponse {
            cluster_id: "test-cluster".to_string(),
            raw_response: "JSON parse error: oops".to_string(),
        })
    );
}

#[test]
fn a_prompt_lists_no_more_memories_than_configured() {
    let cluster = make_cluster(&["m1", "m2"]);
    let members = vec![
        make_record("m1", "one", MemoryType::Factual, 0.125),
        make_record("m2", "two", MemoryType::Causal, 0.5),
    ];
    let mut config = SynthesisConfig::default();
    config.max_memories_per_llm_call = 1;
    let prompt = build(&cluster, &members, &config, true);
    assert!(prompt.contains("[m1: one (type: factual, importance: 0.12)]\n"));
    assert!(!prompt.contains("[m2:"));
    assert!(prompt.ends_with(
        "\nCluster ID: test-cluster (quality: 0.700, 2 members, centroid: m1)\n"
    ));
    config.prompt_template = PromptTemplate::CausalChain;
    assert!(build(&cluster, &members, &config, false).contains("cause-effect"));
    config.prompt_template = PromptTemplate::EpisodicThread;
    assert!(build(&cluster, &members, &config, false).contains("narrative threads"));
}

#[test]
fn fences_around_a_reply_are_dropped() {
    assert_eq!(clean_response(" ```json\n{}\n``` "), "{}");
    assert_eq!(clean_response("```\n{}"), "{}");
    assert_eq!(clean_response("{} ```"), "{} ```");
}

#[test]
fn a_part_of_a_source_is_a_copy() {
    let part = "Deploys on Friday afternoons tend to cause weekend incidents.";
    let members = vec![
        make_record("m1", &format!("Note: {} End.", part), MemoryType::Factual, 0.5),
        make_record("m2", "c2", MemoryType::Factual, 0.5),
    ];
    assert_eq!(
        refusal(&answer(part, "0.5", "pattern"), &members),
        "insight is a substring of source m1"
    );
    assert_eq!(
        refusal(&answer(&part.to_uppercase(), "0.5", "pattern"), &members),
        "insight is a substring of source m1"
    );
}

#[test]
fn lengths_count_characters() {
    let members = vec![
        make_record("m1", "c1", MemoryType::Factual, 0.5),
        make_record("m2", "c2", MemoryType::Factual, 0.5),
    ];
    assert_eq!(
        refusal(&answer(&"é".repeat(30), "0.5", "pattern"), &members),
        "insight too short: 30 chars, minimum 50"
    );
    let cluster = make_cluster(&["m1", "m2"]);
    assert!(check(&answer(&"é".repeat(500), "0.5", "pattern"), &cluster, &members).is_ok());
}
