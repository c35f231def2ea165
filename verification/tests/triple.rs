use engramai::score::Score;
use engramai::triple::{EntityKind, Predicate, Triple, TripleSource};
use engramai::triple_extractor::{
    anthropic_content, anthropic_request, extract_first_top_level_array, ollama_content,
    ollama_request, parse_kind_hint, parse_triple_response, select_triple_prompt,
    NoopTripleExtractor, TripleExtractor, TRIPLE_EXTRACTION_PROMPT, TRIPLE_EXTRACTION_PROMPT_V2,
};

fn num(s: Score) -> f64 {
    f64::from_bits(s.bits)
}

fn score(x: f64) -> Score {
    Score { bits: x.to_bits() }
}

#[test]
fn test_predicate_round_trip() {
    let variants = vec![
        Predicate::IsA,
        Predicate::PartOf,
        Predicate::Uses,
        Predicate::DependsOn,
        Predicate::CausedBy,
        Predicate::LeadsTo,
        Predicate::Implements,
        Predicate::Contradicts,
        Predicate::RelatedTo,
    ];
    for v in variants {
        let s = v.as_str();
        let parsed = Predicate::from_str_lossy(s);
        assert_eq!(v, parsed, "Round-trip failed for {}", s);
    }
}

#[test]
fn test_unknown_predicate_falls_back_to_related_to() {
    assert_eq!(Predicate::from_str_lossy("foobar"), Predicate::RelatedTo);
    assert_eq!(Predicate::from_str_lossy(""), Predicate::RelatedTo);
    assert_eq!(Predicate::from_str_lossy("UNKNOWN_THING"), Predicate::RelatedTo);
}

#[test]
fn test_triple_new_clamps_confidence() {
    let t1 = Triple::new("A".into(), Predicate::IsA, "B".into(), score(1.5));
    assert!((num(t1.confidence) - 1.0).abs() < f64::EPSILON);

    let t2 = Triple::new("A".into(), Predicate::IsA, "B".into(), score(-0.3));
    assert!((num(t2.confidence) - 0.0).abs() < f64::EPSILON);

    let t3 = Triple::new("A".into(), Predicate::IsA, "B".into(), score(0.7));
    assert!((num(t3.confidence) - 0.7).abs() < f64::EPSILON);

    assert_eq!(t1.source, TripleSource::Llm);
}

#[test]
fn test_predicate_display() {
    assert_eq!(Predicate::IsA.as_str(), "is_a");
    assert_eq!(Predicate::DependsOn.as_str(), "depends_on");
    assert_eq!(Predicate::RelatedTo.as_str(), "related_to");
}

#[test]
fn test_parse_triple_response_clean() {
    let response =
        r#"[{"subject": "Rust", "predicate": "uses", "object": "LLVM", "confidence": 0.9}]"#;
    let triples = parse_triple_response(response).unwrap();
    assert_eq!(triples.len(), 1);
    assert_eq!(triples[0].subject, "Rust");
    assert_eq!(triples[0].predicate, Predicate::Uses);
    assert_eq!(triples[0].object, "LLVM");
    assert!((num(triples[0].confidence) - 0.9).abs() < f64::EPSILON);
}

#[test]
fn test_parse_triple_response_markdown() {
    let response = "```json\n[{\"subject\": \"A\", \"predicate\": \"is_a\", \"object\": \"B\", \"confidence\": 0.8}]\n```";
    let triples = parse_triple_response(response).unwrap();
    assert_eq!(triples.len(), 1);
    assert_eq!(triples[0].predicate, Predicate::IsA);
}

#[test]
fn test_parse_triple_response_empty() {
    let triples = parse_triple_response("[]").unwrap();
    assert!(triples.is_empty());
}

#[test]
fn test_parse_triple_response_invalid() {
    let triples = parse_triple_response("not json").unwrap();
    assert!(triples.is_empty());
}

#[test]
fn test_parse_triple_response_unknown_predicate() {
    let response =
        r#"[{"subject": "X", "predicate": "foobar", "object": "Y", "confidence": 0.5}]"#;
    let triples = parse_triple_response(response).unwrap();
    assert_eq!(triples[0].predicate, Predicate::RelatedTo);
}

#[test]
fn test_parse_triple_response_clamps_confidence() {
    let response =
        r#"[{"subject": "X", "predicate": "uses", "object": "Y", "confidence": 1.5}]"#;
    let triples = parse_triple_response(response).unwrap();
    assert!((num(triples[0].confidence) - 1.0).abs() < f64::EPSILON);
}

#[test]
fn parse_kind_hint_recognizes_all_canonical_variants() {
    assert_eq!(parse_kind_hint(Some("Person")), Some(EntityKind::Person));
    assert_eq!(
        parse_kind_hint(Some("Organization")),
        Some(EntityKind::Organization)
    );
    assert_eq!(parse_kind_hint(Some("Place")), Some(EntityKind::Place));
    assert_eq!(parse_kind_hint(Some("Concept")), Some(EntityKind::Concept));
    assert_eq!(
        parse_kind_hint(Some("Artifact")),
        Some(EntityKind::Artifact)
    );
    assert_eq!(parse_kind_hint(Some("Event")), Some(EntityKind::Event));
    assert_eq!(parse_kind_hint(Some("Topic")), Some(EntityKind::Topic));
}

#[test]
fn parse_kind_hint_drops_out_of_allowlist_strings() {
    assert_eq!(parse_kind_hint(Some("Animal")), None);
    assert_eq!(parse_kind_hint(Some("Location")), None); // common alias
    assert_eq!(parse_kind_hint(Some("person")), None); // case-sensitive
    assert_eq!(parse_kind_hint(Some("")), None);
    assert_eq!(parse_kind_hint(Some("   ")), None);
    assert_eq!(parse_kind_hint(None), None);
}

#[test]
fn parse_triple_response_propagates_kind_hints_onto_triple() {
    let response = r#"[{"subject": "Caroline", "predicate": "works_at", "object": "Acme", "confidence": 0.9, "subject_kind": "Person", "object_kind": "Organization"}]"#;
    let triples = parse_triple_response(response).unwrap();
    assert_eq!(triples.len(), 1);
    assert_eq!(triples[0].subject_kind_hint, Some(EntityKind::Person));
    assert_eq!(triples[0].object_kind_hint, Some(EntityKind::Organization));
}

#[test]
fn parse_triple_response_omitted_kind_yields_none_hint() {
    let response =
        r#"[{"subject": "X", "predicate": "uses", "object": "Y", "confidence": 0.8}]"#;
    let triples = parse_triple_response(response).unwrap();
    assert_eq!(triples.len(), 1);
    assert_eq!(triples[0].subject_kind_hint, None);
    assert_eq!(triples[0].object_kind_hint, None);
}

#[test]
fn parse_triple_response_partial_hint_only_one_side() {
    let response = r#"[{"subject": "Rust", "predicate": "is_a", "object": "language", "confidence": 0.9, "subject_kind": "Artifact"}]"#;
    let triples = parse_triple_response(response).unwrap();
    assert_eq!(triples[0].subject_kind_hint, Some(EntityKind::Artifact));
    assert_eq!(triples[0].object_kind_hint, None);
}

#[test]
fn parse_triple_response_unknown_kind_drops_silently() {
    let response = r#"[{"subject": "Rex", "predicate": "is_a", "object": "dog", "confidence": 0.9, "subject_kind": "Animal"}]"#;
    let triples = parse_triple_response(response).unwrap();
    assert_eq!(triples.len(), 1);
    assert_eq!(triples[0].subject_kind_hint, None); // "Animal" dropped
}

#[test]
fn parse_triple_response_tolerates_duplicate_object_kind() {
    let response = r#"[
        {
            "subject": "organization",
            "predicate": "implements",
            "object": "inclusivity",
            "confidence": 0.85,
            "object_kind": "Organization",
            "object_kind": "Concept"
        }
    ]"#;
    let triples = parse_triple_response(response).expect("must parse");
    assert_eq!(triples.len(), 1, "expected 1 triple, got: {triples:?}");
    assert_eq!(triples[0].object_kind_hint, Some(EntityKind::Concept));
    assert_eq!(triples[0].subject, "organization");
    assert_eq!(triples[0].object, "inclusivity");
}

#[test]
fn parse_triple_response_tolerates_duplicate_subject_kind() {
    let response = r#"[
        {
            "subject": "necklace",
            "predicate": "related_to",
            "object": "family",
            "confidence": 0.8,
            "subject_kind": "Artifact",
            "subject_kind": "Concept",
            "object_kind": "Concept"
        }
    ]"#;
    let triples = parse_triple_response(response).expect("must parse");
    assert_eq!(triples.len(), 1);
    assert_eq!(triples[0].subject_kind_hint, Some(EntityKind::Concept));
    assert_eq!(triples[0].object_kind_hint, Some(EntityKind::Concept));
}

#[test]
fn parse_triple_response_tolerates_duplicate_core_fields() {
    let response = r#"[
        {
            "subject": "wrong",
            "subject": "right",
            "predicate": "uses",
            "object": "X",
            "confidence": 0.5,
            "confidence": 0.9
        }
    ]"#;
    let triples = parse_triple_response(response).expect("must parse");
    assert_eq!(triples.len(), 1);
    assert_eq!(triples[0].subject, "right");
    assert!((num(triples[0].confidence) - 0.9).abs() < 1e-9);
}

#[test]
fn parse_triple_response_mixed_valid_and_malformed_elements_keeps_valid() {
    let response = r#"[
        {"subject": "A", "predicate": "uses", "object": "B", "confidence": 0.9},
        {"subject": "C", "object": "D", "confidence": 0.8},
        {"subject": "E", "predicate": "leads_to", "object": "F", "confidence": 0.7, "object_kind": "Concept", "object_kind": "Topic"}
    ]"#;
    let triples = parse_triple_response(response).expect("must parse");
    assert_eq!(triples.len(), 2, "valid + tolerated = 2; bad one dropped");
    assert_eq!(triples[0].subject, "A");
    assert_eq!(triples[1].subject, "E");
    assert_eq!(triples[1].object_kind_hint, Some(EntityKind::Topic));
}

#[test]
fn parse_triple_response_not_an_array_returns_empty() {
    let response = r#"{"error": "no triples found"}"#;
    let triples = parse_triple_response(response).expect("must not error");
    assert!(triples.is_empty());
}

#[test]
fn iss168_two_arrays_with_prose_between_takes_first() {
    let response = r#"[{"subject": "Caroline", "predicate": "uses", "object": "red and blue colors", "confidence": 0.9}]

Wait, I need to reconsider - "creates" is not in the allowed predicates.
The allowed predicates don't fit this casual conversation well.

[]"#;
    let triples = parse_triple_response(response).expect("must parse");
    assert_eq!(
        triples.len(),
        1,
        "first array wins; second [] is discarded along with the prose"
    );
    assert_eq!(triples[0].subject, "Caroline");
    assert_eq!(triples[0].predicate, Predicate::Uses);
    assert_eq!(triples[0].object, "red and blue colors");
}

#[test]
fn iss168_replacement_pattern_first_array_wins() {
    let response = r#"[
        {"subject": "Rust", "predicate": "uses", "object": "LLVM", "confidence": 0.9},
        {"subject": "Rust", "predicate": "implements", "object": "ownership", "confidence": 0.8}
    ]

Wait, scratch that — let me re-extract more conservatively.

[{"subject": "Rust", "predicate": "is_a", "object": "language", "confidence": 0.95}]"#;
    let triples = parse_triple_response(response).expect("must parse");
    assert_eq!(
        triples.len(),
        2,
        "first array (2 triples) wins over second (1)"
    );
    assert_eq!(triples[0].subject, "Rust");
    assert_eq!(triples[0].predicate, Predicate::Uses);
    assert_eq!(triples[1].predicate, Predicate::Implements);
}

#[test]
fn iss168_prose_preamble_and_postamble_still_extracts() {
    let response = r#"Here's what I extracted from the conversation:

[{"subject": "A", "predicate": "uses", "object": "B", "confidence": 0.7}]

Hope this helps!"#;
    let triples = parse_triple_response(response).expect("must parse");
    assert_eq!(triples.len(), 1);
    assert_eq!(triples[0].subject, "A");
    assert_eq!(triples[0].object, "B");
}

#[test]
fn iss168_nested_brackets_in_string_values_do_not_confuse_scanner() {
    let response = r#"[{"subject": "Caroline", "predicate": "related_to", "object": "the [main] idea", "confidence": 0.6}]"#;
    let triples = parse_triple_response(response).expect("must parse");
    assert_eq!(triples.len(), 1);
    assert_eq!(triples[0].object, "the [main] idea");
}

#[test]
fn iss168_escaped_quote_in_string_preserves_string_boundary() {
    let response = r#"[{"subject": "X", "predicate": "uses", "object": "the \"big\" idea", "confidence": 0.5}]"#;
    let triples = parse_triple_response(response).expect("must parse");
    assert_eq!(triples.len(), 1);
    assert_eq!(triples[0].object, r#"the "big" idea"#);
}

#[test]
fn iss203_possessive_predicates_roundtrip_through_existing_enum() {
    assert_eq!(Predicate::from_str_lossy("belongs_to"), Predicate::PartOf);
    assert_eq!(
        Predicate::from_str_lossy("associated_with"),
        Predicate::RelatedTo
    );
}

#[test]
fn iss203_v2_prompt_enforces_atomicity_and_decomposition() {
    let p = TRIPLE_EXTRACTION_PROMPT_V2;
    assert!(
        p.contains("ATOMICITY CONTRACT"),
        "V2 must state the atomicity contract"
    );
    assert!(
        p.contains("belongs_to"),
        "V2 must allow the possessive predicate"
    );
    assert!(
        p.contains("paintings belongs_to Caroline")
            || p.contains(
                "\"paintings\", \"predicate\": \"belongs_to\", \"object\": \"Caroline\""
            ),
        "V2 must demo X's Y -> Y belongs_to X decomposition"
    );
    assert!(
        p.contains("support associated_with Caroline"),
        "V2 must demo 'support from X' -> associated_with decomposition"
    );
}

#[test]
fn iss203_v2_prompt_drops_phrase_object_example() {
    assert!(
        !TRIPLE_EXTRACTION_PROMPT_V2.contains("prevention of data races"),
        "V2 must not demo a buried-relation phrase as an object"
    );
    assert!(
        TRIPLE_EXTRACTION_PROMPT.contains("prevention of data races"),
        "legacy prompt keeps its example"
    );
}

#[test]
fn iss203_select_triple_prompt_gating() {
    assert_eq!(select_triple_prompt(None), TRIPLE_EXTRACTION_PROMPT);

    for truthy in ["1", "true", "on", "yes", "TRUE", "On"] {
        assert_eq!(
            select_triple_prompt(Some(truthy)),
            TRIPLE_EXTRACTION_PROMPT_V2,
            "value {:?} should select V2",
            truthy
        );
    }

    for falsy in ["0", "false", "off", "", "garbage"] {
        assert_eq!(
            select_triple_prompt(Some(falsy)),
            TRIPLE_EXTRACTION_PROMPT,
            "value {:?} should keep legacy",
            falsy
        );
    }
}

#[test]
fn predicates_are_read_in_any_case_and_with_blanks_or_hyphens() {
    assert_eq!(Predicate::from_str_lossy("IS_A"), Predicate::IsA);
    assert_eq!(Predicate::from_str_lossy("Depends On"), Predicate::DependsOn);
    assert_eq!(Predicate::from_str_lossy("leads-to"), Predicate::LeadsTo);
    assert_eq!(Predicate::from_str_lossy("\u{130}S_A"), Predicate::RelatedTo);
}

#[test]
fn the_extractor_without_a_model_finds_nothing() {
    let extractor = NoopTripleExtractor::new();
    assert!(extractor.extract_triples("Rust uses LLVM").unwrap().is_empty());
}

#[test]
fn requests_hold_the_prompt_and_the_content() {
    let body = anthropic_request("haiku", "P: ", "a \"b\"");
    let value: serde_json::Value = serde_json::from_str(&body).unwrap();
    assert_eq!(value["model"], "haiku");
    assert_eq!(value["max_tokens"], 1024);
    assert_eq!(value["messages"][0]["role"], "user");
    assert_eq!(value["messages"][0]["content"], "P: a \"b\"");

    let body = ollama_request("llama3", "P: ", "text");
    let value: serde_json::Value = serde_json::from_str(&body).unwrap();
    assert_eq!(value["model"], "llama3");
    assert_eq!(value["stream"], false);
    assert_eq!(value["messages"][0]["content"], "P: text");
}

#[test]
fn replies_are_read_by_their_shape() {
    assert_eq!(anthropic_content(r#"{"content":[{"text":"[]"}]}"#), Ok("[]".to_string()));
    assert_eq!(
        anthropic_content(r#"{"content":[]}"#),
        Err("Invalid response structure from Anthropic API".to_string())
    );
    assert_eq!(ollama_content(r#"{"message":{"content":"[1]"}}"#), Ok("[1]".to_string()));
    assert_eq!(
        ollama_content("not json"),
        Err("Invalid response structure from Ollama API".to_string())
    );
}

#[test]
fn the_first_array_is_cut_out_by_its_brackets() {
    assert_eq!(
        extract_first_top_level_array("a [1, [2], \"]\"] b [3]"),
        Some("[1, [2], \"]\"]".to_string())
    );
    assert_eq!(extract_first_top_level_array("no array"), None);
    assert_eq!(extract_first_top_level_array("[1, 2"), None);
}

#[test]
fn a_triple_needs_all_four_fields_of_the_right_type() {
    for bad in [
        r#"[{"subject": 1, "predicate": "uses", "object": "B", "confidence": 0.9}]"#,
        r#"[{"subject": "A", "predicate": "uses", "object": "B", "confidence": "0.9"}]"#,
        r#"[{"subject": "A", "predicate": "uses", "confidence": 0.9}]"#,
        r#"["A"]"#,
    ] {
        assert!(parse_triple_response(bad).unwrap().is_empty(), "{}", bad);
    }
    let whole = r#"[{"subject": "A", "predicate": "uses", "object": "B", "confidence": 1}]"#;
    let triples = parse_triple_response(whole).unwrap();
    assert_eq!(triples[0].confidence, score(1.0));
    assert_eq!(triples[0].source, TripleSource::Llm);
}

#[test]
fn a_confidence_is_a_number_between_zero_and_one() {
    let reply = |confidence: &str| {
        format!(
            r#"[{{"subject": "X", "predicate": "uses", "object": "Y", "confidence": {}}}]"#,
            confidence
        )
    };
    // A text with a number that JSON does not have is no array, and one that is
    // too large for a double is none either.
    assert!(parse_triple_response(&reply("NaN")).unwrap().is_empty());
    assert!(parse_triple_response(&reply("1e999")).unwrap().is_empty());
    for (written, kept) in [("-0.5", 0.0), ("0", 0.0), ("0.25", 0.25), ("1", 1.0), ("7e10", 1.0)] {
        let triples = parse_triple_response(&reply(written)).unwrap();
        assert_eq!(num(triples[0].confidence), kept);
    }
}
