use engramai::synthesis::entity_sets::{
    bucketing_json, build_bucketing_prompt, dedup_preserve_order, extract_json_object,
    parse_bucketing_response, plan_set, render_set_memory, set_memory_id, BucketedSet,
    BucketedSetOut, EntityObject, EntitySetCandidate, EntitySetReport, EntitySetSettings,
};
use std::hash::{Hash, Hasher};

fn obj(pred: &str, o: &str) -> EntityObject {
    EntityObject { predicate: pred.to_string(), object: o.to_string() }
}

fn read_sets(json: &str) -> Result<Vec<BucketedSet>, String> {
    let value: serde_json::Value = serde_json::from_str(json).map_err(|e| e.to_string())?;
    let mut sets = Vec::new();
    for s in value["sets"].as_array().ok_or("sets")? {
        let mut members = Vec::new();
        for m in s["members"].as_array().ok_or("members")? {
            members.push(m.as_str().ok_or("members")?.to_string());
        }
        let label = s["label"].as_str().ok_or("label")?.to_string();
        sets.push(BucketedSet { label, members });
    }
    Ok(sets)
}

fn parse(raw: &str) -> Result<Vec<BucketedSetOut>, String> {
    let json = bucketing_json(raw)?;
    parse_bucketing_response(read_sets(&json))
}

fn audrey() -> EntitySetCandidate {
    EntitySetCandidate {
        entity_id: "ent-audrey".to_string(),
        entity_name: "Audrey".to_string(),
        objects: vec![
            obj("related_to", "Pepper"),
            obj("related_to", "Precious"),
            obj("related_to", "Panda"),
            obj("related_to", "hiking"),
            obj("related_to", "bird-watching"),
            obj("related_to", "photo"),
            obj("related_to", "girlfriend"),
        ],
    }
}

#[test]
fn prompt_includes_subject_and_all_facts() {
    let p = build_bucketing_prompt(&audrey());
    assert!(p.contains("SUBJECT: Audrey"));
    assert!(p.contains("related_to -> Pepper"));
    assert!(p.contains("related_to -> girlfriend"));
    assert!(p.contains("DISCARD noise"));
    assert!(p.contains("NEVER invent"));
}

#[test]
fn parse_clean_response() {
    let raw = r#"{"sets": [{"label": "Pets", "members": ["Pepper", "Precious", "Panda"]}]}"#;
    let sets = parse(raw).unwrap();
    assert_eq!(sets.len(), 1);
    assert_eq!(sets[0].label, "pets");
    assert_eq!(sets[0].members, vec!["Pepper", "Precious", "Panda"]);
}

#[test]
fn parse_tolerates_code_fence_and_prose() {
    let raw = "Here you go:\n```json\n{\"sets\": [{\"label\": \"hobbies\", \"members\": [\"hiking\", \"bird-watching\"]}]}\n```\nDone.";
    let sets = parse(raw).unwrap();
    assert_eq!(sets.len(), 1);
    assert_eq!(sets[0].label, "hobbies");
}

#[test]
fn parse_empty_sets_ok() {
    let sets = parse(r#"{"sets": []}"#).unwrap();
    assert!(sets.is_empty());
}

#[test]
fn parse_dedups_members_preserving_order() {
    let raw = r#"{"sets":[{"label":"pets","members":["Pepper","pepper","Panda","Pepper"]}]}"#;
    let sets = parse(raw).unwrap();
    assert_eq!(sets[0].members, vec!["Pepper", "Panda"]);
}

#[test]
fn parse_rejects_garbage() {
    assert!(parse("not json at all").is_err());
}

#[test]
fn render_canonical_surface_form() {
    let s = render_set_memory("Audrey", "pets", &vec!["Pepper".into(), "Panda".into()]);
    assert_eq!(s, "Audrey's pets: Pepper, Panda");
}

#[test]
fn set_memory_id_is_stable_and_keyed() {
    let a = set_memory_id("ent-audrey", "pets");
    let b = set_memory_id("ent-audrey", "pets");
    let c = set_memory_id("ent-audrey", "hobbies");
    let d = set_memory_id("ent-melanie", "pets");
    assert_eq!(a, b);
    assert_ne!(a, c);
    assert_ne!(a, d);
    assert!(a.starts_with("eset-"));
}

#[test]
fn extract_json_handles_nested_braces() {
    let raw = r#"prefix {"sets":[{"label":"x","members":["a","b"]}]} suffix"#;
    let j = extract_json_object(raw).unwrap();
    assert!(j.starts_with('{') && j.ends_with('}'));
    assert!(read_sets(&j).is_ok());
}

#[test]
fn ids_hash_the_entity_and_the_label() {
    let mut h = std::collections::hash_map::DefaultHasher::new();
    "entity_set".hash(&mut h);
    "ent-audrey".hash(&mut h);
    "pets".hash(&mut h);
    assert_eq!(set_memory_id("ent-audrey", "pets"), format!("eset-{:016x}", h.finish()));
}

#[test]
fn objects_are_cut_out_by_their_braces() {
    assert_eq!(
        extract_json_object("a {\"k\": \"}\\\"{\"} b {}"),
        Some("{\"k\": \"}\\\"{\"}".to_string())
    );
    assert_eq!(extract_json_object("no object"), None);
    assert_eq!(extract_json_object("{ open"), None);
    assert_eq!(bucketing_json("x"), Err("no JSON object in response".to_string()));
}

#[test]
fn a_reply_that_is_no_list_of_sets_is_told() {
    assert_eq!(
        parse_bucketing_response(Err("why".to_string())),
        Err("JSON parse: why".to_string())
    );
}

#[test]
fn members_are_trimmed_and_told_apart_without_case() {
    let items = vec![" a ", "A", "", "  ", "b", "\u{c9}", "\u{e9}"]
        .into_iter()
        .map(|s| s.to_string())
        .collect();
    assert_eq!(dedup_preserve_order(&items), vec!["a", "b", "\u{c9}"]);
}

#[test]
fn a_set_keeps_only_objects_of_its_entity() {
    let set = BucketedSetOut {
        label: "pets".to_string(),
        members: vec!["pepper".to_string(), "Rex".to_string(), "Panda".to_string()],
    };
    let plan = plan_set(&audrey(), &set, 2).unwrap();
    assert_eq!(plan.id, set_memory_id("ent-audrey", "pets"));
    assert_eq!(plan.content, "Audrey's pets: pepper, Panda");
    let metadata: serde_json::Value = serde_json::from_str(&plan.metadata).unwrap();
    assert_eq!(metadata["is_entity_set"], true);
    assert_eq!(metadata["attribute"], "pets");
    assert_eq!(metadata["entity_name"], "Audrey");
    assert_eq!(metadata["members"][1], "Panda");
    assert!(plan_set(&audrey(), &set, 3).is_none());
}

#[test]
fn a_report_counts_calls_answers_and_writes() {
    let mut settings = EntitySetSettings::default();
    assert!(!settings.enabled);
    settings.enabled = true;
    settings.max_entities_per_run = 2;
    let (mut report, taken) = EntitySetReport::start(&settings, 5);
    assert_eq!((report.candidates_considered, taken), (5, 2));
    report.call_failed("Ann", "down");
    report.answered("Bob", &Err("bad".to_string()));
    report.answered("Cy", &Ok(vec![]));
    report.stored("Cy", "pets", false, &Ok(()));
    report.stored("Cy", "pets", true, &Ok(()));
    report.stored("Cy", "toys", false, &Err("full".to_string()));
    assert_eq!(report.llm_calls, 2);
    assert_eq!(report.entities_bucketed, 1);
    assert_eq!(report.set_memories_written, 1);
    assert_eq!(report.set_memories_updated, 1);
    assert_eq!(
        report.errors,
        vec!["bucketing Ann: down", "parse Bob: bad", "write set Cy/toys: full"]
    );
}

#[test]
fn set_ids_end_in_sixteen_hexadecimal_digits() {
    for (entity, label) in [("ent-audrey", "pets"), ("", ""), ("é", "x y")] {
        let id = set_memory_id(entity, label);
        assert_eq!(id.len(), 21);
        assert!(id[5..].chars().all(|c| c.is_ascii_digit() || ('a'..='f').contains(&c)));
    }
}
