//! Insights: the prompt for the language model, and the checks that its reply
//! has to pass.

use crate::json;
use crate::json::{find, parse, JsonNode, JsonView};
use crate::score;
use crate::score::Score;
use crate::substrate::types::MemoryType;
use crate::synthesis::types::{
    ErrorView, InsightType, MemoryCluster, MemoryRecord, PromptTemplate, SynthesisConfig,
    SynthesisError, SynthesisOutput,
};
use crate::text;
use crate::text::{
    byte_count, chars_of, contains, contains_text, same, to_lower, u64_text, unfence,
};
use vstd::prelude::*;
use vstd::string::*;

verus! {

// ---------------------------------------------------------------------------
// The prompt
// ---------------------------------------------------------------------------

/// How many memories are of a type.
pub open spec fn type_count(members: Seq<MemoryRecord>, t: MemoryType) -> nat
    decreases members.len(),
{
    if members.len() == 0 {
        0
    } else {
        type_count(members.drop_last(), t) + if members.last().memory_type == t {
            1nat
        } else {
            0nat
        }
    }
}

fn count_type(members: &Vec<MemoryRecord>, t: MemoryType) -> (r: usize)
    ensures
        r == type_count(members@, t),
{
    let mut n: usize = 0;
    let mut i: usize = 0;
    while i < members.len()
        invariant
            i <= members@.len(),
            n <= i,
            n == type_count(members@.take(i as int), t),
        decreases members.len() - i,
    {
        assert(members@.take(i + 1).drop_last() =~= members@.take(i as int));
        if members[i].memory_type == t {
            n += 1;
        }
        i += 1;
    }
    assert(members@.take(i as int) =~= members@);
    n
}

/// The template for the type that more than half of the memories have.
pub open spec fn template_for(members: Seq<MemoryRecord>) -> PromptTemplate {
    let half = members.len() / 2;
    if type_count(members, MemoryType::Factual) > half {
        PromptTemplate::FactualPattern
    } else if type_count(members, MemoryType::Episodic) > half {
        PromptTemplate::EpisodicThread
    } else if type_count(members, MemoryType::Causal) > half {
        PromptTemplate::CausalChain
    } else {
        PromptTemplate::General
    }
}

/// Selects the template for the type that most of the memories have.
pub fn select_template(members: &Vec<MemoryRecord>) -> (r: PromptTemplate)
    ensures
        r == template_for(members@),
        members@.len() == 0 ==> r is General,
{
    let half: usize = members.len() / 2;
    if count_type(members, MemoryType::Factual) > half {
        PromptTemplate::FactualPattern
    } else if count_type(members, MemoryType::Episodic) > half {
        PromptTemplate::EpisodicThread
    } else if count_type(members, MemoryType::Causal) > half {
        PromptTemplate::CausalChain
    } else {
        PromptTemplate::General
    }
}

/// At most one type is that of more than half of the memories, so the order in
/// which the templates are tried does not matter.
pub proof fn law_majority_unique(members: Seq<MemoryRecord>, a: MemoryType, b: MemoryType)
    requires
        a != b,
    ensures
        !(type_count(members, a) > members.len() / 2 && type_count(members, b) > members.len() / 2),
{
    lemma_two_types(members, a, b);
}

proof fn lemma_two_types(members: Seq<MemoryRecord>, a: MemoryType, b: MemoryType)
    requires
        a != b,
    ensures
        type_count(members, a) + type_count(members, b) <= members.len(),
    decreases members.len(),
{
    if members.len() > 0 {
        lemma_two_types(members.drop_last(), a, b);
    }
}

/// The task.
pub const SYSTEM: &'static str =
    "System: You are a knowledge synthesizer. Given a cluster of related memories, \
produce a single higher-order insight that captures what these memories \
collectively reveal — a pattern, rule, or connection not explicit in any \
individual memory.\n\n";

/// The rules that hold for every cluster.
pub const RULES: &'static str = "Rules:\n\
- The insight must be a NEW observation, not a summary\n\
- It must be falsifiable (can be proven wrong by future evidence)\n\
- It must reference specific source memories by ID\n\
- Keep it concise: 1-3 sentences for the insight, then supporting evidence\n";

/// The rule for facts.
pub const FACTUAL_RULE: &'static str =
    "- Focus on recurring patterns, common rules, or generalizations across these factual memories\n";

/// The rule for episodes.
pub const EPISODIC_RULE: &'static str =
    "- Focus on narrative threads, temporal sequences, and story arcs connecting these episodes\n";

/// The rule for causes and effects.
pub const CAUSAL_RULE: &'static str =
    "- Focus on cause-effect relationships and causal mechanisms revealed by these memories\n";

/// The form of the reply.
pub const FORMAT: &'static str = "\n\
Format requirements:\n\
- Respond ONLY with valid JSON — no markdown fences, no preamble, no trailing text\n\
- All string values must be properly escaped\n\
- \"confidence\" must be a decimal number between 0.0 and 1.0 (inclusive)\n\
- \"insight_type\" must be exactly one of: \"pattern\", \"rule\", \"connection\", \"contradiction\"\n\
- \"source_references\" must contain only IDs from the provided memories list\n\
- \"insight\" must be between 50 and 500 characters\n\n\
Memories:\n";

/// The schema of the reply.
pub const SCHEMA: &'static str = "\n\
Required JSON schema:\n\
{\n\
\x20 \"insight\": \"string (50-500 chars, the synthesized insight text)\",\n\
\x20 \"confidence\": \"number (0.0-1.0)\",\n\
\x20 \"insight_type\": \"pattern|rule|connection|contradiction\",\n\
\x20 \"source_references\": [\"mem_id_1\", \"mem_id_2\"]\n\
}\n";

/// The rule that a template adds.
pub open spec fn template_rule(t: PromptTemplate) -> Seq<char> {
    match t {
        PromptTemplate::FactualPattern => FACTUAL_RULE@,
        PromptTemplate::EpisodicThread => EPISODIC_RULE@,
        PromptTemplate::CausalChain => CAUSAL_RULE@,
        PromptTemplate::General => Seq::empty(),
    }
}

/// What the metadata of a memory say of its emotion, as it stands in the prompt.
pub open spec fn emotion_note(metadata: Option<Seq<char>>) -> Seq<char> {
    match metadata {
        Some(t) => match json::json_level(t) {
            Some(JsonView::Object(e)) => match json::lookup(e, "emotional_valence"@) {
                Some(v) => ", emotion: "@ + v,
                None => Seq::empty(),
            },
            _ => Seq::empty(),
        },
        None => Seq::empty(),
    }
}

fn emotion_text(metadata: &Option<String>) -> (r: String)
    ensures
        r@ == emotion_note(text::opt_view(*metadata)),
{
    match metadata {
        Some(t) => match parse(t.as_str()) {
            Some(JsonNode::Object(e)) => match find(&e, "emotional_valence") {
                Some(v) => {
                    let mut out: String = ", emotion: ".to_owned();
                    out.append(v.as_str());
                    out
                },
                None => String::new(),
            },
            _ => String::new(),
        },
        None => String::new(),
    }
}

/// The line of a memory. Its importance comes printed to two places.
pub open spec fn memory_line(m: MemoryRecord, importance: Seq<char>, include_emotion: bool) -> Seq<
    char,
> {
    "["@ + m.id@ + ": "@ + m.content@ + " (type: "@ + m.memory_type.name() + ", importance: "@
        + importance + (if include_emotion {
        emotion_note(text::opt_view(m.metadata))
    } else {
        Seq::empty()
    }) + ")]\n"@
}

/// The lines of the first `n` memories.
pub open spec fn memory_lines(
    members: Seq<MemoryRecord>,
    importances: Seq<Seq<char>>,
    include_emotion: bool,
    n: int,
) -> Seq<char>
    decreases n,
{
    if n <= 0 {
        Seq::empty()
    } else {
        memory_lines(members, importances, include_emotion, n - 1) + memory_line(
            members[n - 1],
            importances[n - 1],
            include_emotion,
        )
    }
}

/// What the prompt tells of the cluster. Its quality comes printed to three
/// places.
pub open spec fn cluster_line(cluster: MemoryCluster, quality: Seq<char>) -> Seq<char> {
    "\nCluster ID: "@ + cluster.id@ + " (quality: "@ + quality + ", "@ + text::decimal(
        cluster.members@.len(),
    ) + " members, centroid: "@ + cluster.centroid_id@ + ")\n"@
}

/// The template in use: the general one is specialised by the memories.
pub open spec fn template_in_use(config: SynthesisConfig, members: Seq<MemoryRecord>) -> PromptTemplate {
    if config.prompt_template is General {
        template_for(members)
    } else {
        config.prompt_template
    }
}

/// How many memories stand in the prompt.
pub open spec fn prompt_size(config: SynthesisConfig, members: Seq<MemoryRecord>) -> int {
    if config.max_memories_per_llm_call < members.len() {
        config.max_memories_per_llm_call as int
    } else {
        members.len() as int
    }
}

/// The prompt for a cluster.
pub open spec fn prompt_text(
    cluster: MemoryCluster,
    members: Seq<MemoryRecord>,
    config: SynthesisConfig,
    include_emotion: bool,
    importances: Seq<Seq<char>>,
    quality: Seq<char>,
) -> Seq<char> {
    SYSTEM@ + RULES@ + template_rule(template_in_use(config, members)) + FORMAT@ + memory_lines(
        members,
        importances,
        include_emotion,
        prompt_size(config, members),
    ) + SCHEMA@ + cluster_line(cluster, quality)
}

fn append_line(
    prompt: &mut String,
    m: &MemoryRecord,
    importance: &str,
    include_emotion: bool,
)
    ensures
        final(prompt)@ == old(prompt)@ + memory_line(*m, importance@, include_emotion),
{
    let ghost start = prompt@;
    prompt.append("[");
    prompt.append(m.id.as_str());
    prompt.append(": ");
    prompt.append(m.content.as_str());
    prompt.append(" (type: ");
    prompt.append(m.memory_type.as_str());
    prompt.append(", importance: ");
    prompt.append(importance);
    if include_emotion {
        prompt.append(emotion_text(&m.metadata).as_str());
    }
    prompt.append(")]\n");
    assert(prompt@ =~= start + memory_line(*m, importance@, include_emotion));
}

/// Builds the prompt for a cluster. The importances of the memories come
/// printed to two places, and the quality of the cluster to three.
pub fn build_prompt(
    cluster: &MemoryCluster,
    members: &Vec<MemoryRecord>,
    config: &SynthesisConfig,
    include_emotion: bool,
    importances: &Vec<String>,
    quality: &str,
) -> (r: String)
    requires
        importances@.len() == members@.len(),
    ensures
        r@ == prompt_text(
            *cluster,
            members@,
            *config,
            include_emotion,
            text::views(importances@),
            quality@,
        ),
{
    let template: PromptTemplate = match config.prompt_template {
        PromptTemplate::General => select_template(members),
        other => other,
    };
    let mut prompt: String = SYSTEM.to_owned();
    prompt.append(RULES);
    match template {
        PromptTemplate::FactualPattern => prompt.append(FACTUAL_RULE),
        PromptTemplate::EpisodicThread => prompt.append(EPISODIC_RULE),
        PromptTemplate::CausalChain => prompt.append(CAUSAL_RULE),
        PromptTemplate::General => {},
    }
    assert(prompt@ =~= SYSTEM@ + RULES@ + template_rule(template));
    prompt.append(FORMAT);
    let ghost head = prompt@;
    let n: usize = if config.max_memories_per_llm_call < members.len() {
        config.max_memories_per_llm_call
    } else {
        members.len()
    };
    let mut i: usize = 0;
    assert(head + memory_lines(members@, text::views(importances@), include_emotion, 0) =~= head);
    while i < n
        invariant
            i <= n <= members@.len(),
            importances@.len() == members@.len(),
            prompt@ == head + memory_lines(
                members@,
                text::views(importances@),
                include_emotion,
                i as int,
            ),
        decreases n - i,
    {
        let ghost lines = memory_lines(
            members@,
            text::views(importances@),
            include_emotion,
            i as int,
        );
        append_line(&mut prompt, &members[i], importances[i].as_str(), include_emotion);
        proof {
            let line = memory_line(
                members@[i as int],
                importances@[i as int]@,
                include_emotion,
            );
            assert((head + lines) + line =~= head + (lines + line));
        }
        i += 1;
    }
    prompt.append(SCHEMA);
    let ghost body = prompt@;
    prompt.append("\nCluster ID: ");
    prompt.append(cluster.id.as_str());
    prompt.append(" (quality: ");
    prompt.append(quality);
    prompt.append(", ");
    prompt.append(u64_text(cluster.members.len() as u64).as_str());
    prompt.append(" members, centroid: ");
    prompt.append(cluster.centroid_id.as_str());
    prompt.append(")\n");
    assert(prompt@ =~= body + cluster_line(*cluster, quality@));
    prompt
}

// ---------------------------------------------------------------------------
// The reply
// ---------------------------------------------------------------------------

/// Takes the fences of a code block off a reply.
pub fn clean_response(raw: &str) -> (r: String)
    ensures
        r@ == text::unfenced(raw@),
{
    unfence(raw)
}

/// A reply of the language model, read from its JSON.
#[derive(Clone, Debug, PartialEq, Eq)]
pub struct LlmReply {
    /// The insight.
    pub insight: String,
    /// How certain it is.
    pub confidence: Score,
    /// How the confidence is printed.
    pub confidence_text: String,
    /// What it is.
    pub insight_type: String,
    /// The memories it refers to.
    pub source_references: Vec<String>,
}

/// The type of an insight by its name.
pub open spec fn type_named(name: Seq<char>) -> Option<InsightType> {
    if name == "pattern"@ {
        Some(InsightType::Pattern)
    } else if name == "rule"@ {
        Some(InsightType::Rule)
    } else if name == "connection"@ {
        Some(InsightType::Connection)
    } else if name == "contradiction"@ {
        Some(InsightType::Contradiction)
    } else {
        None
    }
}

fn read_type(name: &str) -> (r: Option<InsightType>)
    ensures
        r == type_named(name@),
{
    if same(name, "pattern") {
        Some(InsightType::Pattern)
    } else if same(name, "rule") {
        Some(InsightType::Rule)
    } else if same(name, "connection") {
        Some(InsightType::Connection)
    } else if same(name, "contradiction") {
        Some(InsightType::Contradiction)
    } else {
        None
    }
}

/// The references that are no members, in order.
pub open spec fn foreign_references(refs: Seq<Seq<char>>, members: Seq<Seq<char>>) -> Seq<Seq<char>>
    decreases refs.len(),
{
    if refs.len() == 0 {
        Seq::empty()
    } else {
        let rest = foreign_references(refs.drop_last(), members);
        if text::holds(members, refs.last()) {
            rest
        } else {
            rest.push(refs.last())
        }
    }
}

fn find_foreign(refs: &Vec<String>, members: &Vec<String>) -> (r: Vec<String>)
    ensures
        text::views(r@) == foreign_references(text::views(refs@), text::views(members@)),
{
    let ghost all = text::views(refs@);
    let mut out: Vec<String> = Vec::new();
    assert(text::views(out@) =~= Seq::empty());
    let mut i: usize = 0;
    while i < refs.len()
        invariant
            i <= refs@.len(),
            all == text::views(refs@),
            text::views(out@) == foreign_references(all.take(i as int), text::views(members@)),
        decreases refs.len() - i,
    {
        assert(all.take(i + 1).drop_last() =~= all.take(i as int));
        if !contains_text(members, refs[i].as_str()) {
            let ghost before = text::views(out@);
            out.push(refs[i].clone());
            assert(text::views(out@) =~= before.push(refs@[i as int]@));
        }
        i += 1;
    }
    assert(all.take(i as int) =~= all);
    out
}

/// What is wrong with an insight that repeats a memory: it is the memory's
/// content or a part of it, or holds the whole of it where that is not short.
/// Upper and lower case do not matter.
pub open spec fn copy_of(insight: Seq<char>, m: MemoryRecord) -> Option<Seq<char>> {
    let content = text::lowercase(m.content@);
    if content == insight {
        Some("insight is identical to source "@ + m.id@)
    } else if text::occurs(content, insight) {
        Some("insight is a substring of source "@ + m.id@)
    } else if text::byte_len(content) >= 50 && text::occurs(insight, content) {
        Some("insight contains full content of source "@ + m.id@)
    } else {
        None
    }
}

/// What is wrong with an insight that repeats one of the memories, by the first
/// of them that it repeats.
pub open spec fn first_copy(insight: Seq<char>, members: Seq<MemoryRecord>) -> Option<Seq<char>>
    decreases members.len(),
{
    if members.len() == 0 {
        None
    } else {
        match first_copy(insight, members.drop_last()) {
            Some(reason) => Some(reason),
            None => copy_of(insight, members.last()),
        }
    }
}

fn find_copy(insight: &str, members: &Vec<MemoryRecord>) -> (r: Option<String>)
    ensures
        text::opt_view(r) == first_copy(insight@, members@),
{
    let mut i: usize = 0;
    while i < members.len()
        invariant
            i <= members@.len(),
            first_copy(insight@, members@.take(i as int)) is None,
        decreases members.len() - i,
    {
        assert(members@.take(i + 1).drop_last() =~= members@.take(i as int));
        let content: String = to_lower(members[i].content.as_str());
        let heading: Option<&str> = if same(content.as_str(), insight) {
            Some("insight is identical to source ")
        } else if contains(content.as_str(), insight) {
            Some("insight is a substring of source ")
        } else if byte_count(content.as_str()) >= 50 && contains(insight, content.as_str()) {
            Some("insight contains full content of source ")
        } else {
            None
        };
        match heading {
            Some(h) => {
                let mut reason: String = h.to_owned();
                reason.append(members[i].id.as_str());
                proof {
                    lemma_first_copy_stays(insight@, members@, i + 1);
                }
                return Some(reason);
            },
            None => {},
        }
        i += 1;
    }
    assert(members@.take(i as int) =~= members@);
    None
}

proof fn lemma_first_copy_stays(insight: Seq<char>, members: Seq<MemoryRecord>, n: int)
    requires
        0 <= n <= members.len(),
        first_copy(insight, members.take(n)) is Some,
    ensures
        first_copy(insight, members) == first_copy(insight, members.take(n)),
    decreases members.len() - n,
{
    if n < members.len() {
        assert(members.take(n + 1).drop_last() =~= members.take(n));
        lemma_first_copy_stays(insight, members, n + 1);
    } else {
        assert(members.take(n) =~= members);
    }
}

/// Whether a confidence lies between zero and one.
pub open spec fn is_confidence(c: Score) -> bool {
    c.reaches(Score { bits: score::ZERO }) && (Score { bits: score::ONE }).reaches(c)
}

/// What is wrong with a reply, by the first check that it does not pass.
pub open spec fn reply_error(
    reply: LlmReply,
    cluster: MemoryCluster,
    members: Seq<MemoryRecord>,
) -> Option<ErrorView> {
    let id = cluster.id@;
    let size = reply.insight@.len();
    let kind = text::lowercase(reply.insight_type@);
    let foreign = foreign_references(
        text::views(reply.source_references@),
        text::views(cluster.members@),
    );
    if !is_confidence(reply.confidence) {
        Some(
            ErrorView::ValidationFailed(
                id,
                "confidence "@ + reply.confidence_text@ + " not in 0.0-1.0"@,
            ),
        )
    } else if text::trimmed(reply.insight@).len() == 0 {
        Some(ErrorView::ValidationFailed(id, "insight text is empty"@))
    } else if type_named(kind) is None {
        Some(ErrorView::ValidationFailed(id, "invalid insight_type: "@ + kind))
    } else if size < 50 {
        Some(
            ErrorView::ValidationFailed(
                id,
                "insight too short: "@ + text::decimal(size) + " chars, minimum 50"@,
            ),
        )
    } else if size > 500 {
        Some(
            ErrorView::ValidationFailed(
                id,
                "insight too long: "@ + text::decimal(size) + " chars, maximum 500"@,
            ),
        )
    } else if foreign.len() > 0 {
        Some(ErrorView::HallucinatedReferences(id, foreign))
    } else {
        match first_copy(text::lowercase(reply.insight@), members) {
            Some(reason) => Some(ErrorView::ValidationFailed(id, reason)),
            None => None,
        }
    }
}

fn refused(cluster: &MemoryCluster, reason: String) -> (r: SynthesisError)
    ensures
        r@ == ErrorView::ValidationFailed(cluster.id@, reason@),
{
    SynthesisError::ValidationFailed { cluster_id: cluster.id.clone(), reason }
}

fn sized(heading: &str, size: usize, limit: &str) -> (r: String)
    ensures
        r@ == heading@ + text::decimal(size as nat) + limit@,
{
    let mut out: String = heading.to_owned();
    out.append(u64_text(size as u64).as_str());
    out.append(limit);
    out
}

/// Whether a result is what a reply comes to: an error that says what is wrong
/// with it, or the insight that it gives.
pub open spec fn is_verdict(
    parsed: Result<LlmReply, String>,
    cluster: MemoryCluster,
    members: Seq<MemoryRecord>,
    r: Result<SynthesisOutput, SynthesisError>,
) -> bool {
    match parsed {
        Err(e) => r is Err && (r->Err_0)@ == ErrorView::LlmInvalidResponse(
            cluster.id@,
            "JSON parse error: "@ + e@,
        ),
        Ok(reply) => match reply_error(reply, cluster, members) {
            Some(e) => r is Err && (r->Err_0)@ == e,
            None => {
                &&& r is Ok
                &&& (r->Ok_0).insight_text@ == reply.insight@
                &&& (r->Ok_0).confidence == reply.confidence
                &&& Some((r->Ok_0).insight_type) == type_named(
                    text::lowercase(reply.insight_type@),
                )
                &&& text::views((r->Ok_0).source_references@) == text::views(
                    reply.source_references@,
                )
            },
        },
    }
}

/// Checks a reply against its cluster. The reply comes as it was read from the
/// JSON of [`clean_response`], or as the message of why it could not be read.
pub fn validate_output(
    parsed: Result<LlmReply, String>,
    cluster: &MemoryCluster,
    members: &Vec<MemoryRecord>,
) -> (r: Result<SynthesisOutput, SynthesisError>)
    ensures
        match parsed {
            Err(e) => r is Err && (r->Err_0)@ == ErrorView::LlmInvalidResponse(
                cluster.id@,
                "JSON parse error: "@ + e@,
            ),
            Ok(reply) => match reply_error(reply, *cluster, members@) {
                Some(e) => r is Err && (r->Err_0)@ == e,
                None => {
                    &&& r is Ok
                    &&& (r->Ok_0).insight_text@ == reply.insight@
                    &&& (r->Ok_0).confidence == reply.confidence
                    &&& Some((r->Ok_0).insight_type) == type_named(
                        text::lowercase(reply.insight_type@),
                    )
                    &&& text::views((r->Ok_0).source_references@) == text::views(
                        reply.source_references@,
                    )
                },
            },
        },
        is_verdict(parsed, *cluster, members@, r),
{
    let reply: LlmReply = match parsed {
        Ok(reply) => reply,
        Err(e) => {
            let mut raw_response: String = "JSON parse error: ".to_owned();
            raw_response.append(e.as_str());
            return Err(
                SynthesisError::LlmInvalidResponse {
                    cluster_id: cluster.id.clone(),
                    raw_response,
                },
            );
        },
    };
    let zero: Score = Score { bits: score::ZERO };
    let one: Score = Score { bits: score::ONE };
    if !(reply.confidence.ge(&zero) && one.ge(&reply.confidence)) {
        let mut reason: String = "confidence ".to_owned();
        reason.append(reply.confidence_text.as_str());
        reason.append(" not in 0.0-1.0");
        return Err(refused(cluster, reason));
    }
    if reply.insight.as_str().trim().is_empty() {
        return Err(refused(cluster, "insight text is empty".to_owned()));
    }
    let kind: String = to_lower(reply.insight_type.as_str());
    let insight_type: InsightType = match read_type(kind.as_str()) {
        Some(t) => t,
        None => {
            let mut reason: String = "invalid insight_type: ".to_owned();
            reason.append(kind.as_str());
            return Err(refused(cluster, reason));
        },
    };
    let size: usize = chars_of(reply.insight.as_str()).len();
    if size < 50 {
        return Err(refused(cluster, sized("insight too short: ", size, " chars, minimum 50")));
    }
    if size > 500 {
        return Err(refused(cluster, sized("insight too long: ", size, " chars, maximum 500")));
    }
    let foreign: Vec<String> = find_foreign(&reply.source_references, &cluster.members);
    if foreign.len() > 0 {
        return Err(
            SynthesisError::HallucinatedReferences {
                cluster_id: cluster.id.clone(),
                invalid_ids: foreign,
            },
        );
    }
    let lower: String = to_lower(reply.insight.as_str());
    match find_copy(lower.as_str(), members) {
        Some(reason) => {
            return Err(refused(cluster, reason));
        },
        None => {},
    }
    Ok(
        SynthesisOutput {
            insight_text: reply.insight,
            confidence: reply.confidence,
            insight_type,
            source_references: reply.source_references,
        },
    )
}

/// An accepted reply refers to members of its cluster only.
pub proof fn law_accepted_references_are_members(
    reply: LlmReply,
    cluster: MemoryCluster,
    members: Seq<MemoryRecord>,
    i: int,
)
    requires
        reply_error(reply, cluster, members) is None,
        0 <= i < reply.source_references@.len(),
    ensures
        text::holds(text::views(cluster.members@), reply.source_references@[i]@),
{
    let refs = text::views(reply.source_references@);
    let ids = text::views(cluster.members@);
    if !text::holds(ids, refs[i]) {
        lemma_foreign_found(refs, ids, i);
    }
}

proof fn lemma_foreign_found(refs: Seq<Seq<char>>, ids: Seq<Seq<char>>, i: int)
    requires
        0 <= i < refs.len(),
        !text::holds(ids, refs[i]),
    ensures
        foreign_references(refs, ids).len() > 0,
    decreases refs.len(),
{
    if i < refs.len() - 1 {
        lemma_foreign_found(refs.drop_last(), ids, i);
    }
}

/// An accepted insight has between 50 and 500 characters, and no memory of its
/// cluster holds it, whatever the case of the letters.
pub proof fn law_accepted_insight_is_new(
    reply: LlmReply,
    cluster: MemoryCluster,
    members: Seq<MemoryRecord>,
    i: int,
)
    requires
        reply_error(reply, cluster, members) is None,
        0 <= i < members.len(),
    ensures
        50 <= reply.insight@.len() <= 500,
        !text::occurs(text::lowercase(members[i].content@), text::lowercase(reply.insight@)),
{
    lemma_no_copy(text::lowercase(reply.insight@), members, i);
    let content = text::lowercase(members[i].content@);
    let insight = text::lowercase(reply.insight@);
    if content == insight {
        assert(copy_of(insight, members[i]) is Some);
    }
}

proof fn lemma_no_copy(insight: Seq<char>, members: Seq<MemoryRecord>, i: int)
    requires
        0 <= i < members.len(),
        first_copy(insight, members) is None,
    ensures
        copy_of(insight, members[i]) is None,
    decreases members.len(),
{
    if i < members.len() - 1 {
        lemma_no_copy(insight, members.drop_last(), i);
    }
}

// ---------------------------------------------------------------------------
// What the prompt and the reply are for
// ---------------------------------------------------------------------------

/// Every memory up to the limit reaches the language model: its id, its content,
/// its type and its importance stand in the prompt, one behind the other, with
/// or without emotion.
pub proof fn law_prompt_holds_every_memory(
    cluster: MemoryCluster,
    members: Seq<MemoryRecord>,
    config: SynthesisConfig,
    include_emotion: bool,
    importances: Seq<Seq<char>>,
    quality: Seq<char>,
    i: int,
)
    requires
        0 <= i < members.len(),
        i < config.max_memories_per_llm_call,
        importances.len() == members.len(),
    ensures
        text::occurs(
            prompt_text(cluster, members, config, include_emotion, importances, quality),
            "["@ + members[i].id@ + ": "@ + members[i].content@ + " (type: "@
                + members[i].memory_type.name() + ", importance: "@ + importances[i],
        ),
{
    let n = prompt_size(config, members);
    lemma_line_in_lines(members, importances, include_emotion, n, i);
    lemma_line_starts(members[i], importances[i], include_emotion);
    let line = memory_line(members[i], importances[i], include_emotion);
    lemma_lines_in_prompt(cluster, members, config, include_emotion, importances, quality, line);
    let p = prompt_text(cluster, members, config, include_emotion, importances, quality);
    text::lemma_occurs_inside(p, line, line_start(members[i], importances[i]));
}

/// Where emotion is asked for, the emotional valence that the metadata of a
/// memory give stands behind its importance; where it is not, the line of the
/// memory ends there.
pub proof fn law_prompt_tells_emotion(
    cluster: MemoryCluster,
    members: Seq<MemoryRecord>,
    config: SynthesisConfig,
    include_emotion: bool,
    importances: Seq<Seq<char>>,
    quality: Seq<char>,
    i: int,
    metadata: Seq<char>,
    entries: Seq<(Seq<char>, Seq<char>)>,
    valence: Seq<char>,
)
    requires
        0 <= i < members.len(),
        i < config.max_memories_per_llm_call,
        importances.len() == members.len(),
        text::opt_view(members[i].metadata) == Some(metadata),
        json::json_level(metadata) == Some(JsonView::Object(entries)),
        json::lookup(entries, "emotional_valence"@) == Some(valence),
    ensures
        text::occurs(
            prompt_text(cluster, members, config, include_emotion, importances, quality),
            if include_emotion {
                ", importance: "@ + importances[i] + ", emotion: "@ + valence + ")]\n"@
            } else {
                ", importance: "@ + importances[i] + ")]\n"@
            },
        ),
{
    let n = prompt_size(config, members);
    let m = members[i];
    let line = memory_line(m, importances[i], include_emotion);
    let front = "["@ + m.id@ + ": "@ + m.content@ + " (type: "@ + m.memory_type.name();
    let end = if include_emotion {
        ", importance: "@ + importances[i] + ", emotion: "@ + valence + ")]\n"@
    } else {
        ", importance: "@ + importances[i] + ")]\n"@
    };
    assert(line =~= front + end + Seq::<char>::empty());
    text::lemma_occurs_between(front, end, Seq::empty());
    lemma_line_in_lines(members, importances, include_emotion, n, i);
    lemma_lines_in_prompt(cluster, members, config, include_emotion, importances, quality, line);
    text::lemma_occurs_inside(
        prompt_text(cluster, members, config, include_emotion, importances, quality),
        line,
        end,
    );
}

/// Memories beyond the limit do not change the prompt of a given template.
pub proof fn law_prompt_stops_at_the_limit(
    cluster: MemoryCluster,
    members: Seq<MemoryRecord>,
    config: SynthesisConfig,
    include_emotion: bool,
    importances: Seq<Seq<char>>,
    quality: Seq<char>,
)
    requires
        config.max_memories_per_llm_call <= members.len(),
        importances.len() == members.len(),
        !(config.prompt_template is General),
    ensures
        prompt_text(cluster, members, config, include_emotion, importances, quality)
            == prompt_text(
            cluster,
            members.take(config.max_memories_per_llm_call as int),
            config,
            include_emotion,
            importances.take(config.max_memories_per_llm_call as int),
            quality,
        ),
{
    let n = config.max_memories_per_llm_call as int;
    lemma_lines_of_first(members, importances, include_emotion, n, n);
}

proof fn lemma_lines_of_first(
    members: Seq<MemoryRecord>,
    importances: Seq<Seq<char>>,
    include_emotion: bool,
    limit: int,
    n: int,
)
    requires
        n <= limit <= members.len(),
        limit <= importances.len(),
    ensures
        memory_lines(members, importances, include_emotion, n) == memory_lines(
            members.take(limit),
            importances.take(limit),
            include_emotion,
            n,
        ),
    decreases n,
{
    if n > 0 {
        lemma_lines_of_first(members, importances, include_emotion, limit, n - 1);
    }
}

/// The prompt asks what its template is for, and names the cluster, its quality,
/// its size and its centroid. The general template is specialised by the type
/// that more than half of the memories have.
pub proof fn law_prompt_follows_template(
    cluster: MemoryCluster,
    members: Seq<MemoryRecord>,
    config: SynthesisConfig,
    include_emotion: bool,
    importances: Seq<Seq<char>>,
    quality: Seq<char>,
    t: MemoryType,
)
    requires
        config.prompt_template is FactualPattern || (config.prompt_template is General && 2
            * members.filter(|m: MemoryRecord| m.memory_type == t).len() > members.len() + 1),
    ensures
        config.prompt_template is FactualPattern || t is Factual ==> text::occurs(
            prompt_text(cluster, members, config, include_emotion, importances, quality),
            FACTUAL_RULE@,
        ),
        config.prompt_template is General && t is Episodic ==> text::occurs(
            prompt_text(cluster, members, config, include_emotion, importances, quality),
            EPISODIC_RULE@,
        ),
        config.prompt_template is General && t is Causal ==> text::occurs(
            prompt_text(cluster, members, config, include_emotion, importances, quality),
            CAUSAL_RULE@,
        ),
        text::ends(
            prompt_text(cluster, members, config, include_emotion, importances, quality),
            "\nCluster ID: "@ + cluster.id@ + " (quality: "@ + quality + ", "@ + text::decimal(
                cluster.members@.len(),
            ) + " members, centroid: "@ + cluster.centroid_id@ + ")\n"@,
        ),
{
    let p = prompt_text(cluster, members, config, include_emotion, importances, quality);
    law_type_count_counts(members, t);
    let used = template_in_use(config, members);
    if config.prompt_template is General {
        if t is Episodic || t is Causal {
            law_majority_unique(members, MemoryType::Factual, t);
        }
        if t is Causal {
            law_majority_unique(members, MemoryType::Episodic, t);
        }
    }
    let rule = template_rule(used);
    let a = SYSTEM@ + RULES@;
    let lines = memory_lines(members, importances, include_emotion, prompt_size(config, members));
    let b = FORMAT@ + lines + SCHEMA@ + cluster_line(cluster, quality);
    assert(p =~= a + rule + b);
    text::lemma_occurs_between(a, rule, b);
    let tail = cluster_line(cluster, quality);
    assert(p.skip(p.len() - tail.len()) =~= tail);
}

/// A template that is chosen is the one that is used.
pub proof fn law_chosen_template_is_used(
    cluster: MemoryCluster,
    members: Seq<MemoryRecord>,
    config: SynthesisConfig,
    include_emotion: bool,
    importances: Seq<Seq<char>>,
    quality: Seq<char>,
)
    ensures
        config.prompt_template is EpisodicThread ==> text::occurs(
            prompt_text(cluster, members, config, include_emotion, importances, quality),
            EPISODIC_RULE@,
        ),
        config.prompt_template is CausalChain ==> text::occurs(
            prompt_text(cluster, members, config, include_emotion, importances, quality),
            CAUSAL_RULE@,
        ),
{
    let p = prompt_text(cluster, members, config, include_emotion, importances, quality);
    let rule = template_rule(template_in_use(config, members));
    let a = SYSTEM@ + RULES@;
    let lines = memory_lines(members, importances, include_emotion, prompt_size(config, members));
    let b = FORMAT@ + lines + SCHEMA@ + cluster_line(cluster, quality);
    assert(p =~= a + rule + b);
    text::lemma_occurs_between(a, rule, b);
}

/// The count of a type is the number of memories of that type.
pub proof fn law_type_count_counts(members: Seq<MemoryRecord>, t: MemoryType)
    ensures
        type_count(members, t) == members.filter(|m: MemoryRecord| m.memory_type == t).len(),
    decreases members.len(),
{
    reveal(Seq::filter);
    if members.len() > 0 {
        law_type_count_counts(members.drop_last(), t);
    }
}

spec fn line_start(memory: MemoryRecord, importance: Seq<char>) -> Seq<char> {
    "["@ + memory.id@ + ": "@ + memory.content@ + " (type: "@ + memory.memory_type.name()
        + ", importance: "@ + importance
}

proof fn lemma_line_starts(m: MemoryRecord, importance: Seq<char>, include_emotion: bool)
    ensures
        text::occurs(memory_line(m, importance, include_emotion), line_start(m, importance)),
{
    let line = memory_line(m, importance, include_emotion);
    let start = line_start(m, importance);
    let rest = line.skip(start.len() as int);
    assert(line =~= Seq::<char>::empty() + start + rest);
    text::lemma_occurs_between(Seq::empty(), start, rest);
}

proof fn lemma_line_in_lines(
    members: Seq<MemoryRecord>,
    importances: Seq<Seq<char>>,
    include_emotion: bool,
    n: int,
    i: int,
)
    requires
        0 <= i < n <= members.len(),
        importances.len() == members.len(),
    ensures
        text::occurs(
            memory_lines(members, importances, include_emotion, n),
            memory_line(members[i], importances[i], include_emotion),
        ),
    decreases n,
{
    let before = memory_lines(members, importances, include_emotion, n - 1);
    let last = memory_line(members[n - 1], importances[n - 1], include_emotion);
    let line = memory_line(members[i], importances[i], include_emotion);
    if i == n - 1 {
        assert(before + last =~= before + last + Seq::<char>::empty());
        text::lemma_occurs_between(before, last, Seq::empty());
    } else {
        lemma_line_in_lines(members, importances, include_emotion, n - 1, i);
        assert(before + last =~= Seq::<char>::empty() + before + last);
        text::lemma_occurs_within(Seq::empty(), before, last, line);
    }
}

proof fn lemma_lines_in_prompt(
    cluster: MemoryCluster,
    members: Seq<MemoryRecord>,
    config: SynthesisConfig,
    include_emotion: bool,
    importances: Seq<Seq<char>>,
    quality: Seq<char>,
    line: Seq<char>,
)
    requires
        text::occurs(
            memory_lines(members, importances, include_emotion, prompt_size(config, members)),
            line,
        ),
    ensures
        text::occurs(
            prompt_text(cluster, members, config, include_emotion, importances, quality),
            line,
        ),
{
    let lines = memory_lines(members, importances, include_emotion, prompt_size(config, members));
    let a = SYSTEM@ + RULES@ + template_rule(template_in_use(config, members)) + FORMAT@;
    let b = SCHEMA@ + cluster_line(cluster, quality);
    assert(prompt_text(cluster, members, config, include_emotion, importances, quality) =~= a
        + lines + b);
    text::lemma_occurs_within(a, lines, b, line);
}

/// The name of an insight's type is the type's label in lower case, and each
/// type has one name.
pub proof fn law_type_is_the_one_named(name: Seq<char>, t: InsightType)
    ensures
        type_named(name) == Some(t) <==> name == text::ascii_lowered(t.label()),
        type_named("pattern"@) == Some(InsightType::Pattern),
        type_named("rule"@) == Some(InsightType::Rule),
        type_named("connection"@) == Some(InsightType::Connection),
        type_named("contradiction"@) == Some(InsightType::Contradiction),
{
    reveal_strlit("pattern");
    reveal_strlit("rule");
    reveal_strlit("connection");
    reveal_strlit("contradiction");
    reveal_strlit("Pattern");
    reveal_strlit("Rule");
    reveal_strlit("Connection");
    reveal_strlit("Contradiction");
    assert("pattern"@.len() != "rule"@.len());
    assert("pattern"@.len() != "connection"@.len());
    assert("pattern"@.len() != "contradiction"@.len());
    assert("rule"@.len() != "connection"@.len());
    assert("rule"@.len() != "contradiction"@.len());
    assert("connection"@.len() != "contradiction"@.len());
    assert(text::ascii_lowered("Pattern"@) =~= "pattern"@);
    assert(text::ascii_lowered("Rule"@) =~= "rule"@);
    assert(text::ascii_lowered("Connection"@) =~= "connection"@);
    assert(text::ascii_lowered("Contradiction"@) =~= "contradiction"@);
}

/// An accepted reply becomes an insight with its text, its confidence, its
/// references, and the type whose label its type is, whatever the case.
pub proof fn law_accepted_reply_is_kept(
    reply: LlmReply,
    cluster: MemoryCluster,
    members: Seq<MemoryRecord>,
    r: Result<SynthesisOutput, SynthesisError>,
)
    requires
        is_verdict(Ok(reply), cluster, members, r),
        r is Ok,
    ensures
        (r->Ok_0).insight_text@ == reply.insight@,
        (r->Ok_0).confidence == reply.confidence,
        text::ascii_lowered((r->Ok_0).insight_type.label()) == text::lowercase(
            reply.insight_type@,
        ),
        (r->Ok_0).source_references@.len() == reply.source_references@.len(),
        forall|i: int|
            0 <= i < reply.source_references@.len() ==> (#[trigger] (
            r->Ok_0).source_references@[i])@ == reply.source_references@[i]@,
{
    law_type_is_the_one_named(text::lowercase(reply.insight_type@), (r->Ok_0).insight_type);
    let a = text::views((r->Ok_0).source_references@);
    let b = text::views(reply.source_references@);
    assert(a.len() == (r->Ok_0).source_references@.len());
    assert forall|i: int| 0 <= i < reply.source_references@.len() implies (#[trigger] (
    r->Ok_0).source_references@[i])@ == reply.source_references@[i]@ by {
        assert(a[i] == b[i]);
    }
}

/// A reply is accepted exactly where its confidence lies between zero and one,
/// its insight is not blank and has 50 to 500 characters, its type is one of the
/// four, it refers to members of the cluster only, and its insight is no part of
/// a memory and holds none of 50 bytes or more as a whole, whatever the case.
pub proof fn law_reply_is_accepted_for(
    reply: LlmReply,
    cluster: MemoryCluster,
    members: Seq<MemoryRecord>,
)
    ensures
        reply_error(reply, cluster, members) is None <==> {
            &&& reply.confidence.reaches(Score { bits: 0 })
            &&& (Score { bits: 0x3ff0_0000_0000_0000 }).reaches(reply.confidence)
            &&& text::trimmed(reply.insight@).len() > 0
            &&& 50 <= reply.insight@.len() <= 500
            &&& ({
                let kind = text::lowercase(reply.insight_type@);
                kind == "pattern"@ || kind == "rule"@ || kind == "connection"@ || kind
                    == "contradiction"@
            })
            &&& forall|i: int|
                0 <= i < reply.source_references@.len() ==> text::views(
                    cluster.members@,
                ).contains(#[trigger] reply.source_references@[i]@)
            &&& forall|i: int|
                0 <= i < members.len() ==> !text::occurs(
                    text::lowercase((#[trigger] members[i]).content@),
                    text::lowercase(reply.insight@),
                ) && !(vstd::utf8::encode_utf8(text::lowercase(members[i].content@)).len() >= 50
                    && text::occurs(
                    text::lowercase(reply.insight@),
                    text::lowercase(members[i].content@),
                ))
        },
{
    let refs = text::views(reply.source_references@);
    let ids = text::views(cluster.members@);
    let insight = text::lowercase(reply.insight@);
    assert forall|i: int| 0 <= i < refs.len() implies (text::holds(ids, #[trigger] refs[i])
        <==> ids.contains(reply.source_references@[i]@)) by {
        assert(refs[i] == reply.source_references@[i]@);
    }
    if foreign_references(refs, ids).len() == 0 {
        assert forall|i: int| 0 <= i < reply.source_references@.len() implies ids.contains(
            #[trigger] reply.source_references@[i]@,
        ) by {
            if !text::holds(ids, refs[i]) {
                lemma_foreign_found(refs, ids, i);
            }
        }
    } else {
        law_foreign_references_are_the_others(refs, ids);
        let f = foreign_references(refs, ids);
        let keep = |t: Seq<char>| !ids.contains(t);
        assert(f[0] == refs.filter(keep)[0]);
        refs.lemma_filter_contains_rev(keep, f[0]);
        let i = choose|i: int| 0 <= i < refs.len() && refs[i] == f[0];
        refs.lemma_filter_pred(keep, 0);
        assert(!ids.contains(reply.source_references@[i]@));
    }
    if first_copy(insight, members) is None {
        assert forall|i: int| 0 <= i < members.len() implies !text::occurs(
            text::lowercase((#[trigger] members[i]).content@),
            insight,
        ) && !(vstd::utf8::encode_utf8(text::lowercase(members[i].content@)).len() >= 50
            && text::occurs(insight, text::lowercase(members[i].content@))) by {
            lemma_no_copy(insight, members, i);
            lemma_copy_is_part(insight, members[i]);
        }
    } else {
        lemma_copy_found(insight, members);
        let i = choose|i: int|
            0 <= i < members.len() && copy_of(insight, #[trigger] members[i]) is Some;
        lemma_copy_is_part(insight, members[i]);
    }
}

proof fn lemma_copy_is_part(insight: Seq<char>, m: MemoryRecord)
    ensures
        copy_of(insight, m) is None <==> !text::occurs(text::lowercase(m.content@), insight) && !(
        text::byte_len(text::lowercase(m.content@)) >= 50 && text::occurs(
            insight,
            text::lowercase(m.content@),
        )),
{
    let content = text::lowercase(m.content@);
    if content == insight {
        assert(content.subrange(0, content.len() as int) =~= content);
        assert(text::stands_at(content, insight, 0));
    }
}

proof fn lemma_copy_found(insight: Seq<char>, members: Seq<MemoryRecord>)
    requires
        first_copy(insight, members) is Some,
    ensures
        exists|i: int| 0 <= i < members.len() && copy_of(insight, #[trigger] members[i]) is Some,
    decreases members.len(),
{
    let d = members.drop_last();
    if first_copy(insight, d) is Some {
        lemma_copy_found(insight, d);
        let i = choose|i: int| 0 <= i < d.len() && copy_of(insight, #[trigger] d[i]) is Some;
        assert(copy_of(insight, members[i]) is Some);
    } else {
        assert(copy_of(insight, members[members.len() - 1]) is Some);
    }
}

/// The foreign references of a reply are those that are no members, all of them,
/// in order.
pub proof fn law_foreign_references_are_the_others(refs: Seq<Seq<char>>, members: Seq<Seq<char>>)
    ensures
        foreign_references(refs, members) == refs.filter(|t: Seq<char>| !members.contains(t)),
    decreases refs.len(),
{
    reveal(Seq::filter);
    if refs.len() > 0 {
        law_foreign_references_are_the_others(refs.drop_last(), members);
        assert(text::holds(members, refs.last()) <==> members.contains(refs.last()));
    }
}

/// What is wrong with a refused reply comes with the id of its cluster, and a
/// reply that is well-formed but for its references is refused with those that
/// are no members.
pub proof fn law_refusal_names_its_cluster(
    reply: LlmReply,
    cluster: MemoryCluster,
    members: Seq<MemoryRecord>,
)
    ensures
        match reply_error(reply, cluster, members) {
            None => true,
            Some(ErrorView::ValidationFailed(id, _)) => id == cluster.id@,
            Some(ErrorView::HallucinatedReferences(id, ids)) => id == cluster.id@ && ids.len() > 0
                && ids == text::views(reply.source_references@).filter(
                |t: Seq<char>| !text::views(cluster.members@).contains(t),
            ),
            Some(_) => false,
        },
{
    law_foreign_references_are_the_others(
        text::views(reply.source_references@),
        text::views(cluster.members@),
    );
}

/// A refusal says what is wrong: the confidence, the type or the length that the
/// reply has, and the length that it should have.
pub proof fn law_refusal_says_what_is_wrong(
    reply: LlmReply,
    cluster: MemoryCluster,
    members: Seq<MemoryRecord>,
)
    ensures
        ({
            let size = reply.insight@.len();
            let kind = text::lowercase(reply.insight_type@);
            let fine = is_confidence(reply.confidence);
            let blank = text::trimmed(reply.insight@).len() == 0;
            let typed = type_named(kind) is Some;
            let e = reply_error(reply, cluster, members);
            &&& !fine ==> (e matches Some(ErrorView::ValidationFailed(_, why)) && why
                == "confidence "@ + reply.confidence_text@ + " not in 0.0-1.0"@)
            &&& fine && blank ==> (e matches Some(ErrorView::ValidationFailed(_, why)) && why
                == "insight text is empty"@)
            &&& fine && !blank && !typed ==> (e matches Some(ErrorView::ValidationFailed(_, why))
                && why == "invalid insight_type: "@ + kind)
            &&& fine && !blank && typed && size < 50 ==> (e matches Some(
                ErrorView::ValidationFailed(_, why),
            ) && why == "insight too short: "@ + text::decimal(size) + " chars, minimum 50"@)
            &&& fine && !blank && typed && size > 500 ==> (e matches Some(
                ErrorView::ValidationFailed(_, why),
            ) && why == "insight too long: "@ + text::decimal(size) + " chars, maximum 500"@)
        }),
{
}

} // verus!
