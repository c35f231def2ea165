//! The data of the synthesis pipeline: clusters, gate decisions, insights,
//! provenance, reports, and the configuration of each stage.

use crate::score::Score;
use crate::substrate::types::MemoryType;
use crate::text;
use crate::text::{debug_text, join, u64_text};
pub use crate::time::{Period, Timestamp};
use vstd::prelude::*;
use vstd::string::*;

verus! {

/// What the pipeline reads of a memory.
#[derive(Clone, Debug, PartialEq, Eq)]
pub struct MemoryRecord {
    /// Its id.
    pub id: String,
    /// Its content.
    pub content: String,
    /// Its type.
    pub memory_type: MemoryType,
    /// Its importance.
    pub importance: Score,
    /// How often it was accessed.
    pub access_count: usize,
    /// Its metadata, as JSON text.
    pub metadata: Option<String>,
}

// ---------------------------------------------------------------------------
// Clusters
// ---------------------------------------------------------------------------

/// The weights by which the clustering signals are combined.
#[derive(Clone, Copy, Debug, PartialEq, Eq, Structural)]
pub struct ClusterWeights {
    /// Of co-activation.
    pub hebbian: Score,
    /// Of shared entities.
    pub entity: Score,
    /// Of the similarity of embeddings.
    pub embedding: Score,
    /// Of closeness in time.
    pub temporal: Score,
}

impl ClusterWeights {
    /// 0.4, 0.3, 0.2 and 0.1.
    pub open spec fn standard() -> ClusterWeights {
        ClusterWeights {
            hebbian: Score { bits: 0x3fd999999999999a },
            entity: Score { bits: 0x3fd3333333333333 },
            embedding: Score { bits: 0x3fc999999999999a },
            temporal: Score { bits: 0x3fb999999999999a },
        }
    }
}

impl Default for ClusterWeights {
    fn default() -> (r: ClusterWeights)
        ensures
            r == ClusterWeights::standard(),
    {
        ClusterWeights {
            hebbian: Score { bits: 0x3fd999999999999a },
            entity: Score { bits: 0x3fd3333333333333 },
            embedding: Score { bits: 0x3fc999999999999a },
            temporal: Score { bits: 0x3fb999999999999a },
        }
    }
}

/// The signals between two memories.
#[derive(Clone, Copy, Debug, PartialEq, Eq, Structural)]
pub struct PairwiseSignals {
    /// The weight of the link between them, where there is one.
    pub hebbian_weight: Option<Score>,
    /// The share of their entities that they have in common.
    pub entity_overlap: Score,
    /// The cosine similarity of their embeddings.
    pub embedding_similarity: Score,
    /// How close they are in time.
    pub temporal_proximity: Score,
}

/// The signal that contributes most to a cluster.
#[derive(Clone, Copy, Debug, PartialEq, Eq, Structural)]
pub enum ClusterSignal {
    /// Co-activation.
    Hebbian,
    /// Shared entities.
    Entity,
    /// Similar embeddings.
    Embedding,
    /// Closeness in time.
    Temporal,
}

/// What each signal contributes to a cluster.
#[derive(Clone, Copy, Debug, PartialEq, Eq, Structural)]
pub struct SignalsSummary {
    /// The signal that contributes most.
    pub dominant_signal: ClusterSignal,
    /// Co-activation.
    pub hebbian_contribution: Score,
    /// Shared entities.
    pub entity_contribution: Score,
    /// Similar embeddings.
    pub embedding_contribution: Score,
    /// Closeness in time.
    pub temporal_contribution: Score,
}

/// A cluster of related memories.
#[derive(Clone, Debug, PartialEq, Eq)]
pub struct MemoryCluster {
    /// Its id, derived from its members.
    pub id: String,
    /// The ids of its members, ascending.
    pub members: Vec<String>,
    /// How closely the members are related on average.
    pub quality_score: Score,
    /// The member most closely related to the others.
    pub centroid_id: String,
    /// What each signal contributes.
    pub signals_summary: SignalsSummary,
}

/// How clusters are discovered.
#[derive(Clone, Copy, Debug, PartialEq, Eq)]
pub struct ClusterDiscoveryConfig {
    /// The weights of the signals.
    pub weights: ClusterWeights,
    /// The least combined score of a related pair.
    pub cluster_threshold: Score,
    /// The least size of a cluster.
    pub min_cluster_size: usize,
    /// The greatest size of a cluster.
    pub max_cluster_size: usize,
    /// The least importance of a memory that takes part.
    pub min_importance: Score,
    /// The rate at which closeness in time decays.
    pub temporal_decay_lambda: Score,
    /// The half-life of closeness in time, in hours.
    pub temporal_half_life_hours: Score,
    /// Cycles before a cluster is looked at again.
    pub cooldown_cycles: u32,
    /// The least spread of the members in time.
    pub temporal_spread_minimum: Period,
    /// The most neighbours that are kept for a node; chosen by size where unset.
    pub max_neighbors_per_node: Option<usize>,
    /// The trials of community detection; chosen by density where unset.
    pub infomap_trials: Option<usize>,
    /// Whether community detection is hierarchical; chosen by size where unset.
    pub infomap_hierarchical: Option<bool>,
    /// The least similarity to a centroid for a direct assignment.
    pub hot_assign_threshold: Option<Score>,
    /// The share of pending memories above which everything is clustered anew.
    pub cold_recluster_ratio: Option<Score>,
    /// The number of pending memories above which dirty clusters are redone.
    pub warm_recluster_interval: Option<usize>,
}

impl ClusterDiscoveryConfig {
    /// The settings that apply where none are given.
    pub open spec fn standard() -> ClusterDiscoveryConfig {
        ClusterDiscoveryConfig {
            weights: ClusterWeights::standard(),
            cluster_threshold: Score { bits: 0x3fd3333333333333 },
            min_cluster_size: 3,
            max_cluster_size: 15,
            min_importance: Score { bits: 0x3fd3333333333333 },
            temporal_decay_lambda: Score { bits: 0x3f70ea9e6eeb7026 },
            temporal_half_life_hours: Score { bits: 0x4065000000000000 },
            cooldown_cycles: 3,
            temporal_spread_minimum: Period { secs: 3600, nanos: 0 },
            max_neighbors_per_node: None,
            infomap_trials: None,
            infomap_hierarchical: None,
            hot_assign_threshold: None,
            cold_recluster_ratio: None,
            warm_recluster_interval: None,
        }
    }
}

impl Default for ClusterDiscoveryConfig {
    fn default() -> (r: ClusterDiscoveryConfig)
        ensures
            r == ClusterDiscoveryConfig::standard(),
    {
        ClusterDiscoveryConfig {
            weights: ClusterWeights::default(),
            cluster_threshold: Score { bits: 0x3fd3333333333333 },
            min_cluster_size: 3,
            max_cluster_size: 15,
            min_importance: Score { bits: 0x3fd3333333333333 },
            temporal_decay_lambda: Score { bits: 0x3f70ea9e6eeb7026 },
            temporal_half_life_hours: Score { bits: 0x4065000000000000 },
            cooldown_cycles: 3,
            temporal_spread_minimum: Period { secs: 3600, nanos: 0 },
            max_neighbors_per_node: None,
            infomap_trials: None,
            infomap_hierarchical: None,
            hot_assign_threshold: None,
            cold_recluster_ratio: None,
            warm_recluster_interval: None,
        }
    }
}

/// How emotion bears on synthesis.
#[derive(Clone, Copy, Debug, PartialEq, Eq, Structural)]
pub struct EmotionalModulationConfig {
    /// The weight of the boost.
    pub emotional_boost_weight: Score,
    /// Whether emotional clusters come first.
    pub prioritize_emotional: bool,
    /// Whether the prompt tells the emotion of a memory.
    pub include_emotion_in_prompt: bool,
}

impl EmotionalModulationConfig {
    /// The settings that apply where none are given.
    pub open spec fn standard() -> EmotionalModulationConfig {
        EmotionalModulationConfig {
            emotional_boost_weight: Score { bits: 0x3fc999999999999a },
            prioritize_emotional: true,
            include_emotion_in_prompt: true,
        }
    }
}

impl Default for EmotionalModulationConfig {
    fn default() -> (r: EmotionalModulationConfig)
        ensures
            r == EmotionalModulationConfig::standard(),
    {
        EmotionalModulationConfig {
            emotional_boost_weight: Score { bits: 0x3fc999999999999a },
            prioritize_emotional: true,
            include_emotion_in_prompt: true,
        }
    }
}

// ---------------------------------------------------------------------------
// The synthesis gate
// ---------------------------------------------------------------------------

/// What becomes of a cluster.
#[derive(Clone, Debug, PartialEq, Eq)]
pub enum GateDecision {
    /// It is synthesized.
    Synthesize {
        /// Why.
        reason: String,
    },
    /// It is dealt with without a language model.
    AutoUpdate {
        /// How.
        action: AutoUpdateAction,
    },
    /// It is looked at again later.
    Defer {
        /// Why.
        reason: String,
    },
    /// It is left alone.
    Skip {
        /// Why.
        reason: String,
    },
}

/// What is done without a language model.
#[derive(Clone, Debug, PartialEq, Eq)]
pub enum AutoUpdateAction {
    /// Near-duplicates are merged.
    MergeDuplicates {
        /// The memory that is kept.
        keep: String,
        /// The memories that it replaces.
        demote: Vec<String>,
    },
    /// Links are strengthened.
    StrengthenLinks {
        /// The pairs.
        pairs: Vec<(String, String)>,
    },
}

/// The thresholds of the synthesis gate.
#[derive(Clone, Copy, Debug, PartialEq, Eq, Structural)]
pub struct GateConfig {
    /// The least size of a cluster.
    pub min_cluster_size: usize,
    /// The least quality.
    pub gate_quality_threshold: Score,
    /// The least quality of a cluster of the least size.
    pub defer_quality_threshold: Score,
    /// The similarity from which memories count as duplicates.
    pub duplicate_similarity: Score,
    /// The least number of memory types.
    pub min_type_diversity: usize,
    /// The greatest cost of a cluster below the premium quality.
    pub cost_threshold: Score,
    /// The quality from which the cost does not matter.
    pub premium_threshold: Score,
}

impl GateConfig {
    /// The thresholds that apply where none are given.
    pub open spec fn standard() -> GateConfig {
        GateConfig {
            min_cluster_size: 3,
            gate_quality_threshold: Score { bits: 0x3fd999999999999a },
            defer_quality_threshold: Score { bits: 0x3fe3333333333333 },
            duplicate_similarity: Score { bits: 0x3fee666666666666 },
            min_type_diversity: 2,
            cost_threshold: Score { bits: 0x3fa999999999999a },
            premium_threshold: Score { bits: 0x3fe999999999999a },
        }
    }
}

impl Default for GateConfig {
    fn default() -> (r: GateConfig)
        ensures
            r == GateConfig::standard(),
    {
        GateConfig {
            min_cluster_size: 3,
            gate_quality_threshold: Score { bits: 0x3fd999999999999a },
            defer_quality_threshold: Score { bits: 0x3fe3333333333333 },
            duplicate_similarity: Score { bits: 0x3fee666666666666 },
            min_type_diversity: 2,
            cost_threshold: Score { bits: 0x3fa999999999999a },
            premium_threshold: Score { bits: 0x3fe999999999999a },
        }
    }
}

/// The figures behind a gate decision.
#[derive(Clone, Copy, Debug, PartialEq, Eq, Structural)]
pub struct GateScores {
    /// The quality of the cluster.
    pub quality: Score,
    /// The number of memory types in it.
    pub type_diversity: usize,
    /// What its synthesis is expected to cost.
    pub estimated_cost: Score,
    /// The number of its members.
    pub member_count: usize,
}

/// The result of a gate check.
#[derive(Clone, Debug, PartialEq, Eq)]
pub struct GateResult {
    /// The cluster.
    pub cluster_id: String,
    /// What becomes of it.
    pub decision: GateDecision,
    /// The figures behind it.
    pub scores: GateScores,
    /// When it was made.
    pub timestamp: Timestamp,
}

// ---------------------------------------------------------------------------
// Insights
// ---------------------------------------------------------------------------

/// How the language model is asked.
#[derive(Clone, Copy, Debug, PartialEq, Eq, Structural)]
pub enum PromptTemplate {
    /// Without a particular focus.
    General,
    /// With a focus on recurring facts.
    FactualPattern,
    /// With a focus on a thread of episodes.
    EpisodicThread,
    /// With a focus on causes and effects.
    CausalChain,
}

/// The settings of insight generation.
#[derive(Clone, Debug, PartialEq, Eq)]
pub struct SynthesisConfig {
    /// The language model.
    pub model: String,
    /// The longest reply, in tokens.
    pub max_tokens: usize,
    /// The temperature.
    pub temperature: Score,
    /// The template; the general one is specialised by the memories.
    pub prompt_template: PromptTemplate,
    /// The most memories in one prompt.
    pub max_memories_per_llm_call: usize,
    /// The age from which an insight is made anew.
    pub resynthesis_age_threshold: Period,
}

impl Default for SynthesisConfig {
    fn default() -> (r: SynthesisConfig)
        ensures
            r.model@.len() == 0,
            r.max_tokens == 512,
            r.temperature == (Score { bits: 0x3fd3333333333333 }),
            r.prompt_template is General,
            r.max_memories_per_llm_call == 10,
            r.resynthesis_age_threshold == (Period { secs: 2592000, nanos: 0 }),
    {
        SynthesisConfig {
            model: String::new(),
            max_tokens: 512,
            temperature: Score { bits: 0x3fd3333333333333 },
            prompt_template: PromptTemplate::General,
            max_memories_per_llm_call: 10,
            resynthesis_age_threshold: Period { secs: 2592000, nanos: 0 },
        }
    }
}

/// A cluster that is to be synthesized.
#[derive(Clone, Debug, PartialEq, Eq)]
pub struct SynthesisRequest {
    /// The cluster.
    pub cluster: MemoryCluster,
    /// Its members.
    pub members: Vec<MemoryRecord>,
    /// The settings.
    pub config: SynthesisConfig,
}

/// What an insight is.
#[derive(Clone, Copy, Debug, PartialEq, Eq, Structural)]
pub enum InsightType {
    /// A pattern that recurs.
    Pattern,
    /// A rule.
    Rule,
    /// A connection between memories.
    Connection,
    /// A contradiction between memories.
    Contradiction,
}

impl InsightType {
    /// The name of the variant.
    pub open spec fn label(self) -> Seq<char> {
        match self {
            InsightType::Pattern => "Pattern"@,
            InsightType::Rule => "Rule"@,
            InsightType::Connection => "Connection"@,
            InsightType::Contradiction => "Contradiction"@,
        }
    }

    /// The name of the variant.
    pub fn as_label(&self) -> (r: &'static str)
        ensures
            r@ == self.label(),
    {
        match self {
            InsightType::Pattern => "Pattern",
            InsightType::Rule => "Rule",
            InsightType::Connection => "Connection",
            InsightType::Contradiction => "Contradiction",
        }
    }
}

/// An insight as the language model gave it.
#[derive(Clone, Debug, PartialEq, Eq)]
pub struct SynthesisOutput {
    /// The text.
    pub insight_text: String,
    /// How certain it is.
    pub confidence: Score,
    /// What it is.
    pub insight_type: InsightType,
    /// The memories it refers to.
    pub source_references: Vec<String>,
}

// ---------------------------------------------------------------------------
// Provenance
// ---------------------------------------------------------------------------

/// A link from an insight to one of its sources.
#[derive(Clone, Debug, PartialEq, Eq)]
pub struct ProvenanceRecord {
    /// Its id.
    pub id: String,
    /// The insight.
    pub insight_id: String,
    /// The source.
    pub source_id: String,
    /// The cluster behind the insight.
    pub cluster_id: String,
    /// When the insight was made.
    pub synthesis_timestamp: Timestamp,
    /// The synthesis gate decision.
    pub gate_decision: String,
    /// The figures behind it.
    pub gate_scores: Option<GateScores>,
    /// How certain the insight is.
    pub confidence: Score,
    /// The importance of the source before it was demoted.
    pub source_original_importance: Option<Score>,
}

/// The provenance of a memory, layer by layer.
#[derive(Clone, Debug, PartialEq, Eq)]
pub struct ProvenanceChain {
    /// The memory.
    pub root_id: String,
    /// The layers, the nearest first.
    pub layers: Vec<Vec<ProvenanceRecord>>,
}

/// A source whose importance was restored, or could not be.
#[derive(Clone, Debug, PartialEq, Eq)]
pub struct RestoredSource {
    /// The source.
    pub memory_id: String,
    /// The importance it had.
    pub original_importance: Score,
    /// Whether it was restored.
    pub restored: bool,
}

/// The result of undoing a synthesis.
#[derive(Clone, Debug, PartialEq, Eq)]
pub struct UndoSynthesis {
    /// The insight that was undone.
    pub insight_id: String,
    /// Its sources.
    pub restored_sources: Vec<RestoredSource>,
}

// ---------------------------------------------------------------------------
// Incremental runs
// ---------------------------------------------------------------------------

/// What is remembered of a cluster between runs.
#[derive(Clone, Debug, PartialEq, Eq)]
pub struct IncrementalState {
    /// The members at the last synthesis.
    pub last_member_snapshot: Vec<String>,
    /// The quality at the last synthesis.
    pub last_quality_score: Score,
    /// When the last synthesis was.
    pub last_run: Timestamp,
    /// How often it was synthesized.
    pub run_count: usize,
    /// When it was last looked at.
    pub last_attempt_timestamp: Timestamp,
    /// How often it was looked at.
    pub attempt_count: usize,
    /// The members when it was last looked at.
    pub last_attempt_members: Vec<String>,
}

/// How much a cluster has to change before it is synthesized again.
#[derive(Clone, Copy, Debug, PartialEq, Eq, Structural)]
pub struct IncrementalConfig {
    /// The share of its members.
    pub staleness_member_change_pct: Score,
    /// The difference in quality.
    pub staleness_quality_delta: Score,
}

impl IncrementalConfig {
    /// One half of the members, or 0.2 in quality.
    pub open spec fn standard() -> IncrementalConfig {
        IncrementalConfig {
            staleness_member_change_pct: Score { bits: 0x3fe0000000000000 },
            staleness_quality_delta: Score { bits: 0x3fc999999999999a },
        }
    }
}

impl Default for IncrementalConfig {
    fn default() -> (r: IncrementalConfig)
        ensures
            r == IncrementalConfig::standard(),
    {
        IncrementalConfig {
            staleness_member_change_pct: Score { bits: 0x3fe0000000000000 },
            staleness_quality_delta: Score { bits: 0x3fc999999999999a },
        }
    }
}

// ---------------------------------------------------------------------------
// Reports and errors
// ---------------------------------------------------------------------------

/// What can go wrong with a cluster.
#[derive(Clone, Debug, PartialEq, Eq)]
pub enum SynthesisError {
    /// The language model did not answer.
    LlmTimeout {
        /// The cluster.
        cluster_id: String,
    },
    /// The language model gave an answer that cannot be read.
    LlmInvalidResponse {
        /// The cluster.
        cluster_id: String,
        /// What was wrong with it.
        raw_response: String,
    },
    /// The language model referred to memories outside the cluster.
    HallucinatedReferences {
        /// The cluster.
        cluster_id: String,
        /// The memories.
        invalid_ids: Vec<String>,
    },
    /// The insight is not acceptable.
    ValidationFailed {
        /// The cluster.
        cluster_id: String,
        /// Why not.
        reason: String,
    },
    /// The database refused an operation.
    StorageError {
        /// The cluster.
        cluster_id: String,
        /// What it said.
        message: String,
    },
    /// An embedding could not be computed.
    EmbeddingError {
        /// The memory.
        memory_id: String,
        /// Why not.
        message: String,
    },
    /// No calls of the language model are left.
    BudgetExhausted {
        /// The clusters that had not been dealt with.
        remaining_clusters: usize,
    },
    /// The cluster changed in the meantime.
    ClusterStale {
        /// The cluster.
        cluster_id: String,
    },
}

/// The model of a [`SynthesisError`].
pub enum ErrorView {
    /// The language model did not answer.
    LlmTimeout(Seq<char>),
    /// The language model gave an answer that cannot be read.
    LlmInvalidResponse(Seq<char>, Seq<char>),
    /// The language model referred to memories outside the cluster.
    HallucinatedReferences(Seq<char>, Seq<Seq<char>>),
    /// The insight is not acceptable.
    ValidationFailed(Seq<char>, Seq<char>),
    /// The database refused an operation.
    StorageError(Seq<char>, Seq<char>),
    /// An embedding could not be computed.
    EmbeddingError(Seq<char>, Seq<char>),
    /// No calls of the language model are left.
    BudgetExhausted(int),
    /// The cluster changed in the meantime.
    ClusterStale(Seq<char>),
}

impl View for SynthesisError {
    type V = ErrorView;

    open spec fn view(&self) -> ErrorView {
        match self {
            SynthesisError::LlmTimeout { cluster_id } => ErrorView::LlmTimeout(cluster_id@),
            SynthesisError::LlmInvalidResponse { cluster_id, raw_response } => {
                ErrorView::LlmInvalidResponse(cluster_id@, raw_response@)
            },
            SynthesisError::HallucinatedReferences { cluster_id, invalid_ids } => {
                ErrorView::HallucinatedReferences(cluster_id@, text::views(invalid_ids@))
            },
            SynthesisError::ValidationFailed { cluster_id, reason } => {
                ErrorView::ValidationFailed(cluster_id@, reason@)
            },
            SynthesisError::StorageError { cluster_id, message } => {
                ErrorView::StorageError(cluster_id@, message@)
            },
            SynthesisError::EmbeddingError { memory_id, message } => {
                ErrorView::EmbeddingError(memory_id@, message@)
            },
            SynthesisError::BudgetExhausted { remaining_clusters } => {
                ErrorView::BudgetExhausted(*remaining_clusters as int)
            },
            SynthesisError::ClusterStale { cluster_id } => ErrorView::ClusterStale(cluster_id@),
        }
    }
}

/// The debug form of a list of texts: their debug forms between brackets.
pub open spec fn text_list(v: Seq<Seq<char>>) -> Seq<char> {
    seq!['['] + text::joined(v.map_values(|t: Seq<char>| text::debug_form(t)), ", "@) + seq![']']
}

fn text_list_of(v: &Vec<String>) -> (r: String)
    ensures
        r@ == text_list(text::views(v@)),
{
    let ghost all = text::views(v@).map_values(|t: Seq<char>| text::debug_form(t));
    let mut items: Vec<String> = Vec::new();
    let mut i: usize = 0;
    while i < v.len()
        invariant
            i <= v@.len(),
            all == text::views(v@).map_values(|t: Seq<char>| text::debug_form(t)),
            text::views(items@) == all.take(i as int),
        decreases v.len() - i,
    {
        let item: String = debug_text(v[i].as_str());
        let ghost before = text::views(items@);
        let ghost added = item@;
        items.push(item);
        proof {
            assert(text::views(items@) =~= before.push(added));
            assert(all.take(i + 1) =~= all.take(i as int).push(all[i as int]));
        }
        i += 1;
    }
    assert(all.take(i as int) =~= all);
    let mut out: String = String::new();
    out.push('[');
    out.append(join(&items, ", ").as_str());
    out.push(']');
    assert(out@ =~= text_list(text::views(v@)));
    out
}

impl ErrorView {
    /// What the error says.
    pub open spec fn message(self) -> Seq<char> {
        match self {
            ErrorView::LlmTimeout(c) => "LLM timeout for cluster "@ + c,
            ErrorView::LlmInvalidResponse(c, _) => "LLM invalid response for cluster "@ + c,
            ErrorView::HallucinatedReferences(c, ids) => "Hallucinated references in cluster "@ + c
                + ": "@ + text_list(ids),
            ErrorView::ValidationFailed(c, reason) => "Validation failed for cluster "@ + c + ": "@
                + reason,
            ErrorView::StorageError(c, m) => "Storage error for cluster "@ + c + ": "@ + m,
            ErrorView::EmbeddingError(c, m) => "Embedding error for memory "@ + c + ": "@ + m,
            ErrorView::BudgetExhausted(n) => "LLM budget exhausted with "@ + text::decimal(n as nat)
                + " clusters remaining"@,
            ErrorView::ClusterStale(c) => "Cluster "@ + c + " became stale"@,
        }
    }
}

/// Two texts with a colon between them, behind a heading.
fn told(heading: &str, subject: &str, message: &str) -> (r: String)
    ensures
        r@ == heading@ + subject@ + ": "@ + message@,
{
    let mut out: String = heading.to_owned();
    out.append(subject);
    out.append(": ");
    out.append(message);
    out
}

impl SynthesisError {
    /// What the error says.
    pub fn text(&self) -> (r: String)
        ensures
            r@ == self@.message(),
    {
        match self {
            SynthesisError::LlmTimeout { cluster_id } => {
                let mut out: String = "LLM timeout for cluster ".to_owned();
                out.append(cluster_id.as_str());
                out
            },
            SynthesisError::LlmInvalidResponse { cluster_id, .. } => {
                let mut out: String = "LLM invalid response for cluster ".to_owned();
                out.append(cluster_id.as_str());
                out
            },
            SynthesisError::HallucinatedReferences { cluster_id, invalid_ids } => {
                told(
                    "Hallucinated references in cluster ",
                    cluster_id.as_str(),
                    text_list_of(invalid_ids).as_str(),
                )
            },
            SynthesisError::ValidationFailed { cluster_id, reason } => {
                told("Validation failed for cluster ", cluster_id.as_str(), reason.as_str())
            },
            SynthesisError::StorageError { cluster_id, message } => {
                told("Storage error for cluster ", cluster_id.as_str(), message.as_str())
            },
            SynthesisError::EmbeddingError { memory_id, message } => {
                told("Embedding error for memory ", memory_id.as_str(), message.as_str())
            },
            SynthesisError::BudgetExhausted { remaining_clusters } => {
                let mut out: String = "LLM budget exhausted with ".to_owned();
                out.append(u64_text(*remaining_clusters as u64).as_str());
                out.append(" clusters remaining");
                out
            },
            SynthesisError::ClusterStale { cluster_id } => {
                let mut out: String = "Cluster ".to_owned();
                out.append(cluster_id.as_str());
                out.append(" became stale");
                out
            },
        }
    }
}

/// What a run did.
#[derive(Clone, Debug, PartialEq, Eq)]
pub struct SynthesisReport {
    /// Clusters found.
    pub clusters_found: usize,
    /// Clusters synthesized.
    pub clusters_synthesized: usize,
    /// Clusters dealt with without a language model.
    pub clusters_auto_updated: usize,
    /// Clusters left for later.
    pub clusters_deferred: usize,
    /// Clusters left alone.
    pub clusters_skipped: usize,
    /// Syntheses of clusters seen for the first time.
    pub synthesis_runs_full: usize,
    /// Syntheses of clusters seen before.
    pub synthesis_runs_incremental: usize,
    /// The insights created.
    pub insights_created: Vec<String>,
    /// The sources demoted.
    pub sources_demoted: Vec<String>,
    /// What went wrong.
    pub errors: Vec<SynthesisError>,
    /// How long the run took.
    pub duration: Period,
    /// The synthesis gate result of each cluster that was looked at.
    pub gate_results: Vec<GateResult>,
}

/// The settings of the whole pipeline.
#[derive(Clone, Debug, PartialEq, Eq)]
pub struct SynthesisSettings {
    /// Whether it runs.
    pub enabled: bool,
    /// Cluster discovery.
    pub cluster_discovery: ClusterDiscoveryConfig,
    /// The synthesis gate.
    pub gate: GateConfig,
    /// Insight generation.
    pub synthesis: SynthesisConfig,
    /// Emotion.
    pub emotional: EmotionalModulationConfig,
    /// Incremental runs.
    pub incremental: IncrementalConfig,
    /// The factor by which a source loses importance.
    pub demotion_factor: Score,
    /// The most insights of one run.
    pub max_insights_per_consolidation: usize,
    /// The most calls of the language model in one run.
    pub max_llm_calls_per_run: u32,
}

impl Default for SynthesisSettings {
    fn default() -> (r: SynthesisSettings)
        ensures
            !r.enabled,
            r.cluster_discovery == ClusterDiscoveryConfig::standard(),
            r.gate == GateConfig::standard(),
            r.synthesis.model@.len() == 0,
            r.synthesis.max_tokens == 512,
            r.synthesis.temperature == (Score { bits: 0x3fd3333333333333 }),
            r.synthesis.prompt_template is General,
            r.synthesis.max_memories_per_llm_call == 10,
            r.synthesis.resynthesis_age_threshold == (Period { secs: 2592000, nanos: 0 }),
            r.emotional == EmotionalModulationConfig::standard(),
            r.incremental == IncrementalConfig::standard(),
            r.demotion_factor == (Score { bits: 0x3fe0000000000000 }),
            r.max_insights_per_consolidation == 5,
            r.max_llm_calls_per_run == 5,
    {
        SynthesisSettings {
            enabled: false,
            cluster_discovery: ClusterDiscoveryConfig::default(),
            gate: GateConfig::default(),
            synthesis: SynthesisConfig::default(),
            emotional: EmotionalModulationConfig::default(),
            incremental: IncrementalConfig::default(),
            demotion_factor: Score { bits: 0x3fe0000000000000 },
            max_insights_per_consolidation: 5,
            max_llm_calls_per_run: 5,
        }
    }
}

/// What is told of an error names the cluster or memory that it concerns, and
/// says why.
pub proof fn law_errors_name_their_subject(
    c: Seq<char>,
    why: Seq<char>,
    ids: Seq<Seq<char>>,
    i: int,
)
    ensures
        text::occurs(ErrorView::LlmTimeout(c).message(), c),
        text::occurs(ErrorView::LlmInvalidResponse(c, why).message(), c),
        text::occurs(ErrorView::HallucinatedReferences(c, ids).message(), c),
        0 <= i < ids.len() ==> text::occurs(
            ErrorView::HallucinatedReferences(c, ids).message(),
            text::debug_form(ids[i]),
        ),
        text::occurs(ErrorView::ValidationFailed(c, why).message(), c + ": "@ + why),
        text::occurs(ErrorView::StorageError(c, why).message(), c + ": "@ + why),
        text::occurs(ErrorView::EmbeddingError(c, why).message(), c + ": "@ + why),
        text::occurs(ErrorView::ClusterStale(c).message(), c),
{
    let e = Seq::<char>::empty();
    let p = c + ": "@ + why;
    lemma_told("LLM timeout for cluster "@, c, e, ErrorView::LlmTimeout(c).message());
    lemma_told(
        "LLM invalid response for cluster "@,
        c,
        e,
        ErrorView::LlmInvalidResponse(c, why).message(),
    );
    lemma_told(
        "Validation failed for cluster "@,
        p,
        e,
        ErrorView::ValidationFailed(c, why).message(),
    );
    lemma_told("Storage error for cluster "@, p, e, ErrorView::StorageError(c, why).message());
    lemma_told("Embedding error for memory "@, p, e, ErrorView::EmbeddingError(c, why).message());
    lemma_told("Cluster "@, c, " became stale"@, ErrorView::ClusterStale(c).message());
    let h = "Hallucinated references in cluster "@;
    let told = ErrorView::HallucinatedReferences(c, ids).message();
    lemma_told(h, c, ": "@ + text_list(ids), told);
    if 0 <= i < ids.len() {
        let forms = ids.map_values(|t: Seq<char>| text::debug_form(t));
        let line = text::joined(forms, ", "@);
        text::law_joined_holds(forms, ", "@, i);
        lemma_told(h + c + ": "@ + seq!['['], line, seq![']'], told);
        text::lemma_occurs_inside(told, line, forms[i]);
    }
}

proof fn lemma_told(front: Seq<char>, p: Seq<char>, end: Seq<char>, told: Seq<char>)
    requires
        told =~= front + p + end,
    ensures
        text::occurs(told, p),
{
    text::lemma_occurs_between(front, p, end);
}

/// An exhausted budget tells how many clusters were left.
pub proof fn law_budget_tells_what_is_left(n: nat)
    ensures
        text::occurs(
            ErrorView::BudgetExhausted(n as int).message(),
            " with "@ + text::decimal(n) + " clusters remaining"@,
        ),
{
    reveal_strlit("LLM budget exhausted with ");
    reveal_strlit("LLM budget exhausted");
    reveal_strlit(" with ");
    assert("LLM budget exhausted with "@ =~= "LLM budget exhausted"@ + " with "@);
    let told = ErrorView::BudgetExhausted(n as int).message();
    let p = " with "@ + text::decimal(n) + " clusters remaining"@;
    assert(told =~= "LLM budget exhausted"@ + p + Seq::<char>::empty());
    text::lemma_occurs_between("LLM budget exhausted"@, p, Seq::empty());
}

/// The standard weights, greatest first: links, entities, embeddings, time.
pub proof fn law_standard_weights_descend()
    ensures
        ({
            let w = ClusterWeights::standard();
            &&& w.hebbian.rank() > w.entity.rank()
            &&& w.entity.rank() > w.embedding.rank()
            &&& w.embedding.rank() > w.temporal.rank()
            &&& w.temporal.rank() > 0
        }),
{
}

/// The standard settings: clusters of three to fifteen memories, above an
/// importance and a relatedness of 0.3; a quality of 0.4 to pass and of 0.6 not to
/// be deferred, two types, and 0.95 for duplicates; a boost of 0.2; and a new
/// synthesis where half of the members or 0.2 of the quality changed.
pub proof fn law_standard_settings()
    ensures
        ({
            let d = ClusterDiscoveryConfig::standard();
            &&& d.weights == ClusterWeights::standard()
            &&& d.min_cluster_size == 3 && d.max_cluster_size == 15
            &&& d.cluster_threshold == (Score { bits: 0x3fd3333333333333 })
            &&& d.min_importance == d.cluster_threshold
            &&& d.cooldown_cycles == 3
            &&& d.temporal_spread_minimum == (Period { secs: 3600, nanos: 0 })
            &&& d.max_neighbors_per_node is None && d.infomap_trials is None
            &&& d.infomap_hierarchical is None && d.hot_assign_threshold is None
            &&& d.cold_recluster_ratio is None && d.warm_recluster_interval is None
        }),
        ({
            let g = GateConfig::standard();
            &&& g.min_cluster_size == ClusterDiscoveryConfig::standard().min_cluster_size
            &&& g.min_type_diversity == 2
            &&& g.gate_quality_threshold == (Score { bits: 0x3fd999999999999a })
            &&& g.defer_quality_threshold == (Score { bits: 0x3fe3333333333333 })
            &&& g.duplicate_similarity == (Score { bits: 0x3fee666666666666 })
            &&& g.cost_threshold == (Score { bits: 0x3fa999999999999a })
            &&& g.premium_threshold == (Score { bits: 0x3fe999999999999a })
        }),
        ({
            let e = EmotionalModulationConfig::standard();
            &&& e.emotional_boost_weight == (Score { bits: 0x3fc999999999999a })
            &&& e.prioritize_emotional && e.include_emotion_in_prompt
        }),
        ({
            let i = IncrementalConfig::standard();
            &&& i.staleness_member_change_pct == (Score { bits: 0x3fe0000000000000 })
            &&& i.staleness_quality_delta == (Score { bits: 0x3fc999999999999a })
        }),
        ({
            let w = ClusterWeights::standard();
            &&& w.hebbian == (Score { bits: 0x3fd999999999999a })
            &&& w.entity == (Score { bits: 0x3fd3333333333333 })
            &&& w.embedding == (Score { bits: 0x3fc999999999999a })
            &&& w.temporal == (Score { bits: 0x3fb999999999999a })
        }),
{
}

} // verus!
