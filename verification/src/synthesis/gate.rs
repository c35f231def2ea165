//! The synthesis gate in front of the language model: nine rules that decide whether a
//! cluster is synthesized, merged, deferred or left alone.
//!
//! Costs and percentages are doubles, and so is the quality of a cluster; they
//! come as [`Score`]s, together with the form in which a reason prints them.

use crate::score::Score;
use crate::substrate::types::MemoryType;
use crate::synthesis::types::{
    AutoUpdateAction, GateConfig, GateDecision, GateResult, GateScores, MemoryCluster,
    MemoryRecord, Timestamp,
};
use crate::text;
use crate::text::{all_but, byte_count, u64_text};
use vstd::prelude::*;
use vstd::string::*;

verus! {

/// The bytes of the contents of memories: four of them make a token.
pub open spec fn content_size(members: Seq<MemoryRecord>) -> nat
    decreases members.len(),
{
    if members.len() == 0 {
        0
    } else {
        content_size(members.drop_last()) + text::byte_len(members.last().content@)
    }
}

/// The bytes of the contents of memories, from which the cost of a synthesis is
/// estimated.
pub fn content_bytes(members: &Vec<MemoryRecord>) -> (r: u128)
    ensures
        r == content_size(members@),
{
    let mut total: u128 = 0;
    let mut i: usize = 0;
    while i < members.len()
        invariant
            i <= members@.len(),
            total == content_size(members@.take(i as int)),
            total <= i * usize::MAX,
        decreases members.len() - i,
    {
        assert(members@.take(i + 1).drop_last() =~= members@.take(i as int));
        let n: usize = byte_count(members[i].content.as_str());
        assert(i * usize::MAX + n <= (i + 1) * usize::MAX) by (nonlinear_arith)
            requires
                n <= usize::MAX,
        ;
        assert((i + 1) * usize::MAX <= usize::MAX * usize::MAX) by (nonlinear_arith)
            requires
                i + 1 <= usize::MAX,
        ;
        assert(usize::MAX * usize::MAX <= u128::MAX) by (nonlinear_arith)
            requires
                usize::MAX <= 0xffff_ffff_ffff_ffff,
        ;
        total = total + n as u128;
        i += 1;
    }
    assert(members@.take(i as int) =~= members@);
    total
}

/// The types of memories.
pub open spec fn types_of(members: Seq<MemoryRecord>) -> Seq<MemoryType> {
    members.map_values(|m: MemoryRecord| m.memory_type)
}

/// The number of types among memories.
pub open spec fn type_diversity(members: Seq<MemoryRecord>) -> nat {
    types_of(members).to_set().len()
}

/// The number of types among memories.
pub fn count_types(members: &Vec<MemoryRecord>) -> (r: usize)
    ensures
        r == type_diversity(members@),
{
    let mut seen: Vec<MemoryType> = Vec::new();
    let ghost all = types_of(members@);
    assert(seen@.to_set() =~= all.take(0).to_set());
    let mut i: usize = 0;
    while i < members.len()
        invariant
            i <= members@.len(),
            all == types_of(members@),
            seen@.no_duplicates(),
            seen@.to_set() == all.take(i as int).to_set(),
        decreases members.len() - i,
    {
        let t: MemoryType = members[i].memory_type;
        let mut known: bool = false;
        let mut k: usize = 0;
        while k < seen.len()
            invariant
                k <= seen@.len(),
                known <==> exists|j: int| 0 <= j < k && seen@[j] == t,
            decreases seen.len() - k,
        {
            if seen[k] == t {
                known = true;
            }
            k += 1;
        }
        let ghost before = seen@;
        assert(known <==> before.contains(t));
        if !known {
            seen.push(t);
        }
        proof {
            assert(all.take(i + 1) =~= all.take(i as int).push(t));
            assert forall|x: MemoryType|
                seen@.to_set().contains(x) <==> all.take(i + 1).to_set().contains(x) by {
                lemma_push_contains(all.take(i as int), t, x);
                lemma_push_contains(before, t, x);
                assert(before.to_set().contains(x) <==> all.take(i as int).to_set().contains(x));
            }
            assert(seen@.to_set() =~= all.take(i + 1).to_set());
        }
        i += 1;
    }
    proof {
        assert(all.take(i as int) =~= all);
        seen@.unique_seq_to_set();
    }
    seen.len()
}

proof fn lemma_push_contains(s: Seq<MemoryType>, t: MemoryType, x: MemoryType)
    ensures
        s.push(t).contains(x) <==> s.contains(x) || x == t,
{
    if s.contains(x) {
        let i = choose|i: int| 0 <= i < s.len() && s[i] == x;
        assert(s.push(t)[i] == x);
    }
    if x == t {
        assert(s.push(t)[s.len() as int] == x);
    }
    if s.push(t).contains(x) {
        let i = choose|i: int| 0 <= i < s.push(t).len() && s.push(t)[i] == x;
        if i < s.len() {
            assert(s[i] == x);
        }
    }
}

/// The figures behind a decision.
pub open spec fn gate_scores(
    cluster: MemoryCluster,
    members: Seq<MemoryRecord>,
    cost: Score,
) -> GateScores {
    GateScores {
        quality: cluster.quality_score,
        type_diversity: type_diversity(members) as usize,
        estimated_cost: cost,
        member_count: cluster.members@.len() as usize,
    }
}

/// Collects the figures behind a decision.
pub fn compute_gate_scores(
    cluster: &MemoryCluster,
    members: &Vec<MemoryRecord>,
    cost: Score,
) -> (r: GateScores)
    ensures
        r == gate_scores(*cluster, members@, cost),
{
    GateScores {
        quality: cluster.quality_score,
        type_diversity: count_types(members),
        estimated_cost: cost,
        member_count: cluster.members.len(),
    }
}

/// What is known of a cluster besides its members: how much of it existing
/// insights cover, whether it changed since it was last looked at, whether its
/// members are near-duplicates of one another, and what its synthesis costs.
#[derive(Clone, Copy, Debug, PartialEq, Eq)]
pub struct GateContext {
    /// The share of the members that have existing insights.
    pub covered_pct: Score,
    /// Whether the cluster changed since it was last looked at.
    pub cluster_changed: bool,
    /// Whether all pairs of members are near-duplicates.
    pub all_pairs_similar: bool,
    /// The estimated cost.
    pub cost: Score,
}

/// How the doubles of a decision are printed.
#[derive(Clone, Debug, PartialEq, Eq)]
pub struct GateFigures {
    /// The quality, to three places.
    pub quality: String,
    /// The least quality.
    pub quality_threshold: String,
    /// The least quality at the least size.
    pub defer_threshold: String,
    /// The covered share in percent, to no place.
    pub covered: String,
    /// The cost, to four places.
    pub cost: String,
    /// The greatest cost.
    pub cost_threshold: String,
}

/// The model of a [`GateDecision`].
pub enum DecisionView {
    /// It is synthesized.
    Synthesize(Seq<char>),
    /// Near-duplicates are merged: the memory kept, and those it replaces.
    Merge(Seq<char>, Seq<Seq<char>>),
    /// Links are strengthened.
    Strengthen(Seq<(Seq<char>, Seq<char>)>),
    /// It is looked at again later.
    Defer(Seq<char>),
    /// It is left alone.
    Skip(Seq<char>),
}

impl View for GateDecision {
    type V = DecisionView;

    open spec fn view(&self) -> DecisionView {
        match self {
            GateDecision::Synthesize { reason } => DecisionView::Synthesize(reason@),
            GateDecision::AutoUpdate { action } => match action {
                AutoUpdateAction::MergeDuplicates { keep, demote } => {
                    DecisionView::Merge(keep@, text::views(demote@))
                },
                AutoUpdateAction::StrengthenLinks { pairs } => {
                    DecisionView::Strengthen(crate::json::entries_view(pairs@))
                },
            },
            GateDecision::Defer { reason } => DecisionView::Defer(reason@),
            GateDecision::Skip { reason } => DecisionView::Skip(reason@),
        }
    }
}

/// 0.8: the share of covered members from which a cluster counts as covered.
pub const COVERED: u64 = 0x3fe999999999999a;

/// 0.5: the share of shared entities that excuses a single type.
pub const HALF: u64 = 0x3fe0000000000000;

/// What the first six rules decide, where one of them applies.
pub open spec fn early_decision(
    cluster: MemoryCluster,
    config: GateConfig,
    context: GateContext,
    figures: GateFigures,
) -> Option<DecisionView> {
    let n = cluster.members@.len();
    let q = cluster.quality_score;
    if n < config.min_cluster_size {
        Some(
            DecisionView::Skip(
                "too small: "@ + text::decimal(n) + " members, min "@ + text::decimal(
                    config.min_cluster_size as nat,
                ),
            ),
        )
    } else if context.all_pairs_similar {
        Some(
            DecisionView::Merge(
                cluster.centroid_id@,
                text::without(text::views(cluster.members@), cluster.centroid_id@),
            ),
        )
    } else if q.below(config.gate_quality_threshold) {
        Some(
            DecisionView::Skip(
                "low quality: "@ + figures.quality@ + " < "@ + figures.quality_threshold@,
            ),
        )
    } else if n == config.min_cluster_size && q.below(config.defer_quality_threshold) {
        Some(
            DecisionView::Defer(
                "minimum size with low quality: "@ + figures.quality@ + " < "@
                    + figures.defer_threshold@ + ", needs more memories"@,
            ),
        )
    } else if context.covered_pct.reaches(Score { bits: COVERED }) {
        Some(
            DecisionView::Skip(
                "already covered: "@ + figures.covered@ + "% of members have existing insights"@,
            ),
        )
    } else if !context.cluster_changed {
        Some(DecisionView::Skip("no growth since last attempt"@))
    } else {
        None
    }
}

/// Whether all memories are of one type.
pub open spec fn all_of_type(members: Seq<MemoryRecord>, t: MemoryType) -> bool {
    forall|i: int| 0 <= i < members.len() ==> (#[trigger] members[i]).memory_type == t
}

/// Whether a cluster of few types is excused: all of it are facts, or all of it
/// are episodes, and they share most of their entities.
pub open spec fn type_excused(cluster: MemoryCluster, members: Seq<MemoryRecord>) -> bool {
    (all_of_type(members, MemoryType::Factual) || all_of_type(members, MemoryType::Episodic)) && (
    Score { bits: HALF }).below(cluster.signals_summary.entity_contribution)
}

/// What the last three rules decide.
pub open spec fn late_decision(
    cluster: MemoryCluster,
    members: Seq<MemoryRecord>,
    config: GateConfig,
    context: GateContext,
    figures: GateFigures,
) -> DecisionView {
    let q = cluster.quality_score;
    if type_diversity(members) < config.min_type_diversity && !type_excused(cluster, members) {
        DecisionView::Skip("homogeneous: only "@ + members[0].memory_type.name())
    } else if config.cost_threshold.below(context.cost) && q.below(config.premium_threshold) {
        DecisionView::Skip(
            "cost "@ + figures.cost@ + " exceeds threshold "@ + figures.cost_threshold@
                + " for non-premium quality "@ + figures.quality@,
        )
    } else {
        DecisionView::Synthesize(
            "passed all gates: quality="@ + figures.quality@ + ", diversity="@ + text::decimal(
                type_diversity(members),
            ) + ", cost="@ + figures.cost@,
        )
    }
}

/// What becomes of a cluster.
pub open spec fn gate_decision(
    cluster: MemoryCluster,
    members: Seq<MemoryRecord>,
    config: GateConfig,
    context: GateContext,
    figures: GateFigures,
) -> DecisionView {
    match early_decision(cluster, config, context, figures) {
        Some(d) => d,
        None => late_decision(cluster, members, config, context, figures),
    }
}

/// Pieces of text, one behind the other.
fn phrase(a: &str, b: &str, c: &str, d: &str) -> (r: String)
    ensures
        r@ == a@ + b@ + c@ + d@,
{
    let mut out: String = a.to_owned();
    out.append(b);
    out.append(c);
    out.append(d);
    out
}

/// Applies the first six rules.
pub fn check_early_rules(
    cluster: &MemoryCluster,
    config: &GateConfig,
    context: &GateContext,
    figures: &GateFigures,
) -> (r: Option<GateDecision>)
    ensures
        early_decision(*cluster, *config, *context, *figures) == (match r {
            Some(d) => Some(d@),
            None => None,
        }),
{
    let n: usize = cluster.members.len();
    let q: Score = cluster.quality_score;
    if n < config.min_cluster_size {
        let size: String = u64_text(n as u64);
        let least: String = u64_text(config.min_cluster_size as u64);
        Some(
            GateDecision::Skip {
                reason: phrase("too small: ", size.as_str(), " members, min ", least.as_str()),
            },
        )
    } else if context.all_pairs_similar {
        let keep: String = cluster.centroid_id.clone();
        let demote: Vec<String> = all_but(&cluster.members, keep.as_str());
        Some(
            GateDecision::AutoUpdate { action: AutoUpdateAction::MergeDuplicates { keep, demote } },
        )
    } else if q.lt(&config.gate_quality_threshold) {
        Some(
            GateDecision::Skip {
                reason: phrase(
                    "low quality: ",
                    figures.quality.as_str(),
                    " < ",
                    figures.quality_threshold.as_str(),
                ),
            },
        )
    } else if n == config.min_cluster_size && q.lt(&config.defer_quality_threshold) {
        let mut reason: String = phrase(
            "minimum size with low quality: ",
            figures.quality.as_str(),
            " < ",
            figures.defer_threshold.as_str(),
        );
        reason.append(", needs more memories");
        Some(GateDecision::Defer { reason })
    } else if context.covered_pct.ge(&Score { bits: COVERED }) {
        let mut reason: String = "already covered: ".to_owned();
        reason.append(figures.covered.as_str());
        reason.append("% of members have existing insights");
        Some(GateDecision::Skip { reason })
    } else if !context.cluster_changed {
        Some(GateDecision::Skip { reason: "no growth since last attempt".to_owned() })
    } else {
        None
    }
}

fn are_all(members: &Vec<MemoryRecord>, t: MemoryType) -> (r: bool)
    ensures
        r == all_of_type(members@, t),
{
    let mut i: usize = 0;
    while i < members.len()
        invariant
            i <= members@.len(),
            forall|k: int| 0 <= k < i ==> (#[trigger] members@[k]).memory_type == t,
        decreases members.len() - i,
    {
        if members[i].memory_type != t {
            return false;
        }
        i += 1;
    }
    true
}

fn late(
    cluster: &MemoryCluster,
    members: &Vec<MemoryRecord>,
    config: &GateConfig,
    context: &GateContext,
    figures: &GateFigures,
    diversity: usize,
) -> (r: GateDecision)
    requires
        diversity == type_diversity(members@),
        members@.len() > 0 || config.min_type_diversity == 0,
    ensures
        r@ == late_decision(*cluster, members@, *config, *context, *figures),
{
    let q: Score = cluster.quality_score;
    if diversity < config.min_type_diversity {
        let first: MemoryType = members[0].memory_type;
        let half: Score = Score { bits: HALF };
        let excused: bool = (are_all(members, MemoryType::Factual) || are_all(
            members,
            MemoryType::Episodic,
        )) && half.lt(&cluster.signals_summary.entity_contribution);
        if !excused {
            let mut reason: String = "homogeneous: only ".to_owned();
            reason.append(first.as_str());
            return GateDecision::Skip { reason };
        }
    }
    if config.cost_threshold.lt(&context.cost) && q.lt(&config.premium_threshold) {
        let mut reason: String = phrase(
            "cost ",
            figures.cost.as_str(),
            " exceeds threshold ",
            figures.cost_threshold.as_str(),
        );
        reason.append(" for non-premium quality ");
        reason.append(figures.quality.as_str());
        return GateDecision::Skip { reason };
    }
    let count: String = u64_text(diversity as u64);
    let mut reason: String = phrase(
        "passed all gates: quality=",
        figures.quality.as_str(),
        ", diversity=",
        count.as_str(),
    );
    reason.append(", cost=");
    reason.append(figures.cost.as_str());
    GateDecision::Synthesize { reason }
}

/// Decides what becomes of a cluster. Where the rules come to the types of the
/// members there has to be a member, unless no type is asked for.
pub fn check_gate(
    cluster: &MemoryCluster,
    members: &Vec<MemoryRecord>,
    config: &GateConfig,
    context: &GateContext,
    figures: &GateFigures,
    now: Timestamp,
) -> (r: GateResult)
    requires
        early_decision(*cluster, *config, *context, *figures) is None ==> members@.len() > 0
            || config.min_type_diversity == 0,
    ensures
        r.cluster_id@ == cluster.id@,
        r.decision@ == gate_decision(*cluster, members@, *config, *context, *figures),
        r.scores == gate_scores(*cluster, members@, context.cost),
        r.timestamp == now,
{
    let scores: GateScores = compute_gate_scores(cluster, members, context.cost);
    let decision: GateDecision = match check_early_rules(cluster, config, context, figures) {
        Some(d) => d,
        None => {
            let diversity: usize = count_types(members);
            late(cluster, members, config, context, figures, diversity)
        },
    };
    GateResult { cluster_id: cluster.id.clone(), decision, scores, timestamp: now }
}

/// A cluster that passes the synthesis gate is large enough, good enough, has changed, is
/// not made of near-duplicates and is not covered already.
pub proof fn law_synthesized_clusters_qualify(
    cluster: MemoryCluster,
    members: Seq<MemoryRecord>,
    config: GateConfig,
    context: GateContext,
    figures: GateFigures,
)
    requires
        gate_decision(cluster, members, config, context, figures) is Synthesize,
    ensures
        cluster.members@.len() >= config.min_cluster_size,
        !cluster.quality_score.below(config.gate_quality_threshold),
        context.cluster_changed,
        !context.all_pairs_similar,
        !context.covered_pct.reaches(Score { bits: COVERED }),
        config.cost_threshold.below(context.cost) ==> !cluster.quality_score.below(
            config.premium_threshold,
        ),
{
}

/// A merge keeps the centroid and names it among none of the memories that it
/// replaces, and every other member is replaced.
pub proof fn law_merge_keeps_centroid(
    cluster: MemoryCluster,
    members: Seq<MemoryRecord>,
    config: GateConfig,
    context: GateContext,
    figures: GateFigures,
    id: Seq<char>,
)
    requires
        gate_decision(cluster, members, config, context, figures) is Merge,
    ensures
        gate_decision(cluster, members, config, context, figures) matches DecisionView::Merge(
            keep,
            demote,
        ) && keep == cluster.centroid_id@ && (text::holds(demote, id) <==> text::holds(
            text::views(cluster.members@),
            id,
        ) && id != keep),
{
    lemma_without_holds(text::views(cluster.members@), cluster.centroid_id@, id);
}

proof fn lemma_without_holds(v: Seq<Seq<char>>, t: Seq<char>, id: Seq<char>)
    ensures
        text::holds(text::without(v, t), id) <==> text::holds(v, id) && id != t,
    decreases v.len(),
{
    if v.len() > 0 {
        let d = v.drop_last();
        lemma_without_holds(d, t, id);
        let w = text::without(d, t);
        if text::holds(d, id) {
            let i = choose|i: int| 0 <= i < d.len() && d[i] == id;
            assert(v[i] == id);
        }
        if text::holds(v, id) {
            let i = choose|i: int| 0 <= i < v.len() && v[i] == id;
            if i < d.len() {
                assert(d[i] == id);
            } else {
                assert(v.last() == id);
            }
        }
        if v.last() == id {
            assert(v[v.len() - 1] == id);
        }
        if v.last() != t {
            let p = w.push(v.last());
            if text::holds(w, id) {
                let i = choose|i: int| 0 <= i < w.len() && w[i] == id;
                assert(p[i] == id);
            }
            if v.last() == id {
                assert(p[w.len() as int] == id);
            }
            if text::holds(p, id) {
                let i = choose|i: int| 0 <= i < p.len() && p[i] == id;
                if i < w.len() {
                    assert(w[i] == id);
                } else {
                    assert(v.last() == id);
                }
            }
        }
    }
}

/// A cluster whose members have fewer types than are asked for is synthesized
/// only where all of them are facts, or all of them are episodes, and more than
/// half of their entities are shared.
pub proof fn law_few_types_need_shared_entities(
    cluster: MemoryCluster,
    members: Seq<MemoryRecord>,
    config: GateConfig,
    context: GateContext,
    figures: GateFigures,
)
    requires
        gate_decision(cluster, members, config, context, figures) is Synthesize,
        members.map_values(|m: MemoryRecord| m.memory_type).to_set().len()
            < config.min_type_diversity,
    ensures
        (forall|i: int|
            0 <= i < members.len() ==> (#[trigger] members[i]).memory_type is Factual) || (forall|
            i: int,
        |
            0 <= i < members.len() ==> (#[trigger] members[i]).memory_type is Episodic),
        (Score { bits: 0x3fe0000000000000 }).below(cluster.signals_summary.entity_contribution),
{
    assert(types_of(members) =~= members.map_values(|m: MemoryRecord| m.memory_type));
}

/// A cluster is synthesized where nothing speaks against it: it is large enough,
/// no heap of near-duplicates, good enough, better still at the least size, less
/// than four fifths covered, changed, of enough types or excused from that, and
/// within its cost or of premium quality.
pub proof fn law_qualified_clusters_are_synthesized(
    cluster: MemoryCluster,
    members: Seq<MemoryRecord>,
    config: GateConfig,
    context: GateContext,
    figures: GateFigures,
)
    requires
        cluster.members@.len() >= config.min_cluster_size,
        !context.all_pairs_similar,
        !cluster.quality_score.below(config.gate_quality_threshold),
        cluster.members@.len() == config.min_cluster_size ==> !cluster.quality_score.below(
            config.defer_quality_threshold,
        ),
        !context.covered_pct.reaches(Score { bits: 0x3fe999999999999a }),
        context.cluster_changed,
        members.map_values(|m: MemoryRecord| m.memory_type).to_set().len()
            >= config.min_type_diversity || (((forall|i: int|
            0 <= i < members.len() ==> (#[trigger] members[i]).memory_type is Factual) || (forall|
            i: int,
        |
            0 <= i < members.len() ==> (#[trigger] members[i]).memory_type is Episodic)) && (Score {
            bits: 0x3fe0000000000000,
        }).below(cluster.signals_summary.entity_contribution)),
        !config.cost_threshold.below(context.cost) || !cluster.quality_score.below(
            config.premium_threshold,
        ),
    ensures
        gate_decision(cluster, members, config, context, figures) is Synthesize,
{
    assert(types_of(members) =~= members.map_values(|m: MemoryRecord| m.memory_type));
}

/// What is synthesized is less than four fifths covered, and at the least size
/// it reaches the quality that is asked for there.
pub proof fn law_synthesized_clusters_are_fresh(
    cluster: MemoryCluster,
    members: Seq<MemoryRecord>,
    config: GateConfig,
    context: GateContext,
    figures: GateFigures,
)
    requires
        gate_decision(cluster, members, config, context, figures) is Synthesize,
    ensures
        !context.covered_pct.reaches(Score { bits: 0x3fe999999999999a }),
        cluster.members@.len() == config.min_cluster_size ==> !cluster.quality_score.below(
            config.defer_quality_threshold,
        ),
{
}

/// A cluster of near-duplicates is merged, whatever else holds of it, unless it
/// is too small; and nothing else is merged.
pub proof fn law_near_duplicates_are_merged(
    cluster: MemoryCluster,
    members: Seq<MemoryRecord>,
    config: GateConfig,
    context: GateContext,
    figures: GateFigures,
)
    ensures
        gate_decision(cluster, members, config, context, figures) is Merge
            <==> cluster.members@.len() >= config.min_cluster_size && context.all_pairs_similar,
        !(gate_decision(cluster, members, config, context, figures) is Strengthen),
{
}

/// A cluster is deferred where it has the least size, is good enough to be kept
/// and not good enough for that size, and for no other reason.
pub proof fn law_deferred_clusters_have_the_least_size(
    cluster: MemoryCluster,
    members: Seq<MemoryRecord>,
    config: GateConfig,
    context: GateContext,
    figures: GateFigures,
)
    ensures
        gate_decision(cluster, members, config, context, figures) is Defer
            <==> cluster.members@.len() == config.min_cluster_size && !context.all_pairs_similar
            && !cluster.quality_score.below(config.gate_quality_threshold)
            && cluster.quality_score.below(config.defer_quality_threshold),
{
}

/// Why a cluster is left alone: the reason names the first rule that speaks
/// against it, with the figures that it compared.
pub proof fn law_skipped_for_the_first_reason(
    cluster: MemoryCluster,
    members: Seq<MemoryRecord>,
    config: GateConfig,
    context: GateContext,
    figures: GateFigures,
)
    requires
        gate_decision(cluster, members, config, context, figures) is Skip,
    ensures
        ({
            let reason = gate_decision(cluster, members, config, context, figures)->Skip_0;
            if cluster.members@.len() < config.min_cluster_size {
                text::starts(reason, "too small: "@) && text::ends(
                    reason,
                    text::decimal(config.min_cluster_size as nat),
                )
            } else if cluster.quality_score.below(config.gate_quality_threshold) {
                text::starts(reason, "low quality: "@) && text::ends(
                    reason,
                    figures.quality_threshold@,
                )
            } else if context.covered_pct.reaches(Score { bits: 0x3fe999999999999a }) {
                text::starts(reason, "already covered: "@ + figures.covered@)
            } else if !context.cluster_changed {
                reason == "no growth since last attempt"@
            } else {
                text::starts(reason, "homogeneous: only "@) || (text::starts(
                    reason,
                    "cost "@ + figures.cost@,
                ) && config.cost_threshold.below(context.cost) && cluster.quality_score.below(
                    config.premium_threshold,
                ))
            }
        }),
{
    let reason = gate_decision(cluster, members, config, context, figures)->Skip_0;
    let small = "too small: "@;
    let least = text::decimal(config.min_cluster_size as nat);
    let low = "low quality: "@;
    let covered = "already covered: "@ + figures.covered@;
    let single = "homogeneous: only "@;
    let cost = "cost "@ + figures.cost@;
    if cluster.members@.len() < config.min_cluster_size {
        assert(reason.take(small.len() as int) =~= small);
        assert(reason.skip(reason.len() - least.len()) =~= least);
    } else if cluster.quality_score.below(config.gate_quality_threshold) {
        let t = figures.quality_threshold@;
        assert(reason.take(low.len() as int) =~= low);
        assert(reason.skip(reason.len() - t.len()) =~= t);
    } else if context.covered_pct.reaches(Score { bits: 0x3fe999999999999a }) {
        assert(reason.take(covered.len() as int) =~= covered);
    } else if context.cluster_changed {
        if type_diversity(members) < config.min_type_diversity && !type_excused(cluster, members) {
            assert(reason.take(single.len() as int) =~= single);
        } else {
            assert(reason.take(cost.len() as int) =~= cost);
        }
    }
}

/// The figures behind a decision are those of the cluster and its members.
pub proof fn law_scores_are_the_clusters(
    cluster: MemoryCluster,
    members: Seq<MemoryRecord>,
    cost: Score,
)
    requires
        members.len() <= usize::MAX,
        cluster.members@.len() <= usize::MAX,
    ensures
        gate_scores(cluster, members, cost).quality == cluster.quality_score,
        gate_scores(cluster, members, cost).estimated_cost == cost,
        gate_scores(cluster, members, cost).member_count == cluster.members@.len(),
        gate_scores(cluster, members, cost).type_diversity == members.map_values(
            |m: MemoryRecord| m.memory_type,
        ).to_set().len(),
{
    let types = members.map_values(|m: MemoryRecord| m.memory_type);
    assert(types_of(members) =~= types);
    types.lemma_cardinality_of_set();
}

/// The sizes of two groups of memories add up, and that of one memory is the
/// number of bytes of its content.
pub proof fn law_content_sizes_add_up(a: Seq<MemoryRecord>, b: Seq<MemoryRecord>, m: MemoryRecord)
    ensures
        content_size(a + b) == content_size(a) + content_size(b),
        content_size(seq![m]) == vstd::utf8::encode_utf8(m.content@).len(),
    decreases b.len(),
{
    assert(seq![m].drop_last() =~= Seq::<MemoryRecord>::empty());
    assert(content_size(seq![m]) == content_size(seq![m].drop_last()) + text::byte_len(
        seq![m].last().content@,
    ));
    if b.len() == 0 {
        assert(a + b =~= a);
    } else {
        law_content_sizes_add_up(a, b.drop_last(), m);
        assert((a + b).drop_last() =~= a + b.drop_last());
        assert((a + b).last() == b.last());
    }
}

/// A reason tells the figures on which the decision rests: quality, diversity and
/// cost of what is synthesized, quality and threshold of what is deferred, and of
/// what is left alone what the rule compared.
pub proof fn law_reasons_tell_the_figures(
    cluster: MemoryCluster,
    members: Seq<MemoryRecord>,
    config: GateConfig,
    context: GateContext,
    figures: GateFigures,
)
    ensures
        match gate_decision(cluster, members, config, context, figures) {
            DecisionView::Synthesize(reason) => reason == "passed all gates: quality="@
                + figures.quality@ + ", diversity="@ + text::decimal(
                members.map_values(|m: MemoryRecord| m.memory_type).to_set().len(),
            ) + ", cost="@ + figures.cost@,
            DecisionView::Defer(reason) => reason == "minimum size with low quality: "@
                + figures.quality@ + " < "@ + figures.defer_threshold@ + ", needs more memories"@,
            DecisionView::Skip(reason) => if cluster.members@.len() < config.min_cluster_size {
                reason == "too small: "@ + text::decimal(cluster.members@.len()) + " members, min "@
                    + text::decimal(config.min_cluster_size as nat)
            } else if cluster.quality_score.below(config.gate_quality_threshold) {
                reason == "low quality: "@ + figures.quality@ + " < "@ + figures.quality_threshold@
            } else if context.covered_pct.reaches(Score { bits: 0x3fe999999999999a }) {
                reason == "already covered: "@ + figures.covered@
                    + "% of members have existing insights"@
            } else {
                ||| reason == "no growth since last attempt"@
                ||| reason == "homogeneous: only "@ + members[0].memory_type.name()
                ||| reason == "cost "@ + figures.cost@ + " exceeds threshold "@
                    + figures.cost_threshold@ + " for non-premium quality "@ + figures.quality@
            },
            DecisionView::Merge(keep, _) => keep == cluster.centroid_id@,
            DecisionView::Strengthen(_) => false,
        },
{
    assert(types_of(members) =~= members.map_values(|m: MemoryRecord| m.memory_type));
}

} // verus!
