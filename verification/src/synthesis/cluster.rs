//! Cluster discovery: which memories take part, which pairs of them are
//! compared, which edges are kept, and how communities become clusters.
//!
//! Distances, similarities and sums are doubles and are computed outside, as is
//! community detection; candidates are known here by their place in the sorted
//! list of their ids.

use crate::hashing;
use crate::hashing::{hash_list, hex_text};
use crate::json;
use crate::json::{find, parse, JsonNode, JsonView};
use crate::ranking;
use crate::ranking::order_by;
use crate::score;
use crate::score::Score;
use crate::synthesis::engine::{copy_record, member_overlap};
use crate::synthesis::engine;
use crate::synthesis::types::{
    ClusterDiscoveryConfig, ClusterSignal, EmotionalModulationConfig, MemoryCluster, MemoryRecord,
    SignalsSummary,
};
use crate::text;
use crate::text::{locate, sort_dedup};
use std::collections::HashSet;
use vstd::prelude::*;
use vstd::string::*;

verus! {

broadcast use vstd::std_specs::hash::group_hash_axioms;

// ---------------------------------------------------------------------------
// Candidates
// ---------------------------------------------------------------------------

/// The value under a key of the metadata of a memory.
pub open spec fn metadata_value(metadata: Option<Seq<char>>, key: Seq<char>) -> Option<Seq<char>> {
    match metadata {
        Some(t) => match json::json_level(t) {
            Some(JsonView::Object(e)) => json::lookup(e, key),
            _ => None,
        },
        None => None,
    }
}

fn read_metadata(metadata: &Option<String>, key: &str) -> (r: Option<String>)
    ensures
        text::opt_view(r) == metadata_value(text::opt_view(*metadata), key@),
{
    match metadata {
        Some(t) => match parse(t.as_str()) {
            Some(JsonNode::Object(e)) => find(&e, key),
            _ => None,
        },
        None => None,
    }
}

/// Whether a memory is itself the output of a synthesis: its metadata say so.
pub open spec fn is_output(m: MemoryRecord) -> bool {
    metadata_value(text::opt_view(m.metadata), "is_synthesis"@) matches Some(v) && json::json_level(
        v,
    ) == Some(JsonView::Bool(true))
}

/// Whether a memory is itself the output of a synthesis.
pub fn is_synthesis_output(record: &MemoryRecord) -> (r: bool)
    ensures
        r == is_output(*record),
{
    match read_metadata(&record.metadata, "is_synthesis") {
        Some(v) => match parse(v.as_str()) {
            Some(JsonNode::Bool(b)) => b,
            _ => false,
        },
        None => false,
    }
}

/// Whether a memory takes part in discovery over everything: it was accessed,
/// is important enough, and is no output of a synthesis.
pub open spec fn takes_part(m: MemoryRecord, config: ClusterDiscoveryConfig) -> bool {
    m.access_count > 0 && m.importance.reaches(config.min_importance) && !is_output(m)
}

/// The memories that take part, in order.
pub open spec fn participants(
    memories: Seq<MemoryRecord>,
    config: ClusterDiscoveryConfig,
    subset: bool,
) -> Seq<MemoryRecord>
    decreases memories.len(),
{
    if memories.len() == 0 {
        Seq::empty()
    } else {
        let rest = participants(memories.drop_last(), config, subset);
        let m = memories.last();
        if (subset && !is_output(m)) || (!subset && takes_part(m, config)) {
            rest.push(m)
        } else {
            rest
        }
    }
}

/// The memories among which clusters are sought: none where too few take part.
pub open spec fn candidates(
    memories: Seq<MemoryRecord>,
    config: ClusterDiscoveryConfig,
    subset: bool,
) -> Seq<MemoryRecord> {
    let c = participants(memories, config, subset);
    if c.len() < config.min_cluster_size {
        Seq::empty()
    } else {
        c
    }
}

/// Selects the memories among which clusters are sought. Of all memories those
/// take part that were accessed, are important enough and are no outputs of a
/// synthesis; of a chosen subset all that are no outputs of a synthesis.
pub fn select_candidates(
    memories: &Vec<MemoryRecord>,
    config: &ClusterDiscoveryConfig,
    subset: bool,
) -> (r: Vec<MemoryRecord>)
    ensures
        r@ == candidates(memories@, *config, subset),
{
    let mut out: Vec<MemoryRecord> = Vec::new();
    let mut i: usize = 0;
    while i < memories.len()
        invariant
            i <= memories@.len(),
            out@ == participants(memories@.take(i as int), *config, subset),
        decreases memories.len() - i,
    {
        assert(memories@.take(i + 1).drop_last() =~= memories@.take(i as int));
        let m: &MemoryRecord = &memories[i];
        let wanted: bool = subset || (m.access_count > 0 && m.importance.ge(
            &config.min_importance,
        ));
        if wanted && !is_synthesis_output(m) {
            out.push(copy_record(m));
        }
        i += 1;
    }
    assert(memories@.take(i as int) =~= memories@);
    if out.len() < config.min_cluster_size {
        Vec::new()
    } else {
        out
    }
}

// ---------------------------------------------------------------------------
// Direct assignment
// ---------------------------------------------------------------------------

/// What became of a new memory.
#[derive(Clone, Debug, PartialEq, Eq)]
pub enum HotAssignResult {
    /// It was assigned to a cluster.
    Assigned {
        /// The cluster.
        cluster_id: String,
        /// Its similarity to the centroid.
        confidence: Score,
    },
    /// No cluster is close enough.
    Pending,
    /// There are no clusters.
    NoClusters,
}

/// 0.6: the similarity from which a memory is assigned, where none is set.
pub const HOT_ASSIGN: u64 = 0x3fe3333333333333;

/// The place of the greatest similarity, the first where there are several.
pub open spec fn nearest(similarities: Seq<Score>) -> int
    decreases similarities.len(),
{
    if similarities.len() <= 1 {
        0
    } else {
        let best = nearest(similarities.drop_last());
        if similarities[best].below(similarities.last()) {
            similarities.len() - 1
        } else {
            best
        }
    }
}

/// Whether a new memory is assigned to the nearest cluster, if that is near
/// enough.
pub open spec fn is_assignment(
    cluster_ids: Seq<String>,
    similarities: Seq<Score>,
    config: ClusterDiscoveryConfig,
    r: HotAssignResult,
) -> bool {
    let threshold = match config.hot_assign_threshold {
        Some(t) => t,
        None => Score { bits: HOT_ASSIGN },
    };
    let best = nearest(similarities);
    &&& r is NoClusters <==> similarities.len() == 0
    &&& r is Assigned <==> similarities.len() > 0 && similarities[best].reaches(threshold)
    &&& r matches HotAssignResult::Assigned { cluster_id, confidence } ==> cluster_id@
        == cluster_ids[best]@ && confidence == similarities[best]
}

/// Assigns a new memory to the cluster whose centroid is most similar to it, if
/// that is similar enough. The similarities come in the order of the clusters.
pub fn assign_new_memory(
    cluster_ids: &Vec<String>,
    similarities: &Vec<Score>,
    config: &ClusterDiscoveryConfig,
) -> (r: HotAssignResult)
    requires
        cluster_ids@.len() == similarities@.len(),
    ensures
        ({
            let threshold = match config.hot_assign_threshold {
                Some(t) => t,
                None => Score { bits: HOT_ASSIGN },
            };
            let best = nearest(similarities@);
            &&& r is NoClusters <==> similarities@.len() == 0
            &&& r is Assigned <==> similarities@.len() > 0 && similarities@[best].reaches(threshold)
            &&& r matches HotAssignResult::Assigned { cluster_id, confidence } ==> cluster_id@
                == cluster_ids@[best]@ && confidence == similarities@[best]
        }),
        is_assignment(cluster_ids@, similarities@, *config, r),
{
    if cluster_ids.len() == 0 {
        return HotAssignResult::NoClusters;
    }
    let threshold: Score = match config.hot_assign_threshold {
        Some(t) => t,
        None => Score { bits: HOT_ASSIGN },
    };
    let mut best: usize = 0;
    let mut i: usize = 1;
    assert(similarities@.take(1).len() == 1);
    while i < similarities.len()
        invariant
            1 <= i <= similarities@.len(),
            best < i,
            best == nearest(similarities@.take(i as int)),
        decreases similarities.len() - i,
    {
        assert(similarities@.take(i + 1).drop_last() =~= similarities@.take(i as int));
        assert(similarities@.take(i + 1)[best as int] == similarities@[best as int]);
        if similarities[best].lt(&similarities[i]) {
            best = i;
        }
        i += 1;
    }
    assert(similarities@.take(i as int) =~= similarities@);
    if similarities[best].ge(&threshold) {
        HotAssignResult::Assigned {
            cluster_id: cluster_ids[best].clone(),
            confidence: similarities[best],
        }
    } else {
        HotAssignResult::Pending
    }
}

/// No similarity is above that of the cluster that a memory is assigned to.
pub proof fn law_assigned_to_nearest(similarities: Seq<Score>, i: int)
    requires
        0 <= i < similarities.len(),
        forall|k: int| 0 <= k < similarities.len() ==> !(#[trigger] similarities[k]).nan(),
    ensures
        0 <= nearest(similarities) < similarities.len(),
        !similarities[nearest(similarities)].below(similarities[i]),
    decreases similarities.len(),
{
    if similarities.len() > 1 {
        let d = similarities.drop_last();
        assert forall|k: int| 0 <= k < d.len() implies !(#[trigger] d[k]).nan() by {
            assert(d[k] == similarities[k]);
        }
        law_assigned_to_nearest(d, 0);
        if i < d.len() {
            law_assigned_to_nearest(d, i);
        }
        let best = nearest(d);
        assert(d[best] == similarities[best]);
        assert(!similarities[best].nan());
    }
}

// ---------------------------------------------------------------------------
// Reclustering in part
// ---------------------------------------------------------------------------

/// What became of reclustering in part.
#[derive(Clone, Copy, Debug, PartialEq, Eq, Structural)]
pub enum WarmReclusterResult {
    /// Nothing was dirty or pending.
    NothingToDo,
    /// Clusters were made anew.
    Reclustered {
        /// The dirty clusters.
        dirty_clusters: usize,
        /// The pending memories.
        pending_count: usize,
        /// The new clusters.
        new_clusters: usize,
    },
}

/// The texts of several lists, one list behind the other.
pub open spec fn flattened(lists: Seq<Vec<String>>) -> Seq<Seq<char>>
    decreases lists.len(),
{
    if lists.len() == 0 {
        Seq::empty()
    } else {
        flattened(lists.drop_last()) + text::views(lists.last()@)
    }
}

fn append_all(out: &mut Vec<String>, more: &Vec<String>)
    ensures
        text::views(final(out)@) == text::views(old(out)@) + text::views(more@),
{
    let ghost start = text::views(out@);
    let ghost all = text::views(more@);
    let mut i: usize = 0;
    assert(start + all.take(0) =~= start);
    while i < more.len()
        invariant
            i <= more@.len(),
            start == text::views(old(out)@),
            all == text::views(more@),
            text::views(out@) == start + all.take(i as int),
        decreases more.len() - i,
    {
        let ghost before = text::views(out@);
        out.push(more[i].clone());
        proof {
            assert(text::views(out@) =~= before.push(all[i as int]));
            assert(start + all.take(i + 1) =~= (start + all.take(i as int)).push(all[i as int]));
        }
        i += 1;
    }
    assert(all.take(i as int) =~= all);
}

fn flatten(lists: &Vec<Vec<String>>) -> (r: Vec<String>)
    ensures
        text::views(r@) == flattened(lists@),
{
    let mut out: Vec<String> = Vec::new();
    assert(text::views(out@) =~= Seq::empty());
    let mut i: usize = 0;
    while i < lists.len()
        invariant
            i <= lists@.len(),
            text::views(out@) == flattened(lists@.take(i as int)),
        decreases lists.len() - i,
    {
        assert(lists@.take(i + 1).drop_last() =~= lists@.take(i as int));
        append_all(&mut out, &lists[i]);
        i += 1;
    }
    assert(lists@.take(i as int) =~= lists@);
    out
}

/// The memories that reclustering in part is about: the members of dirty
/// clusters and the pending memories, each once, in ascending order.
pub fn involved_ids(dirty_members: &Vec<Vec<String>>, pending: &Vec<String>) -> (r: Vec<String>)
    ensures
        text::is_sorted_set(
            text::views(r@),
            flattened(dirty_members@) + text::views(pending@),
        ),
{
    let mut all: Vec<String> = flatten(dirty_members);
    append_all(&mut all, pending);
    sort_dedup(all)
}

/// Whether there is anything to recluster.
pub fn anything_to_recluster(dirty_clusters: usize, pending_count: usize) -> (r: bool)
    ensures
        r == (dirty_clusters > 0 || pending_count > 0),
{
    dirty_clusters > 0 || pending_count > 0
}

/// Tells what became of reclustering in part.
pub fn recluster_dirty(
    dirty_clusters: usize,
    pending_count: usize,
    new_clusters: usize,
) -> (r: WarmReclusterResult)
    ensures
        r == if dirty_clusters == 0 && pending_count == 0 {
            WarmReclusterResult::NothingToDo
        } else {
            WarmReclusterResult::Reclustered { dirty_clusters, pending_count, new_clusters }
        },
{
    if !anything_to_recluster(dirty_clusters, pending_count) {
        WarmReclusterResult::NothingToDo
    } else {
        WarmReclusterResult::Reclustered { dirty_clusters, pending_count, new_clusters }
    }
}

// ---------------------------------------------------------------------------
// Pairs
// ---------------------------------------------------------------------------

/// A pair of candidates, the smaller place first.
pub type Pair = (usize, usize);

/// A pair with a weight.
#[derive(Clone, Copy, Debug, PartialEq, Eq, Structural)]
pub struct Edge {
    /// The smaller place.
    pub lo: usize,
    /// The greater place.
    pub hi: usize,
    /// The weight.
    pub weight: Score,
}

/// A link of a candidate to a memory.
#[derive(Clone, Debug, PartialEq, Eq)]
pub struct Link {
    /// The place of the candidate.
    pub from: usize,
    /// The memory.
    pub to: String,
    /// The weight.
    pub weight: Score,
}

/// The places of two candidates in order.
pub open spec fn in_order(a: int, b: int) -> (int, int) {
    if a < b {
        (a, b)
    } else {
        (b, a)
    }
}

/// Whether a list of edges holds a pair.
pub open spec fn has_edge(edges: Seq<Edge>, p: (int, int)) -> bool {
    exists|k: int| 0 <= k < edges.len() && (#[trigger] edges[k]).lo == p.0 && edges[k].hi == p.1
}

/// The place of a text in a list.
pub open spec fn place_of(ids: Seq<Seq<char>>, t: Seq<char>) -> Option<int> {
    if text::holds(ids, t) {
        Some(choose|i: int| 0 <= i < ids.len() && #[trigger] ids[i] == t)
    } else {
        None
    }
}

/// The links among the candidates, each pair with the weight that it was first
/// given.
pub open spec fn link_map(ids: Seq<Seq<char>>, links: Seq<Link>) -> Seq<Edge>
    decreases links.len(),
{
    if links.len() == 0 {
        Seq::empty()
    } else {
        let rest = link_map(ids, links.drop_last());
        let l = links.last();
        match place_of(ids, l.to@) {
            Some(j) => {
                let p = in_order(l.from as int, j);
                if has_edge(rest, p) {
                    rest
                } else {
                    rest.push(Edge { lo: p.0 as usize, hi: p.1 as usize, weight: l.weight })
                }
            },
            None => rest,
        }
    }
}

/// A number for a pair of places below `n`.
spec fn pair_code(n: int, p: (int, int)) -> int {
    p.0 * n + p.1
}

proof fn lemma_pair_code(n: int, p: (int, int), q: (int, int))
    requires
        0 <= p.0 < n,
        0 <= p.1 < n,
        0 <= q.0 < n,
        0 <= q.1 < n,
        n <= 0xffff_ffff,
    ensures
        0 <= pair_code(n, p) <= u64::MAX,
        pair_code(n, p) == pair_code(n, q) ==> p == q,
{
    assert(0 <= p.0 * n <= 0xffff_fffe * 0xffff_ffff) by (nonlinear_arith)
        requires
            0 <= p.0 < n,
            n <= 0xffff_ffff,
    ;
    if pair_code(n, p) == pair_code(n, q) {
        assert(p.0 == q.0) by (nonlinear_arith)
            requires
                p.0 * n + p.1 == q.0 * n + q.1,
                0 <= p.1 < n,
                0 <= q.1 < n,
        ;
    }
}

fn code_of(n: usize, lo: usize, hi: usize) -> (r: u64)
    requires
        lo < n,
        hi < n,
        n <= 0xffff_ffff,
    ensures
        r == pair_code(n as int, (lo as int, hi as int)),
{
    proof {
        lemma_pair_code(n as int, (lo as int, hi as int), (lo as int, hi as int));
        assert(0 <= lo * n <= u64::MAX) by (nonlinear_arith)
            requires
                0 <= lo < n,
                n <= 0xffff_ffff,
        ;
    }
    (lo as u64) * (n as u64) + (hi as u64)
}

/// Collects the links among the candidates. The ids of the candidates come
/// sorted.
pub fn collect_links(ids: &Vec<String>, links: &Vec<Link>) -> (r: Vec<Edge>)
    requires
        text::strictly_sorted(text::views(ids@)),
        ids@.len() <= 0xffff_ffff,
        forall|i: int| 0 <= i < links@.len() ==> (#[trigger] links@[i]).from < ids@.len(),
    ensures
        r@ == link_map(text::views(ids@), links@),
        forall|k: int|
            0 <= k < r@.len() ==> (#[trigger] r@[k]).lo <= r@[k].hi && r@[k].hi < ids@.len(),
{
    let n: usize = ids.len();
    let ghost names = text::views(ids@);
    let mut out: Vec<Edge> = Vec::new();
    let mut seen: HashSet<u64> = HashSet::new();
    let mut i: usize = 0;
    while i < links.len()
        invariant
            i <= links@.len(),
            n == ids@.len(),
            n <= 0xffff_ffff,
            names == text::views(ids@),
            text::strictly_sorted(names),
            forall|k: int| 0 <= k < links@.len() ==> (#[trigger] links@[k]).from < n,
            out@ == link_map(names, links@.take(i as int)),
            forall|k: int|
                0 <= k < out@.len() ==> (#[trigger] out@[k]).lo <= out@[k].hi && out@[k].hi < n,
            forall|p: (int, int)|
                0 <= p.0 < n && 0 <= p.1 < n ==> (#[trigger] has_edge(out@, p) <==> seen@.contains(
                    pair_code(n as int, p) as u64,
                )),
        decreases links.len() - i,
    {
        assert(links@.take(i + 1).drop_last() =~= links@.take(i as int));
        let l: &Link = &links[i];
        let ghost before = out@;
        match locate(ids, l.to.as_str()) {
            Some(j) => {
                proof {
                    lemma_place(names, j as int);
                }
                let (lo, hi) = if l.from < j {
                    (l.from, j)
                } else {
                    (j, l.from)
                };
                let ghost p = in_order(l.from as int, j as int);
                let code: u64 = code_of(n, lo, hi);
                let known: bool = seen.contains(&code);
                if !known {
                    seen.insert(code);
                    out.push(Edge { lo, hi, weight: l.weight });
                    proof {
                        assert forall|q: (int, int)|
                            0 <= q.0 < n && 0 <= q.1 < n implies (#[trigger] has_edge(out@, q)
                            <==> seen@.contains(pair_code(n as int, q) as u64)) by {
                            lemma_pair_code(n as int, p, q);
                            lemma_pair_code(n as int, q, p);
                            lemma_has_edge_push(before, out@.last(), q);
                            assert(has_edge(before, q) <==> (pair_code(n as int, q) as u64 != code
                                && seen@.contains(pair_code(n as int, q) as u64)) || has_edge(
                                before,
                                q,
                            ));
                        }
                    }
                }
            },
            None => {},
        }
        i += 1;
    }
    assert(links@.take(i as int) =~= links@);
    out
}

proof fn lemma_has_edge_push(edges: Seq<Edge>, e: Edge, p: (int, int))
    ensures
        has_edge(edges.push(e), p) <==> has_edge(edges, p) || (e.lo == p.0 && e.hi == p.1),
{
    let more = edges.push(e);
    if has_edge(edges, p) {
        let k = choose|k: int|
            0 <= k < edges.len() && (#[trigger] edges[k]).lo == p.0 && edges[k].hi == p.1;
        assert(more[k].lo == p.0 && more[k].hi == p.1);
    }
    if e.lo == p.0 && e.hi == p.1 {
        assert(more[edges.len() as int].lo == p.0);
    }
    if has_edge(more, p) {
        let k = choose|k: int|
            0 <= k < more.len() && (#[trigger] more[k]).lo == p.0 && more[k].hi == p.1;
        if k < edges.len() {
            assert(edges[k].lo == p.0);
        }
    }
}

/// The place of a text in a strictly sorted list is the only one.
proof fn lemma_place(ids: Seq<Seq<char>>, j: int)
    requires
        text::strictly_sorted(ids),
        0 <= j < ids.len(),
    ensures
        place_of(ids, ids[j]) == Some(j),
{
    assert(text::holds(ids, ids[j]));
    let i = choose|i: int| 0 <= i < ids.len() && #[trigger] ids[i] == ids[j];
    text::lemma_text_lt_irreflexive(ids[j]);
    if i < j {
        assert(text::text_lt(ids[i], ids[j]));
    } else if j < i {
        assert(text::text_lt(ids[j], ids[i]));
    }
}

/// Whether two candidates have an entity in common.
pub open spec fn share_entity(entities: Seq<Vec<String>>, i: int, j: int) -> bool {
    exists|t: Seq<char>| #[trigger]
        text::holds(text::views(entities[i]@), t) && text::holds(text::views(entities[j]@), t)
}

/// Whether a list of neighbours puts two candidates together.
pub open spec fn neighbours_hold(neighbours: Seq<Pair>, p: (int, int)) -> bool {
    exists|k: int|
        0 <= k < neighbours.len() && in_order(
            (#[trigger] neighbours[k]).0 as int,
            neighbours[k].1 as int,
        ) == p
}

/// Whether a pair is compared: the two are linked, have an entity in common, or
/// one is among the nearest neighbours of the other.
pub open spec fn is_candidate_pair(
    linked: Seq<Edge>,
    entities: Seq<Vec<String>>,
    neighbours: Seq<Pair>,
    p: (int, int),
) -> bool {
    ||| has_edge(linked, p)
    ||| (0 <= p.0 < p.1 < entities.len() && share_entity(entities, p.0, p.1))
    ||| neighbours_hold(neighbours, p)
}

/// Whether a list of pairs holds a pair.
pub open spec fn has_pair(pairs: Seq<Pair>, p: (int, int)) -> bool {
    exists|k: int| 0 <= k < pairs.len() && (#[trigger] pairs[k]).0 == p.0 && pairs[k].1 == p.1
}

proof fn lemma_has_pair_push(pairs: Seq<Pair>, e: Pair, p: (int, int))
    ensures
        has_pair(pairs.push(e), p) <==> has_pair(pairs, p) || (e.0 == p.0 && e.1 == p.1),
{
    let more = pairs.push(e);
    if has_pair(pairs, p) {
        let k = choose|k: int|
            0 <= k < pairs.len() && (#[trigger] pairs[k]).0 == p.0 && pairs[k].1 == p.1;
        assert(more[k].0 == p.0 && more[k].1 == p.1);
    }
    if e.0 == p.0 && e.1 == p.1 {
        assert(more[pairs.len() as int].0 == p.0);
    }
    if has_pair(more, p) {
        let k = choose|k: int|
            0 <= k < more.len() && (#[trigger] more[k]).0 == p.0 && more[k].1 == p.1;
        if k < pairs.len() {
            assert(pairs[k].0 == p.0);
        }
    }
}

/// A growing list of pairs of places below `n`, each once.
struct PairList {
    n: usize,
    pairs: Vec<Pair>,
    seen: HashSet<u64>,
}

impl PairList {
    spec fn valid(self) -> bool {
        &&& self.n <= 0xffff_ffff
        &&& self.pairs@.no_duplicates()
        &&& forall|k: int|
            0 <= k < self.pairs@.len() ==> (#[trigger] self.pairs@[k]).0 < self.n
                && self.pairs@[k].1 < self.n
        &&& forall|p: (int, int)|
            0 <= p.0 < self.n && 0 <= p.1 < self.n ==> (#[trigger] has_pair(self.pairs@, p)
                <==> self.seen@.contains(pair_code(self.n as int, p) as u64))
    }

    fn new(n: usize) -> (r: PairList)
        requires
            n <= 0xffff_ffff,
        ensures
            r.valid(),
            r.n == n,
            r.pairs@.len() == 0,
    {
        PairList { n, pairs: Vec::new(), seen: HashSet::new() }
    }

    fn put(&mut self, lo: usize, hi: usize)
        requires
            old(self).valid(),
            lo < old(self).n,
            hi < old(self).n,
        ensures
            final(self).valid(),
            final(self).n == old(self).n,
            forall|p: (int, int)| #[trigger]
                has_pair(final(self).pairs@, p) <==> has_pair(old(self).pairs@, p) || p == (
                    lo as int,
                    hi as int,
                ),
    {
        let code: u64 = code_of(self.n, lo, hi);
        let ghost p = (lo as int, hi as int);
        let ghost before = self.pairs@;
        let ghost n = self.n as int;
        if self.seen.contains(&code) {
            assert(has_pair(before, p));
        } else {
            self.seen.insert(code);
            self.pairs.push((lo, hi));
            proof {
                assert(!has_pair(before, p));
                assert forall|q: (int, int)| #[trigger]
                    has_pair(self.pairs@, q) <==> has_pair(before, q) || q == p by {
                    lemma_has_pair_push(before, (lo, hi), q);
                }
                assert forall|q: (int, int)| 0 <= q.0 < n && 0 <= q.1 < n implies (
                #[trigger] has_pair(self.pairs@, q) <==> self.seen@.contains(
                    pair_code(n, q) as u64,
                )) by {
                    lemma_pair_code(n, p, q);
                    lemma_pair_code(n, q, p);
                    assert(has_pair(before, q) <==> has_pair(old(self).pairs@, q));
                }
                assert forall|a: int, b: int|
                    0 <= a < self.pairs@.len() && 0 <= b < self.pairs@.len() && a
                        != b implies self.pairs@[a] != self.pairs@[b] by {
                    if a < before.len() && b < before.len() {
                        assert(before[a] != before[b]);
                    } else if a < before.len() {
                        assert(before[a] != (lo, hi));
                    } else {
                        assert(before[b] != (lo, hi));
                    }
                }
            }
        }
    }
}

/// Whether `lists[e]` holds, in ascending order, the candidates below `n` that
/// have the entity `names[e]`.
spec fn indexed(
    lists: Seq<Vec<usize>>,
    names: Seq<Seq<char>>,
    entities: Seq<Vec<String>>,
    n: int,
) -> bool {
    &&& lists.len() == names.len()
    &&& forall|e: int| 0 <= e < lists.len() ==> lists_one(#[trigger] lists[e]@, names[e], entities, n)
}

spec fn lists_one(
    list: Seq<usize>,
    name: Seq<char>,
    entities: Seq<Vec<String>>,
    n: int,
) -> bool {
    &&& forall|a: int, b: int| 0 <= a < b < list.len() ==> #[trigger] list[a] < #[trigger] list[b]
    &&& forall|a: int| 0 <= a < list.len() ==> (#[trigger] list[a]) < n
    &&& forall|i: int|
        0 <= i < n ==> (#[trigger] list.contains(i as usize) <==> text::holds(
            text::views(entities[i]@),
            name,
        ))
}

/// Lists, for each of the entities, the candidates that have it.
fn index_entities(entities: &Vec<Vec<String>>, names: &Vec<String>) -> (r: Vec<Vec<usize>>)
    requires
        text::strictly_sorted(text::views(names@)),
        forall|i: int, t: Seq<char>|
            0 <= i < entities@.len() && #[trigger] text::holds(text::views(entities@[i]@), t)
                ==> text::holds(text::views(names@), t),
    ensures
        indexed(r@, text::views(names@), entities@, entities@.len() as int),
{
    let ghost keys = text::views(names@);
    let mut lists: Vec<Vec<usize>> = Vec::new();
    let mut e: usize = 0;
    while e < names.len()
        invariant
            e <= names@.len(),
            keys == text::views(names@),
            lists@.len() == e,
            forall|k: int| 0 <= k < e ==> (#[trigger] lists@[k])@.len() == 0,
        decreases names.len() - e,
    {
        lists.push(Vec::new());
        e += 1;
    }
    let n: usize = entities.len();
    let mut i: usize = 0;
    while i < n
        invariant
            i <= n,
            n == entities@.len(),
            keys == text::views(names@),
            text::strictly_sorted(keys),
            forall|k: int, t: Seq<char>|
                0 <= k < entities@.len() && #[trigger] text::holds(text::views(entities@[k]@), t)
                    ==> text::holds(keys, t),
            indexed(lists@, keys, entities@, i as int),
        decreases n - i,
    {
        let own: &Vec<String> = &entities[i];
        let ghost mine = text::views(own@);
        let ghost start = lists@;
        let mut k: usize = 0;
        while k < own.len()
            invariant
                k <= own@.len(),
                i < n,
                n == entities@.len(),
                *own == entities@[i as int],
                mine == text::views(own@),
                keys == text::views(names@),
                text::strictly_sorted(keys),
                forall|t: Seq<char>| text::holds(mine, t) ==> text::holds(keys, t),
                indexed(start, keys, entities@, i as int),
                lists@.len() == start.len(),
                forall|e: int|
                    0 <= e < lists@.len() ==> (#[trigger] lists@[e])@ == if text::holds(
                        mine.take(k as int),
                        keys[e],
                    ) {
                        start[e]@.push(i)
                    } else {
                        start[e]@
                    },
            decreases own.len() - k,
        {
            let ghost t = own@[k as int]@;
            assert(mine[k as int] == t);
            assert(text::holds(mine, t));
            let found: Option<usize> = locate(names, own[k].as_str());
            match found {
                Some(e) => {
                    let len: usize = lists[e].len();
                    let there: bool = len > 0 && lists[e][len - 1] == i;
                    let ghost now = lists@;
                    proof {
                        let had = text::holds(mine.take(k as int), keys[e as int]);
                        assert(lists_one(start[e as int]@, keys[e as int], entities@, i as int));
                        if had {
                            assert(there);
                        } else if there {
                            assert(start[e as int]@[len - 1] < i);
                        }
                    }
                    if !there {
                        let mut list: Vec<usize> = Vec::new();
                        std::mem::swap(&mut list, &mut lists[e]);
                        list.push(i);
                        lists.set(e, list);
                    }
                    proof {
                        assert forall|f: int| 0 <= f < lists@.len() implies (
                        #[trigger] lists@[f])@ == if text::holds(mine.take(k + 1), keys[f]) {
                            start[f]@.push(i)
                        } else {
                            start[f]@
                        } by {
                            assert(mine.take(k + 1) =~= mine.take(k as int).push(t));
                            lemma_holds_push(mine.take(k as int), t, keys[f]);
                            assert(now[f]@ == if text::holds(mine.take(k as int), keys[f]) {
                                start[f]@.push(i)
                            } else {
                                start[f]@
                            });
                            if f != e {
                                lemma_strict_distinct(keys, f, e as int);
                            }
                        }
                    }
                },
                None => {
                    assert(false);
                },
            }
            k += 1;
        }
        proof {
            assert(mine.take(k as int) =~= mine);
            assert forall|e: int| 0 <= e < lists@.len() implies lists_one(
                #[trigger] lists@[e]@,
                keys[e],
                entities@,
                i + 1,
            ) by {
                assert(lists_one(start[e]@, keys[e], entities@, i as int));
                lemma_list_extended(start[e]@, lists@[e]@, keys[e], entities@, i);
            }
        }
        i += 1;
    }
    lists
}

proof fn lemma_holds_push(v: Seq<Seq<char>>, t: Seq<char>, x: Seq<char>)
    ensures
        text::holds(v.push(t), x) <==> text::holds(v, x) || x == t,
{
    let p = v.push(t);
    if text::holds(v, x) {
        let i = choose|i: int| 0 <= i < v.len() && #[trigger] v[i] == x;
        assert(p[i] == x);
    }
    if x == t {
        assert(p[v.len() as int] == x);
    }
    if text::holds(p, x) {
        let i = choose|i: int| 0 <= i < p.len() && #[trigger] p[i] == x;
        if i < v.len() {
            assert(v[i] == x);
        }
    }
}

proof fn lemma_strict_distinct(keys: Seq<Seq<char>>, a: int, b: int)
    requires
        text::strictly_sorted(keys),
        0 <= a < keys.len(),
        0 <= b < keys.len(),
        a != b,
    ensures
        keys[a] != keys[b],
{
    text::lemma_text_lt_irreflexive(keys[a]);
    if a < b {
        assert(text::text_lt(keys[a], keys[b]));
    } else {
        assert(text::text_lt(keys[b], keys[a]));
    }
}

proof fn lemma_list_extended(
    before: Seq<usize>,
    after: Seq<usize>,
    name: Seq<char>,
    entities: Seq<Vec<String>>,
    i: usize,
)
    requires
        lists_one(before, name, entities, i as int),
        i < entities.len(),
        after == if text::holds(text::views(entities[i as int]@), name) {
            before.push(i)
        } else {
            before
        },
    ensures
        lists_one(after, name, entities, i + 1),
{
    assert forall|k: int| 0 <= k < i + 1 implies (#[trigger] after.contains(k as usize)
        <==> text::holds(text::views(entities[k]@), name)) by {
        if k < i {
            assert(before.contains(k as usize) <==> text::holds(text::views(entities[k]@), name));
            if before.contains(k as usize) {
                let a = choose|a: int| 0 <= a < before.len() && before[a] == k as usize;
                assert(after[a] == k as usize);
            }
            if after.contains(k as usize) {
                let a = choose|a: int| 0 <= a < after.len() && after[a] == k as usize;
                assert(before[a] == k as usize);
            }
        } else {
            if text::holds(text::views(entities[k]@), name) {
                assert(after[before.len() as int] == i);
            } else if after.contains(i) {
                let a = choose|a: int| 0 <= a < after.len() && after[a] == i;
                assert(before[a] < i);
            }
        }
    }
}

/// Collects the pairs that are compared. The links come as [`collect_links`]
/// gives them, the entities by candidate, and the nearest neighbours as pairs.
pub fn candidate_pairs(
    linked: &Vec<Edge>,
    entities: &Vec<Vec<String>>,
    neighbours: &Vec<Pair>,
) -> (r: Vec<Pair>)
    requires
        entities@.len() <= 0xffff_ffff,
        forall|k: int|
            0 <= k < linked@.len() ==> (#[trigger] linked@[k]).lo < entities@.len() && linked@[k].hi
                < entities@.len(),
        forall|k: int|
            0 <= k < neighbours@.len() ==> (#[trigger] neighbours@[k]).0 < entities@.len()
                && neighbours@[k].1 < entities@.len(),
    ensures
        r@.no_duplicates(),
        forall|p: (int, int)| #[trigger]
            has_pair(r@, p) <==> is_candidate_pair(linked@, entities@, neighbours@, p),
        forall|k: int|
            0 <= k < r@.len() ==> (#[trigger] r@[k]).0 < entities@.len() && r@[k].1
                < entities@.len(),
{
    let n: usize = entities.len();
    let mut found: PairList = PairList::new(n);
    let mut k: usize = 0;
    while k < linked.len()
        invariant
            k <= linked@.len(),
            found.valid(),
            found.n == n,
            n == entities@.len(),
            forall|j: int|
                0 <= j < linked@.len() ==> (#[trigger] linked@[j]).lo < n && linked@[j].hi < n,
            forall|p: (int, int)| #[trigger]
                has_pair(found.pairs@, p) <==> has_edge(linked@.take(k as int), p),
        decreases linked.len() - k,
    {
        proof {
            assert(linked@.take(k + 1) =~= linked@.take(k as int).push(linked@[k as int]));
        }
        found.put(linked[k].lo, linked[k].hi);
        proof {
            assert forall|p: (int, int)| #[trigger]
                has_pair(found.pairs@, p) <==> has_edge(linked@.take(k + 1), p) by {
                lemma_has_edge_push(linked@.take(k as int), linked@[k as int], p);
            }
        }
        k += 1;
    }
    assert(linked@.take(k as int) =~= linked@);

    let names: Vec<String> = sort_dedup(flatten(entities));
    proof {
        assert forall|i: int, t: Seq<char>|
            0 <= i < entities@.len() && #[trigger] text::holds(
                text::views(entities@[i]@),
                t,
            ) implies text::holds(text::views(names@), t) by {
            lemma_flattened_holds(entities@, i, t);
        }
    }
    let lists: Vec<Vec<usize>> = index_entities(entities, &names);
    put_lists(&lists, &mut found, entities, &names);
    proof {
        let keys = text::views(names@);
        assert forall|p: (int, int)| #[trigger]
            has_pair(found.pairs@, p) <==> has_edge(linked@, p) || (0 <= p.0 < p.1
                < entities@.len() && share_entity(entities@, p.0, p.1)) by {
            if 0 <= p.0 < p.1 < entities@.len() && share_entity(entities@, p.0, p.1) {
                let t = choose|t: Seq<char>| #[trigger]
                    text::holds(text::views(entities@[p.0]@), t) && text::holds(
                        text::views(entities@[p.1]@),
                        t,
                    );
                assert(text::holds(keys, t));
                let e = choose|e: int| 0 <= e < keys.len() && #[trigger] keys[e] == t;
                assert(meets(entities@, keys, e, p));
            }
        }
    }

    let ghost base = found.pairs@;
    let mut m: usize = 0;
    while m < neighbours.len()
        invariant
            m <= neighbours@.len(),
            found.valid(),
            found.n == n,
            n == entities@.len(),
            forall|j: int|
                0 <= j < neighbours@.len() ==> (#[trigger] neighbours@[j]).0 < n
                    && neighbours@[j].1 < n,
            forall|p: (int, int)| #[trigger]
                has_pair(found.pairs@, p) <==> has_pair(base, p) || neighbours_hold(
                    neighbours@.take(m as int),
                    p,
                ),
        decreases neighbours.len() - m,
    {
        let (a, b) = neighbours[m];
        let ghost so_far = neighbours@.take(m as int);
        proof {
            assert(neighbours@.take(m + 1) =~= so_far.push(neighbours@[m as int]));
        }
        if a < b {
            found.put(a, b);
        } else {
            found.put(b, a);
        }
        proof {
            assert forall|p: (int, int)| #[trigger]
                has_pair(found.pairs@, p) <==> has_pair(base, p) || neighbours_hold(
                    neighbours@.take(m + 1),
                    p,
                ) by {
                lemma_neighbours_push(so_far, neighbours@[m as int], p);
            }
        }
        m += 1;
    }
    assert(neighbours@.take(m as int) =~= neighbours@);
    found.pairs
}

proof fn lemma_neighbours_push(v: Seq<Pair>, q: Pair, p: (int, int))
    ensures
        neighbours_hold(v.push(q), p) <==> neighbours_hold(v, p) || in_order(
            q.0 as int,
            q.1 as int,
        ) == p,
{
    let w = v.push(q);
    if neighbours_hold(v, p) {
        let k = choose|k: int|
            0 <= k < v.len() && in_order((#[trigger] v[k]).0 as int, v[k].1 as int) == p;
        assert(in_order(w[k].0 as int, w[k].1 as int) == p);
    }
    if in_order(q.0 as int, q.1 as int) == p {
        assert(in_order(w[v.len() as int].0 as int, w[v.len() as int].1 as int) == p);
    }
    if neighbours_hold(w, p) {
        let k = choose|k: int|
            0 <= k < w.len() && in_order((#[trigger] w[k]).0 as int, w[k].1 as int) == p;
        if k < v.len() {
            assert(in_order(v[k].0 as int, v[k].1 as int) == p);
        }
    }
}

proof fn lemma_flattened_holds(lists: Seq<Vec<String>>, i: int, t: Seq<char>)
    requires
        0 <= i < lists.len(),
        text::holds(text::views(lists[i]@), t),
    ensures
        text::holds(flattened(lists), t),
    decreases lists.len(),
{
    let rest = flattened(lists.drop_last());
    let last = text::views(lists.last()@);
    let all = flattened(lists);
    if i < lists.len() - 1 {
        lemma_flattened_holds(lists.drop_last(), i, t);
        let k = choose|k: int| 0 <= k < rest.len() && #[trigger] rest[k] == t;
        assert(all[k] == t);
    } else {
        let k = choose|k: int| 0 <= k < last.len() && #[trigger] last[k] == t;
        assert(all[rest.len() + k] == t);
    }
}

/// Whether both candidates of a pair have entity `e`, the smaller place first.
spec fn meets(entities: Seq<Vec<String>>, keys: Seq<Seq<char>>, e: int, p: (int, int)) -> bool {
    &&& 0 <= p.0 < p.1 < entities.len()
    &&& text::holds(text::views(entities[p.0]@), keys[e])
    &&& text::holds(text::views(entities[p.1]@), keys[e])
}

/// Puts down the pairs of candidates that stand in one list.
fn put_lists(
    lists: &Vec<Vec<usize>>,
    found: &mut PairList,
    entities: &Vec<Vec<String>>,
    names: &Vec<String>,
)
    requires
        old(found).valid(),
        old(found).n == entities@.len(),
        indexed(lists@, text::views(names@), entities@, entities@.len() as int),
    ensures
        final(found).valid(),
        final(found).n == old(found).n,
        forall|p: (int, int)| #[trigger]
            has_pair(final(found).pairs@, p) <==> has_pair(old(found).pairs@, p) || exists|e: int|
                0 <= e < names@.len() && #[trigger] meets(
                    entities@,
                    text::views(names@),
                    e,
                    p,
                ),
{
    let ghost keys = text::views(names@);
    let ghost start = found.pairs@;
    let mut e: usize = 0;
    while e < lists.len()
        invariant
            e <= lists@.len(),
            keys == text::views(names@),
            keys.len() == names@.len(),
            start == old(found).pairs@,
            found.valid(),
            found.n == entities@.len(),
            old(found).n == entities@.len(),
            indexed(lists@, keys, entities@, entities@.len() as int),
            forall|p: (int, int)| #[trigger]
                has_pair(found.pairs@, p) <==> has_pair(start, p) || exists|f: int|
                    0 <= f < e && #[trigger] meets(entities@, keys, f, p),
        decreases lists.len() - e,
    {
        let ghost before = found.pairs@;
        let ghost list = lists@[e as int]@;
        assert(lists_one(lists@[e as int]@, keys[e as int], entities@, entities@.len() as int));
        put_list(&lists[e], found);
        proof {
            assert forall|p: (int, int)| #[trigger]
                has_pair(found.pairs@, p) <==> has_pair(start, p) || exists|f: int|
                    0 <= f < e + 1 && #[trigger] meets(entities@, keys, f, p) by {
                lemma_in_list(list, keys[e as int], entities@, p);
                if has_pair(before, p) {
                    if !has_pair(start, p) {
                        let f = choose|f: int|
                            0 <= f < e && #[trigger] meets(entities@, keys, f, p);
                        assert(0 <= f < e + 1 && meets(entities@, keys, f, p));
                    }
                }
                if in_list(list, p) {
                    assert(meets(entities@, keys, e as int, p));
                }
                if exists|f: int| 0 <= f < e + 1 && #[trigger] meets(entities@, keys, f, p) {
                    let f = choose|f: int|
                        0 <= f < e + 1 && #[trigger] meets(entities@, keys, f, p);
                    if f < e {
                        assert(has_pair(before, p));
                    } else {
                        assert(in_list(list, p));
                    }
                }
            }
        }
        e += 1;
    }
}

/// Whether both places of a pair stand in an ascending list, the first before
/// the second.
spec fn in_list(list: Seq<usize>, p: (int, int)) -> bool {
    exists|a: int, b: int|
        0 <= a < b < list.len() && (#[trigger] list[a]) == p.0 && (#[trigger] list[b]) == p.1
}

proof fn lemma_in_list(
    list: Seq<usize>,
    name: Seq<char>,
    entities: Seq<Vec<String>>,
    p: (int, int),
)
    requires
        lists_one(list, name, entities, entities.len() as int),
        entities.len() <= 0xffff_ffff,
    ensures
        in_list(list, p) <==> 0 <= p.0 < p.1 < entities.len() && text::holds(
            text::views(entities[p.0]@),
            name,
        ) && text::holds(text::views(entities[p.1]@), name),
{
    if in_list(list, p) {
        let (a, b) = choose|a: int, b: int|
            0 <= a < b < list.len() && (#[trigger] list[a]) == p.0 && (#[trigger] list[b]) == p.1;
        assert(list[a] < list[b]);
        assert(list[b] < entities.len());
        assert(list.contains(p.0 as usize));
        assert(list.contains(p.1 as usize));
    }
    if 0 <= p.0 < p.1 < entities.len() && text::holds(text::views(entities[p.0]@), name)
        && text::holds(text::views(entities[p.1]@), name) {
        assert(list.contains(p.0 as usize));
        assert(list.contains(p.1 as usize));
        let a = choose|a: int| 0 <= a < list.len() && list[a] == p.0 as usize;
        let b = choose|b: int| 0 <= b < list.len() && list[b] == p.1 as usize;
        if b < a {
            assert(list[b] < list[a]);
        }
        assert(list[a] == p.0 && list[b] == p.1);
    }
}

fn put_list(list: &Vec<usize>, found: &mut PairList)
    requires
        old(found).valid(),
        forall|a: int| 0 <= a < list@.len() ==> (#[trigger] list@[a]) < old(found).n,
    ensures
        final(found).valid(),
        final(found).n == old(found).n,
        forall|p: (int, int)| #[trigger]
            has_pair(final(found).pairs@, p) <==> has_pair(old(found).pairs@, p) || in_list(
                list@,
                p,
            ),
{
    let ghost start = found.pairs@;
    let mut a: usize = 0;
    while a < list.len()
        invariant
            a <= list@.len(),
            start == old(found).pairs@,
            found.valid(),
            found.n == old(found).n,
            forall|k: int| 0 <= k < list@.len() ==> (#[trigger] list@[k]) < found.n,
            forall|p: (int, int)| #[trigger]
                has_pair(found.pairs@, p) <==> has_pair(start, p) || listed(
                    list@,
                    a as int,
                    0,
                    p,
                ),
        decreases list.len() - a,
    {
        let mut b: usize = a + 1;
        while b < list.len()
            invariant
                a < b <= list@.len(),
                start == old(found).pairs@,
                found.valid(),
                found.n == old(found).n,
                forall|k: int| 0 <= k < list@.len() ==> (#[trigger] list@[k]) < found.n,
                forall|p: (int, int)| #[trigger]
                    has_pair(found.pairs@, p) <==> has_pair(start, p) || listed(
                        list@,
                        a as int,
                        b as int,
                        p,
                    ),
            decreases list.len() - b,
        {
            found.put(list[a], list[b]);
            proof {
                assert forall|p: (int, int)| #[trigger]
                    has_pair(found.pairs@, p) <==> has_pair(start, p) || listed(
                        list@,
                        a as int,
                        b + 1,
                        p,
                    ) by {
                    lemma_listed_next(list@, a as int, b as int, p);
                }
            }
            b += 1;
        }
        proof {
            assert forall|p: (int, int)| #[trigger]
                has_pair(found.pairs@, p) <==> has_pair(start, p) || listed(list@, a + 1, 0, p) by {
                lemma_listed_row(list@, a as int, p);
            }
        }
        a += 1;
    }
    proof {
        assert forall|p: (int, int)| #[trigger]
            has_pair(found.pairs@, p) <==> has_pair(start, p) || in_list(list@, p) by {
            lemma_listed_all(list@, p);
        }
    }
}

/// Whether a pair stands in the rows before row `a`, or in row `a` before
/// column `b`.
spec fn listed(list: Seq<usize>, a: int, b: int, p: (int, int)) -> bool {
    exists|c: int, d: int|
        0 <= c < d < list.len() && (c < a || (c == a && d < b)) && (#[trigger] list[c]) == p.0 && (
        #[trigger] list[d]) == p.1
}

proof fn lemma_listed_next(list: Seq<usize>, a: int, b: int, p: (int, int))
    requires
        0 <= a < b < list.len(),
    ensures
        listed(list, a, b + 1, p) <==> listed(list, a, b, p) || p == (
            list[a] as int,
            list[b] as int,
        ),
{
    if p == (list[a] as int, list[b] as int) {
        assert(list[a] == p.0 && list[b] == p.1);
    }
    if listed(list, a, b + 1, p) {
        let (c, d) = choose|c: int, d: int|
            0 <= c < d < list.len() && (c < a || (c == a && d < b + 1)) && (#[trigger] list[c])
                == p.0 && (#[trigger] list[d]) == p.1;
        if c == a && d == b {
            assert(p == (list[a] as int, list[b] as int));
        } else {
            assert(list[c] == p.0 && list[d] == p.1);
            assert(listed(list, a, b, p));
        }
    }
    if listed(list, a, b, p) {
        let (c, d) = choose|c: int, d: int|
            0 <= c < d < list.len() && (c < a || (c == a && d < b)) && (#[trigger] list[c]) == p.0
                && (#[trigger] list[d]) == p.1;
        assert(list[c] == p.0 && list[d] == p.1);
    }
}

proof fn lemma_listed_row(list: Seq<usize>, a: int, p: (int, int))
    requires
        0 <= a < list.len(),
    ensures
        listed(list, a + 1, 0, p) <==> listed(list, a, list.len() as int, p),
{
    if listed(list, a + 1, 0, p) {
        let (c, d) = choose|c: int, d: int|
            0 <= c < d < list.len() && (c < a + 1 || (c == a + 1 && d < 0)) && (#[trigger] list[c])
                == p.0 && (#[trigger] list[d]) == p.1;
        assert(list[c] == p.0 && list[d] == p.1);
    }
    if listed(list, a, list.len() as int, p) {
        let (c, d) = choose|c: int, d: int|
            0 <= c < d < list.len() && (c < a || (c == a && d < list.len())) && (
            #[trigger] list[c]) == p.0 && (#[trigger] list[d]) == p.1;
        assert(list[c] == p.0 && list[d] == p.1);
    }
}

proof fn lemma_listed_all(list: Seq<usize>, p: (int, int))
    ensures
        listed(list, list.len() as int, 0, p) <==> in_list(list, p),
{
    if listed(list, list.len() as int, 0, p) {
        let (c, d) = choose|c: int, d: int|
            0 <= c < d < list.len() && (c < list.len() || (c == list.len() && d < 0)) && (
            #[trigger] list[c]) == p.0 && (#[trigger] list[d]) == p.1;
        assert(list[c] == p.0 && list[d] == p.1);
    }
    if in_list(list, p) {
        let (a, b) = choose|a: int, b: int|
            0 <= a < b < list.len() && (#[trigger] list[a]) == p.0 && (#[trigger] list[b]) == p.1;
        assert(list[a] == p.0 && list[b] == p.1);
    }
}

/// What is known of a pair besides embeddings and times: the weight of its link,
/// and the entities that the two share and have together.
#[derive(Clone, Copy, Debug, PartialEq, Eq, Structural)]
pub struct PairFacts {
    /// The weight of the link, where there is one.
    pub hebbian_weight: Option<Score>,
    /// Entities in common.
    pub shared_entities: usize,
    /// Entities of either.
    pub all_entities: usize,
}

/// The weight of a pair in a list of edges, the first where there are several.
pub open spec fn weight_of(edges: Seq<Edge>, p: (int, int)) -> Option<Score>
    decreases edges.len(),
{
    if edges.len() == 0 {
        None
    } else {
        match weight_of(edges.drop_last(), p) {
            Some(w) => Some(w),
            None => if edges.last().lo == p.0 && edges.last().hi == p.1 {
                Some(edges.last().weight)
            } else {
                None
            },
        }
    }
}

fn find_weight(edges: &Vec<Edge>, lo: usize, hi: usize) -> (r: Option<Score>)
    ensures
        r == weight_of(edges@, (lo as int, hi as int)),
{
    let ghost p = (lo as int, hi as int);
    let mut i: usize = 0;
    while i < edges.len()
        invariant
            i <= edges@.len(),
            p == (lo as int, hi as int),
            weight_of(edges@.take(i as int), p) is None,
        decreases edges.len() - i,
    {
        assert(edges@.take(i + 1).drop_last() =~= edges@.take(i as int));
        if edges[i].lo == lo && edges[i].hi == hi {
            proof {
                lemma_weight_stays(edges@, i + 1, p);
            }
            return Some(edges[i].weight);
        }
        i += 1;
    }
    assert(edges@.take(i as int) =~= edges@);
    None
}

proof fn lemma_weight_stays(edges: Seq<Edge>, n: int, p: (int, int))
    requires
        0 <= n <= edges.len(),
        weight_of(edges.take(n), p) is Some,
    ensures
        weight_of(edges, p) == weight_of(edges.take(n), p),
    decreases edges.len() - n,
{
    if n < edges.len() {
        assert(edges.take(n + 1).drop_last() =~= edges.take(n));
        lemma_weight_stays(edges, n + 1, p);
    } else {
        assert(edges.take(n) =~= edges);
    }
}

/// Collects what is known of a pair besides embeddings and times.
pub fn compute_pairwise_signals(
    linked: &Vec<Edge>,
    entities: &Vec<Vec<String>>,
    pair: Pair,
) -> (r: PairFacts)
    requires
        pair.0 < entities@.len(),
        pair.1 < entities@.len(),
        entities@[pair.0 as int]@.len() + entities@[pair.1 as int]@.len() <= usize::MAX,
    ensures
        r.hebbian_weight == weight_of(linked@, (pair.0 as int, pair.1 as int)),
        r.shared_entities == engine::id_set(entities@[pair.0 as int]@).intersect(
            engine::id_set(entities@[pair.1 as int]@),
        ).len(),
        r.all_entities == engine::id_set(entities@[pair.0 as int]@).union(
            engine::id_set(entities@[pair.1 as int]@),
        ).len(),
{
    let (shared_entities, all_entities) = member_overlap(&entities[pair.0], &entities[pair.1]);
    PairFacts {
        hebbian_weight: find_weight(linked, pair.0, pair.1),
        shared_entities,
        all_entities,
    }
}

// ---------------------------------------------------------------------------
// Edges
// ---------------------------------------------------------------------------

/// The pairs whose score reaches the threshold, with their scores.
pub open spec fn edges_of(pairs: Seq<Pair>, scores: Seq<Score>, threshold: Score) -> Seq<Edge>
    decreases pairs.len(),
{
    if pairs.len() == 0 {
        Seq::empty()
    } else {
        let rest = edges_of(pairs.drop_last(), scores, threshold);
        let score = scores[pairs.len() - 1];
        if score.reaches(threshold) {
            rest.push(Edge { lo: pairs.last().0, hi: pairs.last().1, weight: score })
        } else {
            rest
        }
    }
}

/// The ends of the edges are those of the pairs.
pub proof fn lemma_edge_ends(pairs: Seq<Pair>, scores: Seq<Score>, threshold: Score, n: nat)
    requires
        forall|k: int|
            0 <= k < pairs.len() ==> (#[trigger] pairs[k]).0 < n && pairs[k].1 < n,
    ensures
        forall|k: int|
            0 <= k < edges_of(pairs, scores, threshold).len() ==> (#[trigger] edges_of(
                pairs,
                scores,
                threshold,
            )[k]).lo < n && edges_of(pairs, scores, threshold)[k].hi < n,
    decreases pairs.len(),
{
    if pairs.len() > 0 {
        let rest = edges_of(pairs.drop_last(), scores, threshold);
        let all = edges_of(pairs, scores, threshold);
        lemma_edge_ends(pairs.drop_last(), scores, threshold, n);
        assert forall|k: int| 0 <= k < all.len() implies (#[trigger] all[k]).lo < n && all[k].hi
            < n by {
            if k < rest.len() {
                assert(all[k] == rest[k]);
            }
        }
    }
}

/// Keeps the pairs whose score reaches the threshold.
pub fn edges_above(pairs: &Vec<Pair>, scores: &Vec<Score>, threshold: Score) -> (r: Vec<Edge>)
    requires
        pairs@.len() == scores@.len(),
    ensures
        r@ == edges_of(pairs@, scores@, threshold),
        forall|i: int| 0 <= i < r@.len() ==> !(#[trigger] r@[i]).weight.nan(),
{
    let mut out: Vec<Edge> = Vec::new();
    let mut i: usize = 0;
    while i < pairs.len()
        invariant
            i <= pairs@.len(),
            pairs@.len() == scores@.len(),
            out@ == edges_of(pairs@.take(i as int), scores@, threshold),
            forall|k: int| 0 <= k < out@.len() ==> !(#[trigger] out@[k]).weight.nan(),
        decreases pairs.len() - i,
    {
        assert(pairs@.take(i + 1).drop_last() =~= pairs@.take(i as int));
        let score: Score = scores[i];
        if score.ge(&threshold) {
            out.push(Edge { lo: pairs[i].0, hi: pairs[i].1, weight: score });
        }
        i += 1;
    }
    assert(pairs@.take(i as int) =~= pairs@);
    out
}

/// The square root of the number of nodes, rounded, but at least 5 and at most
/// 30: `k` stands for the numbers above `k * (k - 1)`, up to `k * (k + 1)`.
pub open spec fn adaptive(n: int, k: int) -> bool {
    &&& 5 <= k <= 30
    &&& k == 5 || n > k * (k - 1)
    &&& k == 30 || n <= k * (k + 1)
}

/// Whether `k` is how many neighbours of a node are kept: what is configured, or
/// what fits the number of nodes.
pub open spec fn is_limit_for(configured: Option<usize>, node_count: int, k: usize) -> bool {
    match configured {
        Some(c) => k == c,
        None => adaptive(node_count, k as int),
    }
}

/// How many neighbours of a node are kept.
pub fn max_neighbors(configured: Option<usize>, node_count: usize) -> (r: usize)
    ensures
        is_limit_for(configured, node_count as int, r),
{
    match configured {
        Some(k) => k,
        None => {
            let mut k: usize = 5;
            while k < 30 && k * (k + 1) < node_count
                invariant
                    5 <= k <= 30,
                    k == 5 || node_count > k * (k - 1),
                    k * (k + 1) <= 930,
                decreases 30 - k,
            {
                assert((k + 1) * (k + 2) <= 930) by (nonlinear_arith)
                    requires
                        5 <= k < 30,
                ;
                assert((k + 1) * k == k * (k + 1)) by (nonlinear_arith);
                k += 1;
            }
            k
        },
    }
}

/// There is one such number.
pub proof fn law_adaptive_unique(n: int, a: int, b: int)
    requires
        adaptive(n, a),
        adaptive(n, b),
    ensures
        a == b,
{
    if a < b {
        assert(a * (a + 1) <= (b - 1) * b) by (nonlinear_arith)
            requires
                5 <= a,
                a + 1 <= b,
        ;
        assert((b - 1) * b == b * (b - 1)) by (nonlinear_arith);
    } else if b < a {
        assert(b * (b + 1) <= (a - 1) * a) by (nonlinear_arith)
            requires
                5 <= b,
                b + 1 <= a,
        ;
        assert((a - 1) * a == a * (a - 1)) by (nonlinear_arith);
    }
}

/// How often a node is an end of an edge.
pub open spec fn degree(edges: Seq<Edge>, v: int) -> nat
    decreases edges.len(),
{
    if edges.len() == 0 {
        0
    } else {
        degree(edges.drop_last(), v) + ends_at(edges.last(), v)
    }
}

/// How many ends of an edge a node is.
pub open spec fn ends_at(e: Edge, v: int) -> nat {
    (if e.lo == v {
        1nat
    } else {
        0nat
    }) + if e.hi == v {
        1nat
    } else {
        0nat
    }
}

/// The edges that are kept: those of which an end has less than `k` edges among
/// the ones kept before.
pub open spec fn kept_edges(edges: Seq<Edge>, k: nat) -> Seq<Edge>
    decreases edges.len(),
{
    if edges.len() == 0 {
        Seq::empty()
    } else {
        let kept = kept_edges(edges.drop_last(), k);
        let e = edges.last();
        if degree(kept, e.lo as int) < k || degree(kept, e.hi as int) < k {
            kept.push(e)
        } else {
            kept
        }
    }
}

/// The keys by which edges are ordered: the greatest weight first.
pub open spec fn weight_keys(edges: Seq<Edge>) -> Seq<i64> {
    edges.map_values(|e: Edge| (-e.weight.rank()) as i64)
}

/// A second key that makes no difference.
pub open spec fn no_keys(n: nat) -> Seq<i64> {
    Seq::new(n, |i: int| 0i64)
}

/// The edges in a given order.
pub open spec fn arranged(edges: Seq<Edge>, order: Seq<usize>) -> Seq<Edge> {
    order.map_values(|i: usize| edges[i as int])
}

/// Whether `kept` are the strongest edges of each node: the edges come in the
/// order of their weight, ties in the order given, and one is kept while either
/// of its ends has room for it.
pub open spec fn sparsified(edges: Seq<Edge>, k: nat, kept: Seq<Edge>) -> bool {
    exists|order: Seq<usize>| #[trigger]
        ranking::is_order(order, weight_keys(edges), no_keys(edges.len())) && kept == kept_edges(
            arranged(edges, order),
            k,
        )
}

/// Keeps the strongest edges of each node.
pub fn sparsify_edges(edges: &Vec<Edge>, k: usize, node_count: usize) -> (r: Vec<Edge>)
    requires
        forall|i: int|
            0 <= i < edges@.len() ==> !(#[trigger] edges@[i]).weight.nan() && edges@[i].lo
                < node_count && edges@[i].hi < node_count,
    ensures
        sparsified(edges@, k as nat, r@),
{
    let n: usize = edges.len();
    let mut keys: Vec<i64> = Vec::new();
    let mut rest: Vec<i64> = Vec::new();
    let mut i: usize = 0;
    while i < n
        invariant
            i <= n,
            n == edges@.len(),
            forall|j: int| 0 <= j < n ==> !(#[trigger] edges@[j]).weight.nan(),
            keys@ == weight_keys(edges@).take(i as int),
            rest@ == no_keys(i as nat),
        decreases n - i,
    {
        let key: i64 = edges[i].weight.descending();
        keys.push(key);
        rest.push(0);
        proof {
            let all = weight_keys(edges@);
            assert(all[i as int] == key);
            assert(keys@ =~= all.take(i + 1));
            assert(rest@ =~= no_keys((i + 1) as nat));
        }
        i += 1;
    }
    assert(keys@ =~= weight_keys(edges@));
    let order: Vec<usize> = order_by(&keys, &rest);
    let ghost sorted = arranged(edges@, order@);

    let mut counts: Vec<usize> = Vec::new();
    let mut v: usize = 0;
    while v < node_count
        invariant
            v <= node_count,
            counts@.len() == v,
            forall|w: int| 0 <= w < v ==> #[trigger] counts@[w] == 0,
        decreases node_count - v,
    {
        counts.push(0);
        v += 1;
    }
    let mut kept: Vec<Edge> = Vec::new();
    assert forall|w: int| 0 <= w < node_count implies #[trigger] counts@[w] == capped(
        degree(kept@, w),
        k as nat,
    ) by {}
    let mut m: usize = 0;
    while m < order.len()
        invariant
            m <= order@.len(),
            order@.len() == n,
            n == edges@.len(),
            sorted == arranged(edges@, order@),
            forall|j: int| 0 <= j < order@.len() ==> (#[trigger] order@[j]) < n,
            forall|j: int|
                0 <= j < edges@.len() ==> (#[trigger] edges@[j]).lo < node_count && edges@[j].hi
                    < node_count,
            counts@.len() == node_count,
            kept@ == kept_edges(sorted.take(m as int), k as nat),
            forall|w: int|
                0 <= w < node_count ==> #[trigger] counts@[w] == capped(
                    degree(kept@, w),
                    k as nat,
                ),
        decreases order.len() - m,
    {
        let e: Edge = edges[order[m]];
        proof {
            assert(sorted[m as int] == e);
            assert(sorted.take(m + 1).drop_last() =~= sorted.take(m as int));
            assert(sorted.take(m + 1).last() == e);
        }
        if counts[e.lo] < k || counts[e.hi] < k {
            let ghost before = kept@;
            let ghost had = counts@;
            let low: usize = counts[e.lo];
            if low < k {
                counts.set(e.lo, low + 1);
            }
            let high: usize = counts[e.hi];
            if high < k {
                counts.set(e.hi, high + 1);
            }
            kept.push(e);
            proof {
                assert forall|w: int| 0 <= w < node_count implies #[trigger] counts@[w] == capped(
                    degree(kept@, w),
                    k as nat,
                ) by {
                    assert(kept@.drop_last() =~= before);
                    assert(had[w] == capped(degree(before, w), k as nat));
                    assert(degree(kept@, w) == degree(before, w) + ends_at(e, w));
                }
            }
        }
        m += 1;
    }
    proof {
        assert(sorted.take(m as int) =~= sorted);
        assert(ranking::is_order(order@, weight_keys(edges@), no_keys(edges@.len())));
    }
    kept
}

/// A number, but no more than a limit.
spec fn capped(n: nat, limit: nat) -> nat {
    if n < limit {
        n
    } else {
        limit
    }
}

/// The strongest edges of every node are kept: an edge is dropped only where
/// both of its ends have `k` edges that come before it.
pub proof fn law_strongest_edges_kept(edges: Seq<Edge>, k: nat, i: int)
    requires
        0 <= i < edges.len(),
        !kept_edges(edges, k).contains(edges[i]),
    ensures
        degree(kept_edges(edges.take(i), k), edges[i].lo as int) >= k,
        degree(kept_edges(edges.take(i), k), edges[i].hi as int) >= k,
{
    let e = edges[i];
    let before = kept_edges(edges.take(i), k);
    assert(edges.take(i + 1).drop_last() =~= edges.take(i));
    if degree(before, e.lo as int) < k || degree(before, e.hi as int) < k {
        let now = kept_edges(edges.take(i + 1), k);
        assert(now == before.push(e));
        assert(now[before.len() as int] == e);
        assert(now.contains(e));
        lemma_kept_stays(edges, i + 1, k, e);
    }
}

proof fn lemma_kept_stays(edges: Seq<Edge>, n: int, k: nat, e: Edge)
    requires
        0 <= n <= edges.len(),
        kept_edges(edges.take(n), k).contains(e),
    ensures
        kept_edges(edges, k).contains(e),
    decreases edges.len() - n,
{
    if n < edges.len() {
        assert(edges.take(n + 1).drop_last() =~= edges.take(n));
        let a = kept_edges(edges.take(n), k);
        let b = kept_edges(edges.take(n + 1), k);
        let i = choose|i: int| 0 <= i < a.len() && a[i] == e;
        assert(b[i] == e);
        lemma_kept_stays(edges, n + 1, k, e);
    } else {
        assert(edges.take(n) =~= edges);
    }
}

// ---------------------------------------------------------------------------
// Communities
// ---------------------------------------------------------------------------

/// How community detection is run.
#[derive(Clone, Copy, Debug, PartialEq, Eq, Structural)]
pub struct CommunityParams {
    /// Trials.
    pub trials: usize,
    /// Whether it is hierarchical.
    pub hierarchical: bool,
}

/// How community detection is run: one trial where there are less than five
/// edges to a node and three otherwise, and hierarchically above two thousand
/// nodes, unless it is configured.
pub open spec fn params_of(
    node_count: usize,
    edge_count: usize,
    config: ClusterDiscoveryConfig,
) -> CommunityParams {
    CommunityParams {
        trials: match config.infomap_trials {
            Some(t) => t,
            None => if node_count == 0 || edge_count < 5 * node_count {
                1
            } else {
                3
            },
        },
        hierarchical: match config.infomap_hierarchical {
            Some(h) => h,
            None => node_count > 2000,
        },
    }
}

/// Chooses how community detection is run.
pub fn community_params(
    node_count: usize,
    edge_count: usize,
    config: &ClusterDiscoveryConfig,
) -> (r: CommunityParams)
    ensures
        r == params_of(node_count, edge_count, *config),
{
    let trials: usize = match config.infomap_trials {
        Some(t) => t,
        None => if node_count == 0 || (edge_count as u128) < 5 * (node_count as u128) {
            1
        } else {
            3
        },
    };
    let hierarchical: bool = match config.infomap_hierarchical {
        Some(h) => h,
        None => node_count > 2000,
    };
    CommunityParams { trials, hierarchical }
}

/// The nodes below `n` of a module, ascending.
pub open spec fn module_nodes(assignments: Seq<usize>, module: usize, n: int) -> Seq<usize>
    decreases n,
{
    if n <= 0 {
        Seq::empty()
    } else {
        let rest = module_nodes(assignments, module, n - 1);
        if assignments[n - 1] == module {
            rest.push((n - 1) as usize)
        } else {
            rest
        }
    }
}

/// Whether a module has a node below `n`.
pub open spec fn module_seen(assignments: Seq<usize>, module: usize, n: int) -> bool {
    exists|k: int| 0 <= k < n && #[trigger] assignments[k] == module
}

/// The first members of a list, no more than a limit.
pub open spec fn truncated(v: Seq<usize>, limit: nat) -> Seq<usize> {
    if v.len() > limit {
        v.take(limit as int)
    } else {
        v
    }
}

/// The communities of the modules that have a node below `n`, in the order of
/// their first nodes: those with enough nodes, cut to the greatest size.
pub open spec fn communities(
    assignments: Seq<usize>,
    total: int,
    least: nat,
    greatest: nat,
    n: int,
) -> Seq<Seq<usize>>
    decreases n,
{
    if n <= 0 {
        Seq::empty()
    } else {
        let rest = communities(assignments, total, least, greatest, n - 1);
        let module = assignments[n - 1];
        let nodes = module_nodes(assignments, module, total);
        if module_seen(assignments, module, n - 1) || nodes.len() < least {
            rest
        } else {
            rest.push(truncated(nodes, greatest))
        }
    }
}

/// The models of a list of groups.
pub open spec fn group_views(groups: Seq<Vec<usize>>) -> Seq<Seq<usize>> {
    groups.map_values(|g: Vec<usize>| g@)
}

fn collect_module(assignments: &Vec<usize>, module: usize, total: usize) -> (r: Vec<usize>)
    requires
        total <= assignments@.len(),
    ensures
        r@ == module_nodes(assignments@, module, total as int),
{
    let mut out: Vec<usize> = Vec::new();
    let mut i: usize = 0;
    while i < total
        invariant
            i <= total <= assignments@.len(),
            out@ == module_nodes(assignments@, module, i as int),
        decreases total - i,
    {
        if assignments[i] == module {
            out.push(i);
        }
        i += 1;
    }
    out
}

fn cut(v: Vec<usize>, limit: usize) -> (r: Vec<usize>)
    ensures
        r@ == truncated(v@, limit as nat),
{
    if v.len() > limit {
        let mut v: Vec<usize> = v;
        v.truncate(limit);
        v
    } else {
        v
    }
}

/// The communities of a network, by the modules that its nodes were assigned to.
/// Without edges there are none.
pub open spec fn communities_of(
    assignments: Seq<usize>,
    node_count: usize,
    edge_count: usize,
    config: ClusterDiscoveryConfig,
) -> Seq<Seq<usize>> {
    let total = if edge_count == 0 {
        0
    } else if assignments.len() < node_count {
        assignments.len() as int
    } else {
        node_count as int
    };
    communities(
        assignments,
        total,
        config.min_cluster_size as nat,
        config.max_cluster_size as nat,
        total,
    )
}

/// Groups the nodes by the modules that community detection assigned them to.
pub fn infomap_communities(
    assignments: &Vec<usize>,
    node_count: usize,
    edge_count: usize,
    config: &ClusterDiscoveryConfig,
) -> (r: Vec<Vec<usize>>)
    ensures
        group_views(r@) == communities_of(assignments@, node_count, edge_count, *config),
{
    let total: usize = if edge_count == 0 {
        0
    } else if assignments.len() < node_count {
        assignments.len()
    } else {
        node_count
    };
    let mut groups: Vec<Vec<usize>> = Vec::new();
    let mut seen: HashSet<usize> = HashSet::new();
    assert(group_views(groups@) =~= Seq::empty());
    let mut i: usize = 0;
    while i < total
        invariant
            i <= total <= assignments@.len(),
            forall|m: usize| #[trigger]
                seen@.contains(m) <==> module_seen(assignments@, m, i as int),
            group_views(groups@) == communities(
                assignments@,
                total as int,
                config.min_cluster_size as nat,
                config.max_cluster_size as nat,
                i as int,
            ),
        decreases total - i,
    {
        let module: usize = assignments[i];
        let known: bool = seen.contains(&module);
        if !known {
            seen.insert(module);
            let nodes: Vec<usize> = collect_module(assignments, module, total);
            if nodes.len() >= config.min_cluster_size {
                let group: Vec<usize> = cut(nodes, config.max_cluster_size);
                let ghost before = group_views(groups@);
                let ghost added = group@;
                groups.push(group);
                assert(group_views(groups@) =~= before.push(added));
            }
        }
        proof {
            assert forall|m: usize| #[trigger]
                seen@.contains(m) <==> module_seen(assignments@, m, i + 1) by {
                if module_seen(assignments@, m, i + 1) {
                    let k = choose|k: int| 0 <= k < i + 1 && #[trigger] assignments@[k] == m;
                    if k < i {
                        assert(module_seen(assignments@, m, i as int));
                    }
                }
                if module_seen(assignments@, m, i as int) {
                    let k = choose|k: int| 0 <= k < i && #[trigger] assignments@[k] == m;
                    assert(assignments@[k] == m);
                }
                assert(assignments@[i as int] == module);
            }
        }
        i += 1;
    }
    groups
}

/// A community has no more nodes than the greatest size, and no less than the
/// least where that is not above the greatest.
pub proof fn law_community_sizes(
    assignments: Seq<usize>,
    total: int,
    least: nat,
    greatest: nat,
    n: int,
    g: int,
)
    requires
        0 <= g < communities(assignments, total, least, greatest, n).len(),
        n <= total <= assignments.len(),
    ensures
        communities(assignments, total, least, greatest, n)[g].len() <= greatest,
        least <= greatest ==> communities(assignments, total, least, greatest, n)[g].len() >= least,
    decreases n,
{
    if n > 0 {
        let rest = communities(assignments, total, least, greatest, n - 1);
        if g < rest.len() {
            law_community_sizes(assignments, total, least, greatest, n - 1, g);
        }
    }
}

/// A community has nodes, unless the greatest size is zero, and they are nodes
/// of the network.
pub proof fn lemma_community_nodes(
    assignments: Seq<usize>,
    total: int,
    least: nat,
    greatest: nat,
    n: int,
    g: int,
)
    requires
        0 <= g < communities(assignments, total, least, greatest, n).len(),
        n <= total <= assignments.len() <= usize::MAX,
    ensures
        greatest > 0 ==> communities(assignments, total, least, greatest, n)[g].len() > 0,
        forall|k: int|
            0 <= k < communities(assignments, total, least, greatest, n)[g].len() ==> (
            #[trigger] communities(assignments, total, least, greatest, n)[g][k]) < total,
    decreases n,
{
    if n > 0 {
        let rest = communities(assignments, total, least, greatest, n - 1);
        let all = communities(assignments, total, least, greatest, n);
        if g < rest.len() {
            lemma_community_nodes(assignments, total, least, greatest, n - 1, g);
        } else {
            let module = assignments[n - 1];
            let nodes = module_nodes(assignments, module, total);
            lemma_module_has(assignments, module, total, n - 1);
            assert forall|k: int| 0 <= k < all[g].len() implies (#[trigger] all[g][k]) < total by {
                assert(all[g][k] == nodes[k]);
                lemma_module_nodes(assignments, module, total, k);
            }
        }
    }
}

proof fn lemma_module_has(assignments: Seq<usize>, module: usize, n: int, k: int)
    requires
        0 <= k < n <= assignments.len(),
        assignments[k] == module,
    ensures
        module_nodes(assignments, module, n).len() > 0,
    decreases n,
{
    if k < n - 1 {
        lemma_module_has(assignments, module, n - 1, k);
    }
}

/// No node is in two communities.
pub proof fn law_communities_disjoint(
    assignments: Seq<usize>,
    total: int,
    least: nat,
    greatest: nat,
    n: int,
    g: int,
    h: int,
    x: usize,
)
    requires
        0 <= g < h < communities(assignments, total, least, greatest, n).len(),
        n <= total <= assignments.len() <= usize::MAX,
    ensures
        !(communities(assignments, total, least, greatest, n)[g].contains(x) && communities(
            assignments,
            total,
            least,
            greatest,
            n,
        )[h].contains(x)),
    decreases n,
{
    if n > 0 {
        let rest = communities(assignments, total, least, greatest, n - 1);
        let all = communities(assignments, total, least, greatest, n);
        if h < rest.len() {
            law_communities_disjoint(assignments, total, least, greatest, n - 1, g, h, x);
        } else if all[g].contains(x) && all[h].contains(x) {
            let module = assignments[n - 1];
            lemma_community_module(assignments, total, least, greatest, n - 1, g, x);
            let nodes = module_nodes(assignments, module, total);
            let k = choose|k: int| 0 <= k < all[h].len() && all[h][k] == x;
            assert(nodes[k] == x);
            lemma_module_nodes(assignments, module, total, k);
        }
    }
}

proof fn lemma_module_nodes(assignments: Seq<usize>, module: usize, n: int, k: int)
    requires
        0 <= k < module_nodes(assignments, module, n).len(),
        n <= assignments.len() <= usize::MAX,
    ensures
        module_nodes(assignments, module, n)[k] < n,
        assignments[module_nodes(assignments, module, n)[k] as int] == module,
    decreases n,
{
    if n > 0 {
        let rest = module_nodes(assignments, module, n - 1);
        if k < rest.len() {
            lemma_module_nodes(assignments, module, n - 1, k);
        }
    }
}

proof fn lemma_community_module(
    assignments: Seq<usize>,
    total: int,
    least: nat,
    greatest: nat,
    n: int,
    g: int,
    x: usize,
)
    requires
        0 <= g < communities(assignments, total, least, greatest, n).len(),
        communities(assignments, total, least, greatest, n)[g].contains(x),
        n <= total <= assignments.len() <= usize::MAX,
    ensures
        module_seen(assignments, assignments[x as int], n),
    decreases n,
{
    if n > 0 {
        let rest = communities(assignments, total, least, greatest, n - 1);
        let all = communities(assignments, total, least, greatest, n);
        if g < rest.len() {
            lemma_community_module(assignments, total, least, greatest, n - 1, g, x);
            let k = choose|k: int|
                0 <= k < n - 1 && #[trigger] assignments[k] == assignments[x as int];
            assert(assignments[k] == assignments[x as int]);
        } else {
            let module = assignments[n - 1];
            let nodes = module_nodes(assignments, module, total);
            let k = choose|k: int| 0 <= k < all[g].len() && all[g][k] == x;
            assert(nodes[k] == x);
            lemma_module_nodes(assignments, module, total, k);
            assert(assignments[n - 1] == assignments[x as int]);
        }
    }
}

// ---------------------------------------------------------------------------
// Clusters
// ---------------------------------------------------------------------------

/// The edges between members of a group, as places in the list of edges.
pub open spec fn inner_edges(edges: Seq<Edge>, members: Seq<usize>) -> Seq<usize>
    decreases edges.len(),
{
    if edges.len() == 0 {
        Seq::empty()
    } else {
        let rest = inner_edges(edges.drop_last(), members);
        let e = edges.last();
        if members.contains(e.lo) && members.contains(e.hi) {
            rest.push((edges.len() - 1) as usize)
        } else {
            rest
        }
    }
}

/// The edges inside a group are edges.
pub proof fn lemma_inner_edges(edges: Seq<Edge>, members: Seq<usize>)
    requires
        edges.len() <= usize::MAX,
    ensures
        forall|k: int|
            0 <= k < inner_edges(edges, members).len() ==> (#[trigger] inner_edges(
                edges,
                members,
            )[k]) < edges.len(),
    decreases edges.len(),
{
    if edges.len() > 0 {
        let rest = inner_edges(edges.drop_last(), members);
        let all = inner_edges(edges, members);
        lemma_inner_edges(edges.drop_last(), members);
        assert forall|k: int| 0 <= k < all.len() implies (#[trigger] all[k]) < edges.len() by {
            if k < rest.len() {
                assert(all[k] == rest[k]);
            }
        }
    }
}

fn is_member(members: &Vec<usize>, v: usize) -> (r: bool)
    ensures
        r == members@.contains(v),
{
    let mut i: usize = 0;
    while i < members.len()
        invariant
            i <= members@.len(),
            forall|k: int| 0 <= k < i ==> #[trigger] members@[k] != v,
        decreases members.len() - i,
    {
        if members[i] == v {
            return true;
        }
        i += 1;
    }
    false
}

/// Finds the edges between members of a group, from which its quality and the
/// averages of its members are computed.
pub fn edges_within(edges: &Vec<Edge>, members: &Vec<usize>) -> (r: Vec<usize>)
    ensures
        r@ == inner_edges(edges@, members@),
{
    let mut out: Vec<usize> = Vec::new();
    let mut i: usize = 0;
    while i < edges.len()
        invariant
            i <= edges@.len(),
            out@ == inner_edges(edges@.take(i as int), members@),
        decreases edges.len() - i,
    {
        assert(edges@.take(i + 1).drop_last() =~= edges@.take(i as int));
        if is_member(members, edges[i].lo) && is_member(members, edges[i].hi) {
            out.push(i);
        }
        i += 1;
    }
    assert(edges@.take(i as int) =~= edges@);
    out
}

/// How many of the members have an entity.
pub open spec fn with_entities(entities: Seq<Vec<String>>, members: Seq<usize>) -> nat
    decreases members.len(),
{
    if members.len() == 0 {
        0
    } else {
        with_entities(entities, members.drop_last()) + if entities[members.last() as int]@.len()
            > 0 {
            1nat
        } else {
            0nat
        }
    }
}

/// Counts the members that have an entity.
pub fn count_with_entities(entities: &Vec<Vec<String>>, members: &Vec<usize>) -> (r: usize)
    requires
        forall|i: int| 0 <= i < members@.len() ==> (#[trigger] members@[i]) < entities@.len(),
    ensures
        r == with_entities(entities@, members@),
{
    let mut n: usize = 0;
    let mut i: usize = 0;
    while i < members.len()
        invariant
            i <= members@.len(),
            n <= i,
            forall|k: int| 0 <= k < members@.len() ==> (#[trigger] members@[k]) < entities@.len(),
            n == with_entities(entities@, members@.take(i as int)),
        decreases members.len() - i,
    {
        assert(members@.take(i + 1).drop_last() =~= members@.take(i as int));
        if entities[members[i]].len() > 0 {
            n += 1;
        }
        i += 1;
    }
    assert(members@.take(i as int) =~= members@);
    n
}

/// The member with the greatest average, the first where there are several:
/// none where no member has one.
pub open spec fn central(averages: Seq<Option<Score>>) -> Option<int>
    decreases averages.len(),
{
    if averages.len() == 0 {
        None
    } else {
        let best = central(averages.drop_last());
        match averages.last() {
            None => best,
            Some(a) => match best {
                None => Some(averages.len() - 1),
                Some(b) => if (averages[b]->0).below(a) {
                    Some(averages.len() - 1)
                } else {
                    best
                },
            },
        }
    }
}

fn find_central(averages: &Vec<Option<Score>>) -> (r: Option<usize>)
    ensures
        central(averages@) == (match r {
            Some(i) => Some(i as int),
            None => None,
        }),
        r matches Some(i) ==> i < averages@.len(),
{
    let mut best: Option<usize> = None;
    let mut i: usize = 0;
    while i < averages.len()
        invariant
            i <= averages@.len(),
            central(averages@.take(i as int)) == (match best {
                Some(b) => Some(b as int),
                None => None,
            }),
            best matches Some(b) ==> b < i && averages@[b as int] is Some,
        decreases averages.len() - i,
    {
        assert(averages@.take(i + 1).drop_last() =~= averages@.take(i as int));
        match averages[i] {
            None => {},
            Some(a) => match best {
                None => {
                    best = Some(i);
                },
                Some(b) => {
                    assert(averages@.take(i + 1)[b as int] == averages@[b as int]);
                    let better: bool = match averages[b] {
                        Some(x) => x.lt(&a),
                        None => false,
                    };
                    if better {
                        best = Some(i);
                    }
                },
            },
        }
        i += 1;
    }
    assert(averages@.take(i as int) =~= averages@);
    best
}

/// The signal that contributes most: co-activation before entities before
/// embeddings before time, where they contribute the same.
pub open spec fn dominant(h: Score, e: Score, m: Score, t: Score) -> ClusterSignal {
    if h.reaches(e) && h.reaches(m) && h.reaches(t) {
        ClusterSignal::Hebbian
    } else if e.reaches(m) && e.reaches(t) {
        ClusterSignal::Entity
    } else if m.reaches(t) {
        ClusterSignal::Embedding
    } else {
        ClusterSignal::Temporal
    }
}

/// Summarises what each signal contributes to a cluster.
pub fn summarize_signals(
    hebbian: Score,
    entity: Score,
    embedding: Score,
    temporal: Score,
) -> (r: SignalsSummary)
    ensures
        r == (SignalsSummary {
            dominant_signal: dominant(hebbian, entity, embedding, temporal),
            hebbian_contribution: hebbian,
            entity_contribution: entity,
            embedding_contribution: embedding,
            temporal_contribution: temporal,
        }),
{
    let dominant_signal: ClusterSignal = if hebbian.ge(&entity) && hebbian.ge(&embedding)
        && hebbian.ge(&temporal) {
        ClusterSignal::Hebbian
    } else if entity.ge(&embedding) && entity.ge(&temporal) {
        ClusterSignal::Entity
    } else if embedding.ge(&temporal) {
        ClusterSignal::Embedding
    } else {
        ClusterSignal::Temporal
    };
    SignalsSummary {
        dominant_signal,
        hebbian_contribution: hebbian,
        entity_contribution: entity,
        embedding_contribution: embedding,
        temporal_contribution: temporal,
    }
}

/// The id of a cluster, by its members in ascending order.
pub open spec fn cluster_id(members: Seq<Seq<char>>) -> Seq<char> {
    "cluster-"@ + hashing::hex(hashing::hash_of_list(members) as int, 16)
}

/// Whether `r` is the cluster of some members: none where there are too few.
pub open spec fn is_cluster_of(
    r: Option<MemoryCluster>,
    members: Seq<String>,
    averages: Seq<Option<Score>>,
    quality: Score,
    signals: SignalsSummary,
    min_cluster_size: nat,
) -> bool {
    match r {
        Some(c) => {
            &&& members.len() >= min_cluster_size
            &&& text::sorted(text::views(c.members@))
            &&& text::views(c.members@).to_multiset() == text::views(members).to_multiset()
            &&& c.id@ == cluster_id(text::views(c.members@))
            &&& c.quality_score == quality
            &&& c.signals_summary == signals
            &&& c.centroid_id@ == match central(averages) {
                Some(i) => members[i]@,
                None => members[0]@,
            }
        },
        None => members.len() < min_cluster_size,
    }
}

/// Builds a cluster from its members, its quality, the average relatedness of
/// each member that has edges, and what each signal contributes. There is none
/// where there are too few members.
pub fn build_memory_cluster(
    members: &Vec<String>,
    averages: &Vec<Option<Score>>,
    quality: Score,
    signals: SignalsSummary,
    min_cluster_size: usize,
) -> (r: Option<MemoryCluster>)
    requires
        members@.len() == averages@.len(),
        min_cluster_size > 0 || members@.len() > 0,
    ensures
        is_cluster_of(r, members@, averages@, quality, signals, min_cluster_size as nat),
{
    if members.len() < min_cluster_size {
        return None;
    }
    let centroid_id: String = match find_central(averages) {
        Some(i) => members[i].clone(),
        None => members[0].clone(),
    };
    let sorted: Vec<String> = text::sort(text::clone_all(members));
    let mut id: String = "cluster-".to_owned();
    id.append(hex_text(hash_list(&sorted), 16).as_str());
    Some(
        MemoryCluster {
            id,
            members: sorted,
            quality_score: quality,
            centroid_id,
            signals_summary: signals,
        },
    )
}

/// Sorted lists of the same texts are the same list, so the id of a cluster does
/// not depend on the order in which its members were found.
pub proof fn law_cluster_id_of_members(a: Seq<Seq<char>>, b: Seq<Seq<char>>)
    requires
        text::sorted(a),
        text::sorted(b),
        a.to_multiset() == b.to_multiset(),
    ensures
        a == b,
        cluster_id(a) == cluster_id(b),
    decreases a.len(),
{
    a.to_multiset_ensures();
    b.to_multiset_ensures();
    if a.len() == 0 {
        assert(a =~= b);
    } else {
        let x = a.last();
        let y = b.last();
        assert(b.contains(x)) by {
            assert(a.contains(x));
            assert(a.to_multiset().count(x) > 0);
            assert(b.to_multiset().count(x) > 0);
        }
        assert(a.contains(y)) by {
            assert(b.contains(y));
            assert(b.to_multiset().count(y) > 0);
            assert(a.to_multiset().count(y) > 0);
        }
        let i = choose|i: int| 0 <= i < b.len() && b[i] == x;
        let j = choose|j: int| 0 <= j < a.len() && a[j] == y;
        if x != y {
            assert(text::text_le(b[i], b[b.len() - 1]));
            assert(text::text_le(a[j], a[a.len() - 1]));
            text::lemma_text_lt_total(x, y);
        }
        let da = a.drop_last();
        let db = b.drop_last();
        assert(a =~= da.push(x));
        assert(b =~= db.push(x));
        vstd::seq_lib::to_multiset_build(da, x);
        vstd::seq_lib::to_multiset_build(db, x);
        assert(da.to_multiset() =~= da.push(x).to_multiset().remove(x));
        assert(db.to_multiset() =~= db.push(x).to_multiset().remove(x));
        assert forall|p: int, q: int| 0 <= p < q < da.len() implies text::text_le(
            #[trigger] da[p],
            #[trigger] da[q],
        ) by {
            assert(text::text_le(a[p], a[q]));
        }
        assert forall|p: int, q: int| 0 <= p < q < db.len() implies text::text_le(
            #[trigger] db[p],
            #[trigger] db[q],
        ) by {
            assert(text::text_le(b[p], b[q]));
        }
        law_cluster_id_of_members(da, db);
    }
}

/// Whether the same members are given in one order or in another, they make a
/// cluster or they do not, and the cluster has the same members in the same order
/// and the same id.
pub proof fn law_cluster_whatever_order(
    a: Option<MemoryCluster>,
    b: Option<MemoryCluster>,
    members: Seq<String>,
    others: Seq<String>,
    averages: Seq<Option<Score>>,
    other_averages: Seq<Option<Score>>,
    quality: Score,
    signals: SignalsSummary,
    min_cluster_size: nat,
)
    requires
        text::views(members).to_multiset() == text::views(others).to_multiset(),
        is_cluster_of(a, members, averages, quality, signals, min_cluster_size),
        is_cluster_of(b, others, other_averages, quality, signals, min_cluster_size),
    ensures
        a is Some <==> members.len() >= min_cluster_size,
        a is Some <==> b is Some,
        a is Some ==> text::views((a->0).members@) == text::views((b->0).members@),
        a is Some ==> (a->0).id@ == (b->0).id@,
{
    text::views(members).to_multiset_ensures();
    text::views(others).to_multiset_ensures();
    assert(text::views(members).to_multiset().len() == members.len());
    assert(text::views(others).to_multiset().len() == others.len());
    if a is Some && b is Some {
        law_cluster_id_of_members(
            text::views((a->0).members@),
            text::views((b->0).members@),
        );
    }
}

/// Puts clusters in the order of their quality, the best first, ties in the
/// order given.
pub fn sort_by_quality(clusters: &Vec<MemoryCluster>) -> (r: Vec<usize>)
    requires
        forall|i: int| 0 <= i < clusters@.len() ==> !(#[trigger] clusters@[i]).quality_score.nan(),
    ensures
        ranking::is_order(r@, quality_keys(clusters@), no_keys(clusters@.len())),
{
    let mut keys: Vec<i64> = Vec::new();
    let mut rest: Vec<i64> = Vec::new();
    let mut i: usize = 0;
    while i < clusters.len()
        invariant
            i <= clusters@.len(),
            forall|k: int|
                0 <= k < clusters@.len() ==> !(#[trigger] clusters@[k]).quality_score.nan(),
            keys@ == quality_keys(clusters@).take(i as int),
            rest@ == no_keys(i as nat),
        decreases clusters.len() - i,
    {
        keys.push(clusters[i].quality_score.descending());
        rest.push(0);
        proof {
            let all = quality_keys(clusters@);
            assert(keys@ =~= all.take(i + 1));
            assert(rest@ =~= no_keys((i + 1) as nat));
        }
        i += 1;
    }
    assert(keys@ =~= quality_keys(clusters@));
    order_by(&keys, &rest)
}

/// The keys by which clusters are ordered: the best quality first.
pub open spec fn quality_keys(clusters: Seq<MemoryCluster>) -> Seq<i64> {
    clusters.map_values(|c: MemoryCluster| (-c.quality_score.rank()) as i64)
}

// ---------------------------------------------------------------------------
// Emotion
// ---------------------------------------------------------------------------

/// A score without its sign.
pub open spec fn unsigned(s: Score) -> Score {
    if s.bits >= score::SIGN {
        Score { bits: (s.bits - score::SIGN) as u64 }
    } else {
        s
    }
}

/// How strong the emotion of a memory is: the number in its metadata, without
/// its sign.
pub open spec fn valence(m: MemoryRecord) -> Option<Score> {
    match metadata_value(text::opt_view(m.metadata), "emotional_valence"@) {
        Some(v) => match json::json_double(v) {
            Some(bits) => Some(unsigned(Score { bits })),
            None => None,
        },
        None => None,
    }
}

/// Reads how strong the emotion of a memory is, from which the salience of a
/// cluster is averaged.
pub fn emotional_valence(m: &MemoryRecord) -> (r: Option<Score>)
    ensures
        r == valence(*m),
{
    match read_metadata(&m.metadata, "emotional_valence") {
        Some(v) => match json::double(v.as_str()) {
            Some(s) => Some(
                if s.bits >= score::SIGN {
                    Score { bits: s.bits - score::SIGN }
                } else {
                    s
                },
            ),
            None => None,
        },
        None => None,
    }
}

/// Whether emotion makes no difference: it neither orders nor boosts clusters.
pub open spec fn unmodulated(config: EmotionalModulationConfig) -> bool {
    !config.prioritize_emotional && !config.emotional_boost_weight.nan()
        && config.emotional_boost_weight.rank() == 0
}

/// Whether the quality of a cluster is boosted: the weight and its salience are
/// above zero.
pub open spec fn boosted(config: EmotionalModulationConfig, salience: Score) -> bool {
    (Score { bits: score::ZERO }).below(config.emotional_boost_weight) && (Score {
        bits: score::ZERO,
    }).below(salience)
}

/// A cluster with its boosted quality, where it is boosted.
pub open spec fn modulated(
    c: MemoryCluster,
    salience: Score,
    boosted_quality: Score,
    config: EmotionalModulationConfig,
) -> MemoryCluster {
    if boosted(config, salience) {
        MemoryCluster { quality_score: boosted_quality, ..c }
    } else {
        c
    }
}

/// The clusters with their boosted qualities.
pub open spec fn all_modulated(
    clusters: Seq<MemoryCluster>,
    saliences: Seq<Score>,
    boosts: Seq<Score>,
    config: EmotionalModulationConfig,
) -> Seq<MemoryCluster> {
    Seq::new(
        clusters.len(),
        |i: int| modulated(clusters[i], saliences[i], boosts[i], config),
    )
}

/// The keys by which clusters are ordered first: the most salient first.
pub open spec fn salience_keys(saliences: Seq<Score>) -> Seq<i64> {
    saliences.map_values(|s: Score| (-s.rank()) as i64)
}

/// A copy of a cluster.
pub fn copy_cluster(c: &MemoryCluster) -> (r: MemoryCluster)
    ensures
        r.id@ == c.id@,
        r.members@ == c.members@,
        r.quality_score == c.quality_score,
        r.centroid_id@ == c.centroid_id@,
        r.signals_summary == c.signals_summary,
{
    MemoryCluster {
        id: c.id.clone(),
        members: text::clone_all(&c.members),
        quality_score: c.quality_score,
        centroid_id: c.centroid_id.clone(),
        signals_summary: c.signals_summary,
    }
}

/// Whether a cluster is a copy of another.
pub open spec fn same_cluster(a: MemoryCluster, b: MemoryCluster) -> bool {
    &&& a.id@ == b.id@
    &&& a.members@ == b.members@
    &&& a.quality_score == b.quality_score
    &&& a.centroid_id@ == b.centroid_id@
    &&& a.signals_summary == b.signals_summary
}

/// Lets emotion bear on clusters: the quality of salient ones is boosted, and
/// the most salient come first, the best before others of the same salience. The
/// saliences come computed, and so do the boosted qualities.
pub fn apply_emotional_modulation(
    clusters: Vec<MemoryCluster>,
    saliences: &Vec<Score>,
    boosts: &Vec<Score>,
    config: &EmotionalModulationConfig,
) -> (r: Vec<MemoryCluster>)
    requires
        clusters@.len() == saliences@.len(),
        clusters@.len() == boosts@.len(),
        config.prioritize_emotional ==> forall|i: int|
            0 <= i < clusters@.len() ==> !(#[trigger] saliences@[i]).nan(),
        config.prioritize_emotional ==> forall|i: int|
            0 <= i < clusters@.len() ==> !(#[trigger] all_modulated(
                clusters@,
                saliences@,
                boosts@,
                *config,
            )[i]).quality_score.nan(),
    ensures
        unmodulated(*config) ==> r@ == clusters@,
        !unmodulated(*config) ==> ({
            let m = all_modulated(clusters@, saliences@, boosts@, *config);
            if config.prioritize_emotional {
                exists|order: Seq<usize>| #[trigger]
                    ranking::is_order(order, salience_keys(saliences@), quality_keys(m)) && r@.len()
                        == order.len() && forall|i: int|
                        0 <= i < r@.len() ==> same_cluster(#[trigger] r@[i], m[order[i] as int])
            } else {
                r@ == m
            }
        }),
{
    let zero: Score = Score { bits: score::ZERO };
    let weight: Score = config.emotional_boost_weight;
    if !config.prioritize_emotional && weight.ge(&zero) && zero.ge(&weight) {
        return clusters;
    }
    let ghost m = all_modulated(clusters@, saliences@, boosts@, *config);
    let ghost given = clusters@;
    let n: usize = clusters.len();
    let mut changed: Vec<MemoryCluster> = clusters;
    let mut i: usize = 0;
    while i < n
        invariant
            i <= n,
            n == given.len(),
            n == saliences@.len(),
            n == boosts@.len(),
            zero == (Score { bits: score::ZERO }),
            weight == config.emotional_boost_weight,
            m == all_modulated(given, saliences@, boosts@, *config),
            changed@.len() == n,
            forall|k: int| 0 <= k < i ==> #[trigger] changed@[k] == m[k],
            forall|k: int| i <= k < n ==> #[trigger] changed@[k] == given[k],
        decreases n - i,
    {
        if zero.lt(&weight) && zero.lt(&saliences[i]) {
            changed[i].quality_score = boosts[i];
        }
        i += 1;
    }
    assert(changed@ =~= m);
    if !config.prioritize_emotional {
        return changed;
    }
    let mut first: Vec<i64> = Vec::new();
    let mut second: Vec<i64> = Vec::new();
    let mut k: usize = 0;
    while k < n
        invariant
            k <= n,
            n == saliences@.len(),
            changed@.len() == n,
            changed@ == m,
            forall|j: int| 0 <= j < n ==> !(#[trigger] saliences@[j]).nan(),
            forall|j: int| 0 <= j < n ==> !(#[trigger] m[j]).quality_score.nan(),
            first@ == salience_keys(saliences@).take(k as int),
            second@ == quality_keys(m).take(k as int),
        decreases n - k,
    {
        assert(!m[k as int].quality_score.nan());
        first.push(saliences[k].descending());
        second.push(changed[k].quality_score.descending());
        proof {
            assert(first@ =~= salience_keys(saliences@).take(k + 1));
            assert(second@ =~= quality_keys(m).take(k + 1));
        }
        k += 1;
    }
    assert(first@ =~= salience_keys(saliences@));
    assert(second@ =~= quality_keys(m));
    let order: Vec<usize> = order_by(&first, &second);
    let mut out: Vec<MemoryCluster> = Vec::new();
    let mut j: usize = 0;
    while j < order.len()
        invariant
            j <= order@.len(),
            order@.len() == n,
            changed@.len() == n,
            changed@ == m,
            forall|a: int| 0 <= a < order@.len() ==> (#[trigger] order@[a]) < n,
            out@.len() == j,
            forall|a: int| 0 <= a < j ==> same_cluster(#[trigger] out@[a], m[order@[a] as int]),
        decreases order.len() - j,
    {
        out.push(copy_cluster(&changed[order[j]]));
        j += 1;
    }
    assert(ranking::is_order(order@, salience_keys(saliences@), quality_keys(m)));
    out
}

// ---------------------------------------------------------------------------
// What discovery is for
// ---------------------------------------------------------------------------

/// The memories that take part in discovery are all those that were accessed,
/// are important enough and are no insights themselves, in order; of a subset,
/// all that are no insights. Where they are too few for a cluster, none does.
pub proof fn law_candidates_are_those_that_qualify(
    memories: Seq<MemoryRecord>,
    config: ClusterDiscoveryConfig,
    subset: bool,
)
    ensures
        ({
            let qualified = memories.filter(
                |m: MemoryRecord|
                    (subset || (m.access_count > 0 && m.importance.reaches(config.min_importance)))
                        && !is_insight(m),
            );
            candidates(memories, config, subset) == if qualified.len() < config.min_cluster_size {
                Seq::empty()
            } else {
                qualified
            }
        }),
{
    lemma_participants(memories, config, subset);
}

/// Whether the metadata of a memory mark it as an insight.
pub open spec fn is_insight(m: MemoryRecord) -> bool {
    exists|t: Seq<char>, e: Seq<(Seq<char>, Seq<char>)>, v: Seq<char>|
        text::opt_view(m.metadata) == Some(t) && #[trigger] json::json_level(t) == Some(
            JsonView::Object(e),
        ) && #[trigger] json::lookup(e, "is_synthesis"@) == Some(v) && #[trigger] json::json_level(
            v,
        ) == Some(JsonView::Bool(true))
}

proof fn lemma_is_output(m: MemoryRecord)
    ensures
        is_output(m) <==> is_insight(m),
{
    if is_output(m) {
        let t = text::opt_view(m.metadata)->0;
        let e = json::json_level(t)->0->Object_0;
        let v = json::lookup(e, "is_synthesis"@)->0;
        assert(json::json_level(t) == Some(JsonView::Object(e)));
        assert(json::json_level(v) == Some(JsonView::Bool(true)));
    }
}

proof fn lemma_participants(
    memories: Seq<MemoryRecord>,
    config: ClusterDiscoveryConfig,
    subset: bool,
)
    ensures
        participants(memories, config, subset) == memories.filter(
            |m: MemoryRecord|
                (subset || (m.access_count > 0 && m.importance.reaches(config.min_importance)))
                    && !is_insight(m),
        ),
    decreases memories.len(),
{
    reveal(Seq::filter);
    if memories.len() > 0 {
        lemma_participants(memories.drop_last(), config, subset);
        lemma_is_output(memories.last());
    }
}

/// A new memory joins the first of the clusters that are most similar to it, if
/// that one reaches the threshold, by default 0.6; it waits where none does.
pub proof fn law_new_memory_joins_the_most_similar(
    cluster_ids: Seq<String>,
    similarities: Seq<Score>,
    config: ClusterDiscoveryConfig,
    r: HotAssignResult,
)
    requires
        is_assignment(cluster_ids, similarities, config, r),
        cluster_ids.len() == similarities.len(),
        forall|k: int| 0 <= k < similarities.len() ==> !(#[trigger] similarities[k]).nan(),
    ensures
        ({
            let threshold = match config.hot_assign_threshold {
                Some(t) => t,
                None => Score { bits: 0x3fe3333333333333 },
            };
            match r {
                HotAssignResult::NoClusters => cluster_ids.len() == 0,
                HotAssignResult::Pending => cluster_ids.len() > 0 && forall|i: int|
                    0 <= i < similarities.len() ==> !(#[trigger] similarities[i]).reaches(
                        threshold,
                    ),
                HotAssignResult::Assigned { cluster_id, confidence } => {
                    &&& confidence.reaches(threshold)
                    &&& exists|k: int|
                        0 <= k < similarities.len() && cluster_id@ == cluster_ids[k]@ && confidence
                            == #[trigger] similarities[k] && (forall|i: int|
                            0 <= i < similarities.len() ==> !similarities[k].below(
                                #[trigger] similarities[i],
                            )) && (forall|i: int|
                            0 <= i < k ==> (#[trigger] similarities[i]).below(similarities[k]))
                },
            }
        }),
{
    if similarities.len() > 0 {
        let best = nearest(similarities);
        assert forall|i: int| 0 <= i < similarities.len() implies !similarities[best].below(
            #[trigger] similarities[i],
        ) by {
            law_assigned_to_nearest(similarities, i);
        }
        law_assigned_to_nearest(similarities, 0);
        assert forall|i: int| 0 <= i < best implies (#[trigger] similarities[i]).below(
            similarities[best],
        ) by {
            lemma_nearest_is_first(similarities, i);
        }
        assert(!similarities[best].nan());
    }
}

proof fn lemma_nearest_is_first(similarities: Seq<Score>, i: int)
    requires
        0 <= i < nearest(similarities),
        forall|k: int| 0 <= k < similarities.len() ==> !(#[trigger] similarities[k]).nan(),
    ensures
        similarities[i].below(similarities[nearest(similarities)]),
    decreases similarities.len(),
{
    if similarities.len() > 1 {
        let d = similarities.drop_last();
        assert forall|k: int| 0 <= k < d.len() implies !(#[trigger] d[k]).nan() by {
            assert(d[k] == similarities[k]);
        }
        law_assigned_to_nearest(d, 0);
        let best = nearest(d);
        assert(d[best] == similarities[best]);
        if i < d.len() {
            assert(d[i] == similarities[i]);
            law_assigned_to_nearest(d, i);
            if i < best {
                lemma_nearest_is_first(d, i);
            }
        }
        assert(!similarities[i].nan());
        assert(!similarities[similarities.len() - 1].nan());
    }
}

/// What is reclustered in part are the members of the clusters that changed and
/// the memories that wait, each once.
pub proof fn law_involved_are_members_and_pending(
    dirty_members: Seq<Vec<String>>,
    pending: Seq<String>,
    r: Seq<Seq<char>>,
    t: Seq<char>,
)
    requires
        text::is_sorted_set(r, flattened(dirty_members) + text::views(pending)),
    ensures
        r.no_duplicates(),
        r.contains(t) <==> text::views(pending).contains(t) || exists|k: int|
            0 <= k < dirty_members.len() && text::views(
                #[trigger] dirty_members[k]@,
            ).contains(t),
{
    let all = flattened(dirty_members) + text::views(pending);
    assert forall|i: int, j: int| 0 <= i < r.len() && 0 <= j < r.len() && i != j implies r[i]
        != r[j] by {
        if i < j {
            text::lemma_text_lt_irreflexive(r[i]);
            assert(text::text_lt(r[i], r[j]));
        } else {
            text::lemma_text_lt_irreflexive(r[j]);
            assert(text::text_lt(r[j], r[i]));
        }
    }
    assert(text::holds(r, t) <==> r.contains(t));
    assert(text::holds(all, t) <==> all.contains(t));
    lemma_flattened_contains(dirty_members, t);
    let f = flattened(dirty_members);
    let p = text::views(pending);
    if all.contains(t) {
        let k = choose|k: int| 0 <= k < all.len() && all[k] == t;
        if k < f.len() {
            assert(f[k] == t);
        } else {
            assert(p[k - f.len()] == t);
        }
    }
    if f.contains(t) {
        let k = choose|k: int| 0 <= k < f.len() && f[k] == t;
        assert(all[k] == t);
    }
    if p.contains(t) {
        let k = choose|k: int| 0 <= k < p.len() && p[k] == t;
        assert(all[f.len() + k] == t);
    }
}

proof fn lemma_flattened_contains(lists: Seq<Vec<String>>, t: Seq<char>)
    ensures
        flattened(lists).contains(t) <==> exists|k: int|
            0 <= k < lists.len() && text::views(#[trigger] lists[k]@).contains(t),
    decreases lists.len(),
{
    if lists.len() > 0 {
        let d = lists.drop_last();
        let a = flattened(d);
        let b = text::views(lists.last()@);
        let all = a + b;
        lemma_flattened_contains(d, t);
        if a.contains(t) {
            let k = choose|k: int|
                0 <= k < d.len() && text::views(#[trigger] d[k]@).contains(t);
            assert(lists[k] == d[k]);
            let i = choose|i: int| 0 <= i < a.len() && a[i] == t;
            assert(all[i] == t);
        }
        if b.contains(t) {
            assert(text::views(lists[lists.len() - 1]@).contains(t));
            let i = choose|i: int| 0 <= i < b.len() && b[i] == t;
            assert(all[a.len() + i] == t);
        }
        if all.contains(t) {
            let i = choose|i: int| 0 <= i < all.len() && all[i] == t;
            if i < a.len() {
                assert(a[i] == t);
            } else {
                assert(b[i - a.len()] == t);
            }
        }
        if exists|k: int| 0 <= k < lists.len() && text::views(#[trigger] lists[k]@).contains(t) {
            let k = choose|k: int|
                0 <= k < lists.len() && text::views(#[trigger] lists[k]@).contains(t);
            if k < d.len() {
                assert(text::views(d[k]@).contains(t));
            }
        }
    }
}

/// Whether a link joins the memories at two positions, in whatever direction.
pub open spec fn link_joins(ids: Seq<Seq<char>>, l: Link, a: int, b: int) -> bool {
    (l.from == a && ids[b] == l.to@) || (l.from == b && ids[a] == l.to@)
}

/// Every link between two of the memories is an edge between them, once, with
/// the weight of the first such link; and there are no other edges.
pub proof fn law_links_become_edges(
    ids: Seq<Seq<char>>,
    links: Seq<Link>,
    a: int,
    b: int,
    i: int,
)
    requires
        text::strictly_sorted(ids),
        ids.len() <= usize::MAX,
        forall|k: int| 0 <= k < links.len() ==> (#[trigger] links[k]).from < ids.len(),
        0 <= a <= b < ids.len(),
    ensures
        0 <= i < links.len() && link_joins(ids, links[i], a, b) && (forall|k: int|
            0 <= k < i ==> !link_joins(ids, #[trigger] links[k], a, b)) ==> link_map(
            ids,
            links,
        ).contains(Edge { lo: a as usize, hi: b as usize, weight: links[i].weight }),
        (exists|e: int|
            0 <= e < link_map(ids, links).len() && (#[trigger] link_map(ids, links)[e]).lo == a
                && link_map(ids, links)[e].hi == b) <==> exists|k: int|
            0 <= k < links.len() && link_joins(ids, #[trigger] links[k], a, b),
    decreases links.len(),
{
    if links.len() > 0 {
        let d = links.drop_last();
        let l = links.last();
        let n = links.len() - 1;
        let rest = link_map(ids, d);
        let all = link_map(ids, links);
        assert forall|k: int| 0 <= k < d.len() implies (#[trigger] d[k]).from < ids.len() by {
            assert(d[k] == links[k]);
        }
        law_links_become_edges(ids, d, a, b, i);
        lemma_link_place(ids, l, a, b);
        let joined = link_joins(ids, l, a, b);
        // What was there before stays.
        assert(forall|e: int| 0 <= e < rest.len() ==> #[trigger] all[e] == rest[e]);
        let before = exists|e: int|
            0 <= e < rest.len() && (#[trigger] rest[e]).lo == a && rest[e].hi == b;
        assert(before <==> has_edge(rest, (a, b)));
        if before {
            let e = choose|e: int|
                0 <= e < rest.len() && (#[trigger] rest[e]).lo == a && rest[e].hi == b;
            assert(all[e] == rest[e]);
            let k = choose|k: int| 0 <= k < d.len() && link_joins(ids, #[trigger] d[k], a, b);
            assert(link_joins(ids, links[k], a, b));
        } else if joined {
            let e = Edge { lo: a as usize, hi: b as usize, weight: l.weight };
            assert(all == rest.push(e));
            assert(all[rest.len() as int] == e);
            assert(link_joins(ids, links[n], a, b));
        } else {
            assert forall|e: int| 0 <= e < all.len() implies !((#[trigger] all[e]).lo == a
                && all[e].hi == b) by {
                if e < rest.len() {
                    assert(all[e] == rest[e]);
                }
            }
            assert forall|k: int| 0 <= k < links.len() implies !link_joins(
                ids,
                #[trigger] links[k],
                a,
                b,
            ) by {
                if k < d.len() {
                    assert(links[k] == d[k]);
                }
            }
        }
        if 0 <= i < links.len() && link_joins(ids, links[i], a, b) && (forall|k: int|
            0 <= k < i ==> !link_joins(ids, #[trigger] links[k], a, b)) {
            if i < d.len() {
                assert(forall|k: int|
                    0 <= k < i ==> !link_joins(ids, #[trigger] d[k], a, b)) by {
                    assert forall|k: int| 0 <= k < i implies !link_joins(
                        ids,
                        #[trigger] d[k],
                        a,
                        b,
                    ) by {
                        assert(d[k] == links[k]);
                    }
                }
                let e = Edge { lo: a as usize, hi: b as usize, weight: links[i].weight };
                let at = choose|at: int| 0 <= at < rest.len() && rest[at] == e;
                assert(all[at] == e);
            } else {
                assert forall|k: int| 0 <= k < d.len() implies !link_joins(
                    ids,
                    #[trigger] d[k],
                    a,
                    b,
                ) by {
                    assert(d[k] == links[k]);
                }
                assert(!before);
            }
        }
    }
}

proof fn lemma_link_place(ids: Seq<Seq<char>>, l: Link, a: int, b: int)
    requires
        text::strictly_sorted(ids),
        ids.len() <= usize::MAX,
        l.from < ids.len(),
        0 <= a <= b < ids.len(),
    ensures
        link_joins(ids, l, a, b) <==> (place_of(ids, l.to@) matches Some(j) && in_order(
            l.from as int,
            j,
        ) == (a, b)),
        place_of(ids, l.to@) matches Some(j) ==> 0 <= j < ids.len(),
{
    if link_joins(ids, l, a, b) {
        let other = if l.from == a && ids[b] == l.to@ {
            b
        } else {
            a
        };
        assert(ids[other] == l.to@);
        assert(text::holds(ids, l.to@));
    }
    if text::holds(ids, l.to@) {
        let j = choose|i: int| 0 <= i < ids.len() && #[trigger] ids[i] == l.to@;
        assert forall|k: int| 0 <= k < ids.len() && #[trigger] ids[k] == l.to@ implies k == j by {
            text::lemma_text_lt_irreflexive(l.to@);
            if k < j {
                assert(text::text_lt(ids[k], ids[j]));
            } else if j < k {
                assert(text::text_lt(ids[j], ids[k]));
            }
        }
    }
}

/// Two memories are compared where they are linked, mention the same entity or
/// are neighbours, and for no other reason.
pub proof fn law_related_memories_are_compared(
    linked: Seq<Edge>,
    entities: Seq<Vec<String>>,
    neighbours: Seq<Pair>,
    pairs: Seq<Pair>,
    a: usize,
    b: usize,
)
    requires
        a < b < entities.len(),
        forall|p: (int, int)| #[trigger]
            has_pair(pairs, p) <==> is_candidate_pair(linked, entities, neighbours, p),
    ensures
        pairs.contains((a, b)) <==> (exists|k: int|
            0 <= k < linked.len() && (#[trigger] linked[k]).lo == a && linked[k].hi == b) || (
        exists|i: int, j: int|
            0 <= i < entities[a as int]@.len() && 0 <= j < entities[b as int]@.len() && (
            #[trigger] entities[a as int]@[i])@ == (#[trigger] entities[b as int]@[j])@)
            || neighbours.contains((a, b)) || neighbours.contains((b, a)),
{
    let p = (a as int, b as int);
    assert(has_pair(pairs, p) <==> is_candidate_pair(linked, entities, neighbours, p));
    if pairs.contains((a, b)) {
        let k = choose|k: int| 0 <= k < pairs.len() && pairs[k] == (a, b);
        assert(pairs[k].0 == p.0 && pairs[k].1 == p.1);
    }
    if has_pair(pairs, p) {
        let k = choose|k: int|
            0 <= k < pairs.len() && (#[trigger] pairs[k]).0 == p.0 && pairs[k].1 == p.1;
        assert(pairs[k] == (a, b));
    }
    let x = text::views(entities[a as int]@);
    let y = text::views(entities[b as int]@);
    if share_entity(entities, p.0, p.1) {
        let t = choose|t: Seq<char>| #[trigger] text::holds(x, t) && text::holds(y, t);
        let i = choose|i: int| 0 <= i < x.len() && #[trigger] x[i] == t;
        let j = choose|j: int| 0 <= j < y.len() && #[trigger] y[j] == t;
        assert(entities[a as int]@[i]@ == entities[b as int]@[j]@);
    }
    if exists|i: int, j: int|
        0 <= i < entities[a as int]@.len() && 0 <= j < entities[b as int]@.len() && (
        #[trigger] entities[a as int]@[i])@ == (#[trigger] entities[b as int]@[j])@ {
        let (i, j) = choose|i: int, j: int|
            0 <= i < entities[a as int]@.len() && 0 <= j < entities[b as int]@.len() && (
            #[trigger] entities[a as int]@[i])@ == (#[trigger] entities[b as int]@[j])@;
        let t = entities[a as int]@[i]@;
        assert(x[i] == t && y[j] == t);
        assert(text::holds(x, t) && text::holds(y, t));
    }
    if neighbours.contains((a, b)) {
        let k = choose|k: int| 0 <= k < neighbours.len() && neighbours[k] == (a, b);
        assert(in_order(neighbours[k].0 as int, neighbours[k].1 as int) == p);
    }
    if neighbours.contains((b, a)) {
        let k = choose|k: int| 0 <= k < neighbours.len() && neighbours[k] == (b, a);
        assert(in_order(neighbours[k].0 as int, neighbours[k].1 as int) == p);
    }
    if neighbours_hold(neighbours, p) {
        let k = choose|k: int|
            0 <= k < neighbours.len() && in_order(
                (#[trigger] neighbours[k]).0 as int,
                neighbours[k].1 as int,
            ) == p;
        assert(neighbours[k] == (a, b) || neighbours[k] == (b, a));
    }
}

/// The weight between two memories is that of the first edge between them.
pub proof fn law_weight_is_the_first_edges(edges: Seq<Edge>, p: (int, int), i: int)
    ensures
        0 <= i < edges.len() && edges[i].lo == p.0 && edges[i].hi == p.1 && (forall|k: int|
            0 <= k < i ==> !((#[trigger] edges[k]).lo == p.0 && edges[k].hi == p.1)) ==> weight_of(
            edges,
            p,
        ) == Some(edges[i].weight),
        weight_of(edges, p) is None <==> forall|k: int|
            0 <= k < edges.len() ==> !((#[trigger] edges[k]).lo == p.0 && edges[k].hi == p.1),
    decreases edges.len(),
{
    if edges.len() > 0 {
        let d = edges.drop_last();
        law_weight_is_the_first_edges(d, p, i);
        assert(forall|k: int| 0 <= k < d.len() ==> #[trigger] d[k] == edges[k]);
        if weight_of(d, p) is None {
            if !(edges.last().lo == p.0 && edges.last().hi == p.1) {
                assert forall|k: int| 0 <= k < edges.len() implies !((#[trigger] edges[k]).lo
                    == p.0 && edges[k].hi == p.1) by {
                    if k < d.len() {
                        assert(d[k] == edges[k]);
                    }
                }
            } else {
                assert(edges[edges.len() - 1].lo == p.0);
            }
        } else {
            let k = choose|k: int|
                0 <= k < d.len() && (#[trigger] d[k]).lo == p.0 && d[k].hi == p.1;
            assert(edges[k].lo == p.0 && edges[k].hi == p.1);
        }
        if 0 <= i < edges.len() && edges[i].lo == p.0 && edges[i].hi == p.1 && (forall|k: int|
            0 <= k < i ==> !((#[trigger] edges[k]).lo == p.0 && edges[k].hi == p.1)) {
            assert forall|k: int| 0 <= k < i && k < d.len() implies !((#[trigger] d[k]).lo == p.0
                && d[k].hi == p.1) by {
                assert(d[k] == edges[k]);
            }
            if i < d.len() {
                assert(d[i] == edges[i]);
            }
        }
    }
}

/// Two memories are joined by an edge, with their relatedness as its weight,
/// exactly where that reaches the threshold.
pub proof fn law_related_enough_become_edges(
    pairs: Seq<Pair>,
    scores: Seq<Score>,
    threshold: Score,
    e: Edge,
)
    requires
        pairs.len() == scores.len(),
    ensures
        edges_of(pairs, scores, threshold).contains(e) <==> exists|k: int|
            0 <= k < pairs.len() && #[trigger] pairs[k] == (e.lo, e.hi) && scores[k] == e.weight
                && scores[k].reaches(threshold),
        edges_of(pairs, scores, threshold).len() == scores.filter(
            |s: Score| s.reaches(threshold),
        ).len(),
{
    lemma_edges_of(pairs, scores, threshold, e);
    assert(scores.take(pairs.len() as int) =~= scores);
}

proof fn lemma_edges_of(pairs: Seq<Pair>, scores: Seq<Score>, threshold: Score, e: Edge)
    requires
        pairs.len() <= scores.len(),
    ensures
        edges_of(pairs, scores, threshold).contains(e) <==> exists|k: int|
            0 <= k < pairs.len() && #[trigger] pairs[k] == (e.lo, e.hi) && scores[k] == e.weight
                && scores[k].reaches(threshold),
        edges_of(pairs, scores, threshold).len() == scores.take(pairs.len() as int).filter(
            |s: Score| s.reaches(threshold),
        ).len(),
    decreases pairs.len(),
{
    reveal(Seq::filter);
    if pairs.len() > 0 {
        let d = pairs.drop_last();
        let n = pairs.len() - 1;
        let rest = edges_of(d, scores, threshold);
        let all = edges_of(pairs, scores, threshold);
        lemma_edges_of(d, scores, threshold, e);
        assert(scores.take(pairs.len() as int).drop_last() =~= scores.take(n));
        assert(scores.take(pairs.len() as int).last() == scores[n]);
        if rest.contains(e) {
            let i = choose|i: int| 0 <= i < rest.len() && rest[i] == e;
            assert(all[i] == e);
            let k = choose|k: int|
                0 <= k < d.len() && #[trigger] d[k] == (e.lo, e.hi) && scores[k] == e.weight
                    && scores[k].reaches(threshold);
            assert(pairs[k] == (e.lo, e.hi));
        }
        if exists|k: int|
            0 <= k < pairs.len() && #[trigger] pairs[k] == (e.lo, e.hi) && scores[k] == e.weight
                && scores[k].reaches(threshold) {
            let k = choose|k: int|
                0 <= k < pairs.len() && #[trigger] pairs[k] == (e.lo, e.hi) && scores[k] == e.weight
                    && scores[k].reaches(threshold);
            if k < n {
                assert(d[k] == (e.lo, e.hi));
            } else {
                assert(all[rest.len() as int] == e);
            }
        }
        if all.contains(e) && !rest.contains(e) {
            let i = choose|i: int| 0 <= i < all.len() && all[i] == e;
            if i < rest.len() {
                assert(rest[i] == e);
            }
            assert(pairs[n] == (e.lo, e.hi));
        }
    }
}

/// A limit that is not set is the whole number from 5 to 30 nearest to the root
/// of the number of nodes: the root lies on its side of the middle between it
/// and any other.
pub proof fn law_limit_is_nearest_to_the_root(n: int, k: int, other: int)
    requires
        adaptive(n, k),
        5 <= other <= 30,
    ensures
        5 <= k <= 30,
        k < other ==> 4 * n <= (k + other) * (k + other),
        other < k ==> 4 * n >= (k + other) * (k + other),
{
    if k < other {
        assert((k + other) * (k + other) >= 4 * (k * (k + 1))) by (nonlinear_arith)
            requires
                5 <= k,
                k + 1 <= other,
        ;
        assert(k * (k + 1) == k * k + k) by (nonlinear_arith);
    } else if other < k {
        assert((k + other) * (k + other) <= 4 * (k * (k - 1)) + 1) by (nonlinear_arith)
            requires
                5 <= other,
                other + 1 <= k,
        ;
    }
}

/// Edges are dropped only where both ends have more than `k` of them: a network
/// in which every edge has an end with at most `k` edges is kept whole.
pub proof fn law_sparse_networks_are_kept(edges: Seq<Edge>, k: nat)
    requires
        forall|i: int|
            0 <= i < edges.len() ==> degree(edges, (#[trigger] edges[i]).lo as int) <= k || degree(
                edges,
                edges[i].hi as int,
            ) <= k,
    ensures
        kept_edges(edges, k) == edges,
    decreases edges.len(),
{
    if edges.len() > 0 {
        let d = edges.drop_last();
        assert forall|i: int| 0 <= i < d.len() implies degree(d, (#[trigger] d[i]).lo as int) <= k
            || degree(d, d[i].hi as int) <= k by {
            assert(d[i] == edges[i]);
        }
        law_sparse_networks_are_kept(d, k);
        assert(edges[edges.len() - 1] == edges.last());
        assert(d.push(edges.last()) =~= edges);
    }
}

/// The degree of a node counts the edges that end there.
pub proof fn law_degree_counts_ends(edges: Seq<Edge>, v: int)
    ensures
        degree(edges, v) == edges.filter(|e: Edge| e.lo == v).len() + edges.filter(
            |e: Edge| e.hi == v,
        ).len(),
    decreases edges.len(),
{
    reveal(Seq::filter);
    if edges.len() > 0 {
        law_degree_counts_ends(edges.drop_last(), v);
    }
}

spec fn capped_degrees(edges: Seq<Edge>, k: nat, n: nat) -> nat
    decreases n,
{
    if n == 0 {
        0
    } else {
        capped_degrees(edges, k, (n - 1) as nat) + capped(degree(edges, n - 1), k)
    }
}

proof fn lemma_capped_grows(edges: Seq<Edge>, e: Edge, k: nat, n: nat)
    ensures
        capped_degrees(edges.push(e), k, n) >= capped_degrees(edges, k, n),
        e.lo < n && degree(edges, e.lo as int) < k || e.hi < n && degree(edges, e.hi as int) < k
            ==> capped_degrees(edges.push(e), k, n) > capped_degrees(edges, k, n),
    decreases n,
{
    assert(edges.push(e).drop_last() =~= edges);
    if n > 0 {
        lemma_capped_grows(edges, e, k, (n - 1) as nat);
        assert(degree(edges.push(e), n - 1) == degree(edges, n - 1) + ends_at(e, n - 1));
    }
}

proof fn lemma_capped_bound(edges: Seq<Edge>, k: nat, n: nat)
    ensures
        capped_degrees(edges, k, n) <= k * n,
    decreases n,
{
    if n > 0 {
        lemma_capped_bound(edges, k, (n - 1) as nat);
        assert(k * (n - 1) + k == k * n) by (nonlinear_arith);
    } else {
        assert(k * 0 == 0) by (nonlinear_arith);
    }
}

/// No more edges are kept than `k` for every node.
pub proof fn law_kept_edges_are_few(edges: Seq<Edge>, k: nat, n: nat)
    requires
        forall|i: int|
            0 <= i < edges.len() ==> (#[trigger] edges[i]).lo < n && edges[i].hi < n,
    ensures
        kept_edges(edges, k).len() <= k * n,
        forall|e: Edge| kept_edges(edges, k).contains(e) ==> edges.contains(e),
{
    lemma_kept_capped(edges, k, n);
    lemma_capped_bound(kept_edges(edges, k), k, n);
}

proof fn lemma_kept_capped(edges: Seq<Edge>, k: nat, n: nat)
    requires
        forall|i: int|
            0 <= i < edges.len() ==> (#[trigger] edges[i]).lo < n && edges[i].hi < n,
    ensures
        kept_edges(edges, k).len() <= capped_degrees(kept_edges(edges, k), k, n),
        forall|e: Edge| kept_edges(edges, k).contains(e) ==> edges.contains(e),
    decreases edges.len(),
{
    if edges.len() > 0 {
        let d = edges.drop_last();
        let kept = kept_edges(d, k);
        let all = kept_edges(edges, k);
        assert forall|i: int| 0 <= i < d.len() implies (#[trigger] d[i]).lo < n && d[i].hi < n by {
            assert(d[i] == edges[i]);
        }
        lemma_kept_capped(d, k, n);
        assert(edges[edges.len() - 1] == edges.last());
        lemma_capped_grows(kept, edges.last(), k, n);
        assert forall|e: Edge| all.contains(e) implies edges.contains(e) by {
            let i = choose|i: int| 0 <= i < all.len() && all[i] == e;
            if i < kept.len() {
                assert(kept[i] == e);
                assert(kept.contains(e));
                assert(d.contains(e));
                let j = choose|j: int| 0 <= j < d.len() && d[j] == e;
                assert(edges[j] == e);
            }
        }
    }
}

/// Community detection is run as the settings say; where they say nothing, once
/// on a network with less than five edges for a node and three times on a denser
/// one, and in levels on more than 2000 nodes.
pub proof fn law_params_follow_settings(
    node_count: usize,
    edge_count: usize,
    config: ClusterDiscoveryConfig,
)
    ensures
        config.infomap_trials matches Some(t) ==> params_of(
            node_count,
            edge_count,
            config,
        ).trials == t,
        config.infomap_trials is None ==> params_of(node_count, edge_count, config).trials == (if 0
            < 5 * node_count && 5 * node_count <= edge_count {
            3int
        } else {
            1
        }),
        config.infomap_hierarchical matches Some(h) ==> params_of(
            node_count,
            edge_count,
            config,
        ).hierarchical == h,
        config.infomap_hierarchical is None ==> (params_of(
            node_count,
            edge_count,
            config,
        ).hierarchical <==> node_count >= 2001),
{
}

/// The nodes of a module, when they are enough for a cluster and not too many,
/// are a community by themselves; no node of another module is in it.
pub proof fn law_modules_become_communities(
    assignments: Seq<usize>,
    total: int,
    least: nat,
    greatest: nat,
    x: int,
)
    requires
        0 <= x < total <= assignments.len() <= usize::MAX,
        least <= assignments.take(total).filter(|m: usize| m == assignments[x]).len() <= greatest,
    ensures
        exists|g: int|
            0 <= g < communities(assignments, total, least, greatest, total).len() && forall|y: int|
                0 <= y < total ==> ((#[trigger] communities(
                    assignments,
                    total,
                    least,
                    greatest,
                    total,
                )[g]).contains(y as usize) <==> #[trigger] assignments[y] == assignments[x]),
{
    let module = assignments[x];
    let nodes = module_nodes(assignments, module, total);
    lemma_module_size(assignments, module, total);
    assert((|m: usize| m == assignments[x]) =~= (|m: usize| m == module));
    assert(assignments[x] == module);
    assert(module_seen(assignments, module, total));
    lemma_module_found(assignments, total, least, greatest, total, module);
    let all = communities(assignments, total, least, greatest, total);
    let g = choose|g: int| 0 <= g < all.len() && #[trigger] all[g] == truncated(nodes, greatest);
    assert(all[g] == nodes);
    assert forall|y: int| 0 <= y < total implies (all[g].contains(y as usize)
        <==> #[trigger] assignments[y] == module) by {
        lemma_module_contains(assignments, module, total, y);
    }
}

/// A community larger than the greatest size is cut to its first nodes.
pub proof fn law_large_modules_are_cut(
    assignments: Seq<usize>,
    total: int,
    least: nat,
    greatest: nat,
    x: int,
)
    requires
        0 <= x < total <= assignments.len() <= usize::MAX,
        least <= assignments.take(total).filter(|m: usize| m == assignments[x]).len(),
        greatest < assignments.take(total).filter(|m: usize| m == assignments[x]).len(),
    ensures
        exists|g: int|
            0 <= g < communities(assignments, total, least, greatest, total).len() && (
            #[trigger] communities(assignments, total, least, greatest, total)[g]).len()
                == greatest && forall|k: int|
                0 <= k < greatest ==> assignments[#[trigger] communities(
                    assignments,
                    total,
                    least,
                    greatest,
                    total,
                )[g][k] as int] == assignments[x],
{
    let module = assignments[x];
    let nodes = module_nodes(assignments, module, total);
    lemma_module_size(assignments, module, total);
    assert((|m: usize| m == assignments[x]) =~= (|m: usize| m == module));
    assert(assignments[x] == module);
    assert(module_seen(assignments, module, total));
    lemma_module_found(assignments, total, least, greatest, total, module);
    let all = communities(assignments, total, least, greatest, total);
    let g = choose|g: int| 0 <= g < all.len() && #[trigger] all[g] == truncated(nodes, greatest);
    assert forall|k: int| 0 <= k < greatest implies assignments[#[trigger] all[g][k] as int]
        == module by {
        assert(all[g][k] == nodes[k]);
        lemma_module_nodes(assignments, module, total, k);
    }
}

proof fn lemma_module_size(assignments: Seq<usize>, module: usize, n: int)
    requires
        0 <= n <= assignments.len(),
    ensures
        module_nodes(assignments, module, n).len() == assignments.take(n).filter(
            |m: usize| m == module,
        ).len(),
    decreases n,
{
    reveal(Seq::filter);
    if n > 0 {
        lemma_module_size(assignments, module, n - 1);
        assert(assignments.take(n).drop_last() =~= assignments.take(n - 1));
    }
}

proof fn lemma_module_contains(assignments: Seq<usize>, module: usize, n: int, y: int)
    requires
        0 <= y < n <= assignments.len() <= usize::MAX,
    ensures
        module_nodes(assignments, module, n).contains(y as usize) <==> assignments[y] == module,
    decreases n,
{
    let all = module_nodes(assignments, module, n);
    let rest = module_nodes(assignments, module, n - 1);
    if all.contains(y as usize) {
        let k = choose|k: int| 0 <= k < all.len() && all[k] == y as usize;
        lemma_module_nodes(assignments, module, n, k);
    }
    if assignments[y] == module {
        if y == n - 1 {
            assert(all[rest.len() as int] == y as usize);
        } else {
            lemma_module_contains(assignments, module, n - 1, y);
            let k = choose|k: int| 0 <= k < rest.len() && rest[k] == y as usize;
            assert(all[k] == y as usize);
        }
    }
}

proof fn lemma_module_found(
    assignments: Seq<usize>,
    total: int,
    least: nat,
    greatest: nat,
    n: int,
    module: usize,
)
    requires
        0 <= n <= total <= assignments.len(),
        module_seen(assignments, module, n),
        module_nodes(assignments, module, total).len() >= least,
    ensures
        exists|g: int|
            0 <= g < communities(assignments, total, least, greatest, n).len()
                && #[trigger] communities(assignments, total, least, greatest, n)[g] == truncated(
                module_nodes(assignments, module, total),
                greatest,
            ),
    decreases n,
{
    if n > 0 {
        let rest = communities(assignments, total, least, greatest, n - 1);
        let all = communities(assignments, total, least, greatest, n);
        let wanted = truncated(module_nodes(assignments, module, total), greatest);
        if module_seen(assignments, module, n - 1) {
            lemma_module_found(assignments, total, least, greatest, n - 1, module);
            let g = choose|g: int| 0 <= g < rest.len() && #[trigger] rest[g] == wanted;
            assert(all[g] == wanted);
        } else {
            let k = choose|k: int| 0 <= k < n && #[trigger] assignments[k] == module;
            if k < n - 1 {
                assert(assignments[k] == module);
            }
            assert(assignments[n - 1] == module);
            assert(all[rest.len() as int] == wanted);
        }
    }
}

/// The edges within a cluster are those with both ends among its members.
pub proof fn law_inner_edges_have_both_ends_inside(edges: Seq<Edge>, members: Seq<usize>, k: int)
    requires
        0 <= k < edges.len() <= usize::MAX,
    ensures
        inner_edges(edges, members).contains(k as usize) <==> members.contains(edges[k].lo)
            && members.contains(edges[k].hi),
        inner_edges(edges, members).len() == edges.filter(
            |e: Edge| members.contains(e.lo) && members.contains(e.hi),
        ).len(),
    decreases edges.len(),
{
    lemma_inner_count(edges, members);
    let d = edges.drop_last();
    let n = edges.len() - 1;
    let rest = inner_edges(d, members);
    let all = inner_edges(edges, members);
    lemma_inner_below(d, members);
    if k < n {
        law_inner_edges_have_both_ends_inside(d, members, k);
        assert(d[k] == edges[k]);
        if rest.contains(k as usize) {
            let i = choose|i: int| 0 <= i < rest.len() && rest[i] == k as usize;
            assert(all[i] == k as usize);
        }
        if all.contains(k as usize) {
            let i = choose|i: int| 0 <= i < all.len() && all[i] == k as usize;
            assert(i < rest.len());
            assert(rest[i] == k as usize);
        }
    } else {
        if members.contains(edges[k].lo) && members.contains(edges[k].hi) {
            assert(all[rest.len() as int] == k as usize);
        } else if all.contains(k as usize) {
            let i = choose|i: int| 0 <= i < all.len() && all[i] == k as usize;
            assert(rest[i] < n);
        }
    }
}

proof fn lemma_inner_below(edges: Seq<Edge>, members: Seq<usize>)
    requires
        edges.len() <= usize::MAX,
    ensures
        forall|i: int|
            0 <= i < inner_edges(edges, members).len() ==> (#[trigger] inner_edges(
                edges,
                members,
            )[i]) < edges.len(),
    decreases edges.len(),
{
    if edges.len() > 0 {
        let rest = inner_edges(edges.drop_last(), members);
        let all = inner_edges(edges, members);
        lemma_inner_below(edges.drop_last(), members);
        assert forall|i: int| 0 <= i < all.len() implies (#[trigger] all[i]) < edges.len() by {
            if i < rest.len() {
                assert(all[i] == rest[i]);
            }
        }
    }
}

proof fn lemma_inner_count(edges: Seq<Edge>, members: Seq<usize>)
    ensures
        inner_edges(edges, members).len() == edges.filter(
            |e: Edge| members.contains(e.lo) && members.contains(e.hi),
        ).len(),
    decreases edges.len(),
{
    reveal(Seq::filter);
    if edges.len() > 0 {
        lemma_inner_count(edges.drop_last(), members);
    }
}

/// The members with entities are counted one by one.
pub proof fn law_members_with_entities_are_counted(
    entities: Seq<Vec<String>>,
    members: Seq<usize>,
)
    ensures
        with_entities(entities, members) == members.filter(
            |m: usize| entities[m as int]@.len() > 0,
        ).len(),
    decreases members.len(),
{
    reveal(Seq::filter);
    if members.len() > 0 {
        law_members_with_entities_are_counted(entities, members.drop_last());
    }
}

/// The centroid of a cluster is the member that is most related to the others:
/// its average is one that no other average exceeds, and the first such. Where
/// no member has an average it is the first member.
pub proof fn law_centroid_is_most_related(
    r: Option<MemoryCluster>,
    members: Seq<String>,
    averages: Seq<Option<Score>>,
    quality: Score,
    signals: SignalsSummary,
    min_cluster_size: nat,
)
    requires
        is_cluster_of(r, members, averages, quality, signals, min_cluster_size),
        members.len() == averages.len(),
        r is Some,
    ensures
        (forall|i: int| 0 <= i < averages.len() ==> (#[trigger] averages[i]) is None) ==> (
        r->0).centroid_id@ == members[0]@,
        (exists|i: int| 0 <= i < averages.len() && (#[trigger] averages[i]) is Some) ==> exists|
            c: int,
        |
            0 <= c < members.len() && (r->0).centroid_id@ == members[c]@ && (
            #[trigger] averages[c]) is Some && (forall|i: int|
                0 <= i < averages.len() && (#[trigger] averages[i]) is Some ==> !(
                averages[c]->0).below(averages[i]->0)) && (forall|i: int|
                0 <= i < c && (#[trigger] averages[i]) is Some && !(averages[i]->0).nan() ==> (
                averages[i]->0).below(averages[c]->0)),
{
    lemma_central(averages);
    match central(averages) {
        Some(c) => {
            assert(averages[c] is Some);
        },
        None => {},
    }
}

proof fn lemma_central(averages: Seq<Option<Score>>)
    ensures
        match central(averages) {
            None => forall|i: int| 0 <= i < averages.len() ==> (#[trigger] averages[i]) is None,
            Some(c) => {
                &&& 0 <= c < averages.len()
                &&& averages[c] is Some
                &&& forall|i: int|
                    0 <= i < averages.len() && (#[trigger] averages[i]) is Some ==> !(
                    averages[c]->0).below(averages[i]->0)
                &&& forall|i: int|
                    0 <= i < c && (#[trigger] averages[i]) is Some && !(averages[i]->0).nan() ==> (
                    averages[i]->0).below(averages[c]->0)
            },
        },
    decreases averages.len(),
{
    if averages.len() > 0 {
        let d = averages.drop_last();
        lemma_central(d);
        assert(forall|i: int| 0 <= i < d.len() ==> #[trigger] d[i] == averages[i]);
        let n = averages.len() - 1;
        match central(averages) {
            None => {
                assert forall|i: int| 0 <= i < averages.len() implies (
                #[trigger] averages[i]) is None by {
                    if i < n {
                        assert(d[i] == averages[i]);
                    }
                }
            },
            Some(c) => {
                assert forall|i: int|
                    0 <= i < averages.len() && (#[trigger] averages[i]) is Some implies !(
                averages[c]->0).below(averages[i]->0) by {
                    if i < n {
                        assert(d[i] == averages[i]);
                    }
                }
                assert forall|i: int|
                    0 <= i < c && (#[trigger] averages[i]) is Some && !(
                    averages[i]->0).nan() implies (averages[i]->0).below(averages[c]->0) by {
                    assert(d[i] == averages[i]);
                }
            },
        }
    }
}

/// A cluster is built exactly where there are enough members. It holds each of
/// them, as often as it was given, and the quality and the signals that it was
/// given; and its centroid is one of its members.
pub proof fn law_cluster_holds_its_members(
    r: Option<MemoryCluster>,
    members: Seq<String>,
    averages: Seq<Option<Score>>,
    quality: Score,
    signals: SignalsSummary,
    min_cluster_size: nat,
    t: Seq<char>,
)
    requires
        is_cluster_of(r, members, averages, quality, signals, min_cluster_size),
        members.len() == averages.len(),
        members.len() > 0,
    ensures
        r is Some <==> members.len() >= min_cluster_size,
        r matches Some(c) ==> {
            &&& c.members@.len() == members.len()
            &&& text::views(c.members@).contains(t) <==> text::views(members).contains(t)
            &&& c.quality_score == quality
            &&& c.signals_summary == signals
            &&& text::views(c.members@).contains(c.centroid_id@)
        },
{
    if r is Some {
        let c = r->0;
        let a = text::views(c.members@);
        let b = text::views(members);
        a.to_multiset_ensures();
        b.to_multiset_ensures();
        assert(a.len() == b.len());
        assert(a.contains(t) <==> a.to_multiset().count(t) > 0);
        assert(b.contains(t) <==> b.to_multiset().count(t) > 0);
        lemma_central(averages);
        let at = match central(averages) {
            Some(i) => i,
            None => 0,
        };
        let centroid = c.centroid_id@;
        assert(b[at] == centroid);
        assert(b.contains(centroid));
        assert(a.contains(centroid) <==> a.to_multiset().count(centroid) > 0);
        assert(b.contains(centroid) <==> b.to_multiset().count(centroid) > 0);
    }
}

/// The id of a cluster is a word and sixteen hexadecimal digits behind it.
pub proof fn law_cluster_id_form(members: Seq<Seq<char>>)
    ensures
        text::starts(cluster_id(members), "cluster-"@),
        cluster_id(members).len() == 24,
        forall|k: int|
            8 <= k < 24 ==> '0' <= #[trigger] cluster_id(members)[k] <= '9' || 'a' <= cluster_id(
                members,
            )[k] <= 'f',
{
    reveal_strlit("cluster-");
    let n = hashing::hash_of_list(members) as int;
    let id = cluster_id(members);
    hashing::lemma_hex_digits(n, 16);
    assert(id.take(8) =~= "cluster-"@);
    assert forall|k: int| 8 <= k < 24 implies '0' <= #[trigger] id[k] <= '9' || 'a' <= id[k]
        <= 'f' by {
        assert(id[k] == hashing::hex(n, 16)[k - 8]);
    }
}

/// The contribution of a signal, by its name.
pub open spec fn contribution(s: ClusterSignal, h: Score, e: Score, m: Score, t: Score) -> Score {
    match s {
        ClusterSignal::Hebbian => h,
        ClusterSignal::Entity => e,
        ClusterSignal::Embedding => m,
        ClusterSignal::Temporal => t,
    }
}

/// The dominant signal is the one that contributes most; of equal ones that which
/// comes first among links, entities, embeddings and times.
pub proof fn law_dominant_contributes_most(h: Score, e: Score, m: Score, t: Score)
    requires
        !h.nan() && !e.nan() && !m.nan() && !t.nan(),
    ensures
        contribution(dominant(h, e, m, t), h, e, m, t).reaches(h),
        contribution(dominant(h, e, m, t), h, e, m, t).reaches(e),
        contribution(dominant(h, e, m, t), h, e, m, t).reaches(m),
        contribution(dominant(h, e, m, t), h, e, m, t).reaches(t),
        dominant(h, e, m, t) is Entity ==> h.below(e),
        dominant(h, e, m, t) is Embedding ==> h.below(m) && e.below(m),
        dominant(h, e, m, t) is Temporal ==> h.below(t) && e.below(t) && m.below(t),
{
}

/// The emotional valence of a memory counts without its sign.
pub proof fn law_valence_has_no_sign(m: MemoryRecord, metadata: Seq<char>, e: Seq<
    (Seq<char>, Seq<char>),
>, v: Seq<char>, bits: u64)
    requires
        text::opt_view(m.metadata) == Some(metadata),
        json::json_level(metadata) == Some(JsonView::Object(e)),
        json::lookup(e, "emotional_valence"@) == Some(v),
        json::json_double(v) == Some(bits),
    ensures
        valence(m) is Some,
        (valence(m)->0).magnitude() == (Score { bits }).magnitude(),
        (valence(m)->0).rank() >= 0,
{
}

/// Emotion changes nothing of a cluster but its quality, and that only where
/// emotion is given weight and the cluster is salient; then it is the boosted
/// one.
pub proof fn law_emotion_boosts_salient_clusters(
    c: MemoryCluster,
    salience: Score,
    boosted_quality: Score,
    config: EmotionalModulationConfig,
)
    ensures
        modulated(c, salience, boosted_quality, config).id == c.id,
        modulated(c, salience, boosted_quality, config).members == c.members,
        modulated(c, salience, boosted_quality, config).centroid_id == c.centroid_id,
        modulated(c, salience, boosted_quality, config).signals_summary == c.signals_summary,
        modulated(c, salience, boosted_quality, config).quality_score == if (Score {
            bits: 0,
        }).below(config.emotional_boost_weight) && (Score { bits: 0 }).below(salience) {
            boosted_quality
        } else {
            c.quality_score
        },
{
}

/// Where emotion is to come first, the most salient clusters come first, and of
/// equally salient ones the best; and each cluster is there once.
pub proof fn law_salient_clusters_come_first(
    clusters: Seq<MemoryCluster>,
    saliences: Seq<Score>,
    boosts: Seq<Score>,
    config: EmotionalModulationConfig,
    order: Seq<usize>,
    i: int,
    j: int,
)
    requires
        clusters.len() == saliences.len(),
        clusters.len() == boosts.len(),
        forall|k: int| 0 <= k < saliences.len() ==> !(#[trigger] saliences[k]).nan(),
        forall|k: int|
            0 <= k < clusters.len() ==> !(#[trigger] all_modulated(
                clusters,
                saliences,
                boosts,
                config,
            )[k]).quality_score.nan(),
        ranking::is_order(
            order,
            salience_keys(saliences),
            quality_keys(all_modulated(clusters, saliences, boosts, config)),
        ),
        0 <= i < j < order.len(),
    ensures
        order.len() == clusters.len(),
        order[i] != order[j],
        saliences[order[i] as int].reaches(saliences[order[j] as int]),
        saliences[order[i] as int].rank() == saliences[order[j] as int].rank() ==> all_modulated(
            clusters,
            saliences,
            boosts,
            config,
        )[order[i] as int].quality_score.reaches(
            all_modulated(clusters, saliences, boosts, config)[order[j] as int].quality_score,
        ),
{
    let m = all_modulated(clusters, saliences, boosts, config);
    let a = order[i] as int;
    let b = order[j] as int;
    assert(ranking::precedes(salience_keys(saliences), quality_keys(m), a, b));
    assert(!saliences[a].nan() && !saliences[b].nan());
    assert(!m[a].quality_score.nan() && !m[b].quality_score.nan());
    assert(salience_keys(saliences)[a] == (-saliences[a].rank()) as i64);
    assert(salience_keys(saliences)[b] == (-saliences[b].rank()) as i64);
    assert(quality_keys(m)[a] == (-m[a].quality_score.rank()) as i64);
    assert(quality_keys(m)[b] == (-m[b].quality_score.rank()) as i64);
}

/// Emotion is left out exactly where it is neither to come first nor given any
/// weight.
pub proof fn law_emotion_is_left_out(config: EmotionalModulationConfig)
    ensures
        unmodulated(config) <==> !config.prioritize_emotional && (
        config.emotional_boost_weight.bits == 0 || config.emotional_boost_weight.bits
            == 0x8000_0000_0000_0000),
{
}

/// An edge is dropped only where each of its ends has `k` kept edges that are no
/// weaker, and nothing is kept that was no edge.
pub proof fn law_no_stronger_edge_is_dropped(edges: Seq<Edge>, k: nat, kept: Seq<Edge>, e: Edge)
    requires
        sparsified(edges, k, kept),
    ensures
        kept.contains(e) ==> edges.contains(e),
        edges.contains(e) && !kept.contains(e) ==> ({
            let no_weaker = kept.filter(|f: Edge| f.weight.rank() >= e.weight.rank());
            &&& degree(no_weaker, e.lo as int) >= k
            &&& degree(no_weaker, e.hi as int) >= k
        }),
{
    let keys = weight_keys(edges);
    let order = choose|order: Seq<usize>| #[trigger]
        ranking::is_order(order, keys, no_keys(edges.len())) && kept == kept_edges(
            arranged(edges, order),
            k,
        );
    let a = arranged(edges, order);
    if kept.contains(e) {
        lemma_kept_are_edges(a, k, e);
        let j = choose|j: int| 0 <= j < a.len() && a[j] == e;
        assert(edges[order[j] as int] == e);
    }
    if edges.contains(e) && !kept.contains(e) {
        ranking::law_order_keeps_items(edges, order, keys, no_keys(edges.len()));
        edges.to_multiset_ensures();
        a.to_multiset_ensures();
        assert(a.to_multiset() == edges.to_multiset());
        assert(edges.to_multiset().count(e) > 0);
        assert(a.contains(e));
        let j = choose|j: int| 0 <= j < a.len() && a[j] == e;
        law_strongest_edges_kept(a, k, j);
        let front = a.take(j);
        let before = kept_edges(front, k);
        let rest = lemma_kept_grows(a, j, k);
        let p = |f: Edge| f.weight.rank() >= e.weight.rank();
        assert forall|x: int| 0 <= x < before.len() implies p(#[trigger] before[x]) by {
            let f = before[x];
            assert(before.contains(f));
            lemma_kept_are_edges(front, k, f);
            let y = choose|y: int| 0 <= y < front.len() && front[y] == f;
            assert(a[y] == f);
            assert(ranking::precedes(keys, no_keys(edges.len()), order[y] as int, order[j] as int));
            assert(keys[order[y] as int] == (-f.weight.rank()) as i64);
            assert(keys[order[j] as int] == (-e.weight.rank()) as i64);
        }
        lemma_filter_keeps_all(before, p);
        Seq::filter_distributes_over_add(before, rest, p);
        lemma_degree_adds(before, rest.filter(p), e.lo as int);
        lemma_degree_adds(before, rest.filter(p), e.hi as int);
    }
}

proof fn lemma_kept_are_edges(edges: Seq<Edge>, k: nat, e: Edge)
    requires
        kept_edges(edges, k).contains(e),
    ensures
        edges.contains(e),
    decreases edges.len(),
{
    if edges.len() > 0 {
        let d = edges.drop_last();
        let kept = kept_edges(d, k);
        assert(edges[edges.len() - 1] == edges.last());
        if e != edges.last() {
            let x = choose|x: int|
                0 <= x < kept_edges(edges, k).len() && kept_edges(edges, k)[x] == e;
            assert(kept[x] == e);
            lemma_kept_are_edges(d, k, e);
            let y = choose|y: int| 0 <= y < d.len() && d[y] == e;
            assert(edges[y] == e);
        }
    }
}

proof fn lemma_kept_grows(edges: Seq<Edge>, j: int, k: nat) -> (rest: Seq<Edge>)
    requires
        0 <= j <= edges.len(),
    ensures
        kept_edges(edges, k) == kept_edges(edges.take(j), k) + rest,
    decreases edges.len(),
{
    if j == edges.len() {
        assert(edges.take(j) =~= edges);
        assert(kept_edges(edges, k) =~= kept_edges(edges, k) + Seq::<Edge>::empty());
        Seq::empty()
    } else {
        let d = edges.drop_last();
        let before = lemma_kept_grows(d, j, k);
        assert(d.take(j) =~= edges.take(j));
        let front = kept_edges(edges.take(j), k);
        if kept_edges(edges, k).len() > kept_edges(d, k).len() {
            assert(kept_edges(edges, k) =~= front + before.push(edges.last()));
            before.push(edges.last())
        } else {
            before
        }
    }
}

proof fn lemma_filter_keeps_all<A>(v: Seq<A>, p: spec_fn(A) -> bool)
    requires
        forall|i: int| 0 <= i < v.len() ==> p(#[trigger] v[i]),
    ensures
        v.filter(p) == v,
    decreases v.len(),
{
    reveal(Seq::filter);
    if v.len() > 0 {
        let d = v.drop_last();
        assert forall|i: int| 0 <= i < d.len() implies p(#[trigger] d[i]) by {
            assert(d[i] == v[i]);
        }
        lemma_filter_keeps_all(d, p);
        assert(v.last() == v[v.len() - 1]);
        assert(d.push(v.last()) =~= v);
    }
}

proof fn lemma_degree_adds(a: Seq<Edge>, b: Seq<Edge>, v: int)
    ensures
        degree(a + b, v) == degree(a, v) + degree(b, v),
    decreases b.len(),
{
    if b.len() > 0 {
        assert((a + b).drop_last() =~= a + b.drop_last());
        assert((a + b).last() == b.last());
        lemma_degree_adds(a, b.drop_last(), v);
    } else {
        assert(a + b =~= a);
    }
}

/// A limit that is set is the one used.
pub proof fn law_set_limit_is_used(c: usize, n: int, k: usize)
    ensures
        is_limit_for(Some(c), n, k) <==> k == c,
        is_limit_for(None, n, k) ==> 5 <= k <= 30,
{
}

/// Without an edge there is no community; and a community is of nodes that were
/// assigned a module.
pub proof fn law_no_edges_no_communities(
    assignments: Seq<usize>,
    node_count: usize,
    config: ClusterDiscoveryConfig,
)
    ensures
        communities_of(assignments, node_count, 0, config).len() == 0,
        communities_of(Seq::empty(), node_count, 1, config).len() == 0,
{
}

/// Two clusters are the same where they agree in id, members, quality, centroid
/// and signals.
pub proof fn law_same_clusters_agree(a: MemoryCluster, b: MemoryCluster)
    requires
        same_cluster(a, b),
    ensures
        a.id@ == b.id@,
        a.members@ == b.members@,
        a.quality_score == b.quality_score,
        a.centroid_id@ == b.centroid_id@,
        a.signals_summary == b.signals_summary,
{
}

/// Only a link joins memories against their order, and only a link or a search
/// that found it joins a memory to itself: a shared entity does not.
pub proof fn law_entities_join_others_in_order(
    linked: Seq<Edge>,
    entities: Seq<Vec<String>>,
    neighbours: Seq<Pair>,
    pairs: Seq<Pair>,
    a: usize,
    b: usize,
)
    requires
        b <= a,
        pairs.contains((a, b)),
        forall|p: (int, int)| #[trigger]
            has_pair(pairs, p) <==> is_candidate_pair(linked, entities, neighbours, p),
    ensures
        (exists|k: int| 0 <= k < linked.len() && (#[trigger] linked[k]).lo == a && linked[k].hi == b)
            || (a == b && neighbours.contains((a, b))),
{
    let p = (a as int, b as int);
    let k = choose|k: int| 0 <= k < pairs.len() && pairs[k] == (a, b);
    assert(pairs[k].0 == p.0 && pairs[k].1 == p.1);
    assert(has_pair(pairs, p));
    if !has_edge(linked, p) {
        assert(neighbours_hold(neighbours, p));
        let i = choose|i: int|
            0 <= i < neighbours.len() && in_order(
                (#[trigger] neighbours[i]).0 as int,
                neighbours[i].1 as int,
            ) == p;
        assert(neighbours[i] == (a, b));
    }
}

} // verus!
