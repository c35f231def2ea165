//! The discovery of clusters, from the memories that take part to the clusters
//! in the order of their quality.
//!
//! What is known of the candidates is gathered outside, and so are the
//! computations on doubles, which discovery is handed as functions.

use crate::ranking;
use crate::score::Score;
use crate::synthesis::cluster;
use crate::synthesis::cluster::{
    build_memory_cluster, candidate_pairs, collect_links, community_params,
    compute_pairwise_signals, copy_cluster, count_with_entities, edges_above, edges_within,
    infomap_communities, max_neighbors, select_candidates, sort_by_quality, sparsify_edges,
    summarize_signals, CommunityParams, Edge, Link, Pair, PairFacts,
};
use crate::synthesis::engine;
use crate::synthesis::types::{
    ClusterDiscoveryConfig, MemoryCluster, MemoryRecord, SignalsSummary,
};
use crate::synthesis::vp_tree;
use crate::synthesis::vp_tree::VpTree;
use crate::text;
use crate::text::sort_dedup;
use vstd::prelude::*;
use vstd::string::*;

verus! {

/// What is known of the candidates. They go by their places in the list of ids.
#[derive(Debug)]
pub struct Gathered {
    /// The ids of the candidates, in ascending order.
    pub ids: Vec<String>,
    /// The links that start at a candidate.
    pub links: Vec<Link>,
    /// The entities of each candidate.
    pub entities: Vec<Vec<String>>,
    /// The candidates that have an embedding.
    pub embedded: Vec<usize>,
}

impl Gathered {
    /// Whether everything speaks of candidates.
    pub open spec fn valid(self) -> bool {
        &&& text::strictly_sorted(text::views(self.ids@))
        &&& self.ids@.len() <= 0xffff_ffff
        &&& self.entities@.len() == self.ids@.len()
        &&& forall|i: int|
            0 <= i < self.entities@.len() ==> (#[trigger] self.entities@[i])@.len() <= 0x7fff_ffff
        &&& forall|i: int|
            0 <= i < self.links@.len() ==> (#[trigger] self.links@[i]).from < self.ids@.len()
        &&& forall|i: int|
            0 <= i < self.embedded@.len() ==> (#[trigger] self.embedded@[i]) < self.ids@.len()
    }
}

/// What a group of candidates is worth.
#[derive(Debug)]
pub struct Appraisal {
    /// How related each member is to the others on average, where it has edges.
    pub averages: Vec<Option<Score>>,
    /// The quality of the group.
    pub quality: Score,
    /// What common entities contribute to it.
    pub entity: Score,
}

/// The computations that discovery needs.
pub struct Arithmetic<D, O, I, R, C, A> {
    /// How far two candidates are apart that have embeddings, by their places
    /// among those.
    pub distance: D,
    /// Whether the far side of a node can hold a nearer point.
    pub outer: O,
    /// Whether the near side of a node can hold a nearer point.
    pub inner: I,
    /// How related two candidates are.
    pub relate: R,
    /// The modules of the candidates in the network of the given edges.
    pub detect: C,
    /// What a group is worth: by the edges inside it, its members, and how many
    /// of them have entities.
    pub appraise: A,
}

impl<
    D: Fn(usize, usize) -> Score,
    O: Fn(Score, Score, Score) -> bool,
    I: Fn(Score, Score, Score) -> bool,
    R: Fn(PairFacts, usize, usize) -> Score,
    C: Fn(&Vec<Edge>, usize, CommunityParams) -> Vec<usize>,
    A: Fn(&Vec<Edge>, &Vec<usize>, usize) -> Appraisal,
> Arithmetic<D, O, I, R, C, A> {
    /// Whether the functions can be asked about `embedded` embeddings and about
    /// anything else, and give numbers where numbers are needed.
    pub open spec fn usable(self, embedded: nat) -> bool {
        &&& vp_tree::measures(self.distance, embedded)
        &&& vp_tree::judges(self.outer)
        &&& vp_tree::judges(self.inner)
        &&& forall|facts: PairFacts, i: usize, j: usize| #[trigger]
            call_requires(self.relate, (facts, i, j))
        &&& forall|edges: &Vec<Edge>, n: usize, p: CommunityParams| #[trigger]
            call_requires(self.detect, (edges, n, p))
        &&& forall|edges: &Vec<Edge>, members: &Vec<usize>, n: usize| #[trigger]
            call_requires(self.appraise, (edges, members, n))
        &&& forall|edges: &Vec<Edge>, members: &Vec<usize>, n: usize, a: Appraisal| #[trigger]
            call_ensures(self.appraise, (edges, members, n), a) ==> a.averages@.len()
                == members@.len() && !a.quality.nan()
    }
}

// ---------------------------------------------------------------------------
// Nearest neighbours
// ---------------------------------------------------------------------------

/// Whether a pair comes of a search for neighbours.
pub open spec fn is_neighbour_pair(
    embedded: Seq<usize>,
    results: Seq<Seq<(usize, Score)>>,
    p: Pair,
) -> bool {
    exists|i: int, j: int|
        0 <= i < results.len() && 0 <= j < results[i].len() && p == (
            embedded[i],
            embedded[(#[trigger] results[i][j]).0 as int],
        )
}

/// Whether `pairs` are the candidates with embeddings and the nearest neighbours
/// of each, as the searches in a tree over them found them.
pub open spec fn are_neighbours<
    D: Fn(usize, usize) -> Score,
    O: Fn(Score, Score, Score) -> bool,
    I: Fn(Score, Score, Score) -> bool,
>(
    distance: D,
    outer: O,
    inner: I,
    embedded: Seq<usize>,
    k: nat,
    tree: VpTree,
    results: Seq<Seq<(usize, Score)>>,
    pairs: Seq<Pair>,
) -> bool {
    &&& tree.count == embedded.len()
    &&& tree.grown(distance)
    &&& results.len() == embedded.len()
    &&& forall|i: int|
        0 <= i < results.len() ==> tree.answers(
            distance,
            outer,
            inner,
            i as usize,
            k,
            #[trigger] results[i],
        )
    &&& forall|p: Pair| #[trigger]
        pairs.contains(p) <==> is_neighbour_pair(embedded, results, p)
}

/// The pairs of neighbours, where there are two embeddings or more, and how many
/// neighbours of each are wanted.
pub open spec fn neighbours_of<
    D: Fn(usize, usize) -> Score,
    O: Fn(Score, Score, Score) -> bool,
    I: Fn(Score, Score, Score) -> bool,
>(
    distance: D,
    outer: O,
    inner: I,
    embedded: Seq<usize>,
    configured: Option<usize>,
    pairs: Seq<Pair>,
) -> bool {
    if embedded.len() < 2 {
        pairs.len() == 0
    } else {
        exists|k: usize, tree: VpTree, results: Seq<Seq<(usize, Score)>>|
            cluster::is_limit_for(configured, embedded.len() as int, k) && #[trigger]
            are_neighbours(distance, outer, inner, embedded, k as nat, tree, results, pairs)
    }
}

/// Finds the nearest neighbours of each candidate that has an embedding.
fn nearest_pairs<
    D: Fn(usize, usize) -> Score,
    O: Fn(Score, Score, Score) -> bool,
    I: Fn(Score, Score, Score) -> bool,
>(
    distance: &D,
    outer: &O,
    inner: &I,
    embedded: &Vec<usize>,
    configured: Option<usize>,
) -> (r: Vec<Pair>)
    requires
        vp_tree::measures(*distance, embedded@.len()),
        vp_tree::judges(*outer),
        vp_tree::judges(*inner),
    ensures
        neighbours_of(*distance, *outer, *inner, embedded@, configured, r@),
        forall|i: int|
            0 <= i < r@.len() ==> embedded@.contains((#[trigger] r@[i]).0) && embedded@.contains(
                r@[i].1,
            ),
{
    let mut pairs: Vec<Pair> = Vec::new();
    let n: usize = embedded.len();
    if n < 2 {
        return pairs;
    }
    let k: usize = max_neighbors(configured, n);
    let tree: VpTree = VpTree::build(n, distance);
    let ghost mut results: Seq<Seq<(usize, Score)>> = Seq::empty();
    let mut i: usize = 0;
    while i < n
        invariant
            i <= n,
            n == embedded@.len(),
            tree.count == n,
            tree.grown(*distance),
            vp_tree::measures(*distance, n as nat),
            vp_tree::judges(*outer),
            vp_tree::judges(*inner),
            results.len() == i,
            forall|a: int|
                0 <= a < results.len() ==> tree.answers(
                    *distance,
                    *outer,
                    *inner,
                    a as usize,
                    k as nat,
                    #[trigger] results[a],
                ),
            forall|p: Pair| #[trigger]
                pairs@.contains(p) <==> is_neighbour_pair(embedded@, results, p),
            forall|a: int|
                0 <= a < pairs@.len() ==> embedded@.contains((#[trigger] pairs@[a]).0)
                    && embedded@.contains(pairs@[a].1),
        decreases n - i,
    {
        let found: Vec<(usize, Score)> = tree.query_k_nearest(i, k, distance, outer, inner);
        proof {
            lemma_answer(tree, *distance, *outer, *inner, i, k as nat, found@);
        }
        let ghost before = results;
        proof {
            lemma_none_more(embedded@, before, found@);
        }
        let mut j: usize = 0;
        while j < found.len()
            invariant
                i < n,
                j <= found@.len(),
                n == embedded@.len(),
                before.len() == i,
                forall|a: int| 0 <= a < found@.len() ==> (#[trigger] found@[a]).0 < n,
                forall|p: Pair| #[trigger]
                    pairs@.contains(p) <==> is_neighbour_pair(
                        embedded@,
                        before.push(found@.take(j as int)),
                        p,
                    ),
                forall|a: int|
                    0 <= a < pairs@.len() ==> embedded@.contains((#[trigger] pairs@[a]).0)
                        && embedded@.contains(pairs@[a].1),
            decreases found.len() - j,
        {
            let ghost was = pairs@;
            let pair: Pair = (embedded[i], embedded[found[j].0]);
            pairs.push(pair);
            proof {
                lemma_one_more(embedded@, before, found@, j as int, was, pair);
                assert(embedded@.contains(embedded@[i as int]));
                assert(embedded@.contains(embedded@[found@[j as int].0 as int]));
            }
            j += 1;
        }
        proof {
            assert(found@.take(j as int) =~= found@);
            results = before.push(found@);
        }
        i += 1;
    }
    proof {
        assert(are_neighbours(
            *distance,
            *outer,
            *inner,
            embedded@,
            k as nat,
            tree,
            results,
            pairs@,
        ));
    }
    pairs
}

/// What a query answers are points of the tree.
proof fn lemma_answer<
    D: Fn(usize, usize) -> Score,
    O: Fn(Score, Score, Score) -> bool,
    I: Fn(Score, Score, Score) -> bool,
>(tree: VpTree, distance: D, outer: O, inner: I, query: usize, k: nat, result: Seq<(usize, Score)>)
    requires
        vp_tree::measures(distance, tree.count as nat),
        tree.grown(distance),
        tree.answers(distance, outer, inner, query, k, result),
    ensures
        forall|a: int| 0 <= a < result.len() ==> (#[trigger] result[a]).0 < tree.count,
{
    if query < tree.count && k > 0 {
        let seen = choose|seen: Seq<usize>| #[trigger]
            tree.finds(distance, outer, inner, query, k, seen, result);
        vp_tree::law_search_looks_at_others(
            tree,
            distance,
            outer,
            inner,
            query,
            k,
            seen,
            result,
        );
    }
}

proof fn lemma_none_more(
    embedded: Seq<usize>,
    before: Seq<Seq<(usize, Score)>>,
    found: Seq<(usize, Score)>,
)
    ensures
        forall|p: Pair|
            is_neighbour_pair(embedded, before, p) <==> #[trigger] is_neighbour_pair(
                embedded,
                before.push(found.take(0)),
                p,
            ),
{
    let results = before.push(found.take(0));
    assert forall|p: Pair|
        is_neighbour_pair(embedded, before, p) <==> #[trigger] is_neighbour_pair(
            embedded,
            results,
            p,
        ) by {
        if is_neighbour_pair(embedded, before, p) {
            let (a, b) = choose|a: int, b: int|
                0 <= a < before.len() && 0 <= b < before[a].len() && p == (
                    embedded[a],
                    embedded[(#[trigger] before[a][b]).0 as int],
                );
            assert(results[a][b] == before[a][b]);
        }
        if is_neighbour_pair(embedded, results, p) {
            let (a, b) = choose|a: int, b: int|
                0 <= a < results.len() && 0 <= b < results[a].len() && p == (
                    embedded[a],
                    embedded[(#[trigger] results[a][b]).0 as int],
                );
            assert(before[a][b] == results[a][b]);
        }
    }
}

proof fn lemma_one_more(
    embedded: Seq<usize>,
    before: Seq<Seq<(usize, Score)>>,
    found: Seq<(usize, Score)>,
    j: int,
    was: Seq<Pair>,
    pair: Pair,
)
    requires
        0 <= j < found.len(),
        pair == (embedded[before.len() as int], embedded[found[j].0 as int]),
        forall|p: Pair| #[trigger]
            was.contains(p) <==> is_neighbour_pair(embedded, before.push(found.take(j)), p),
    ensures
        forall|p: Pair| #[trigger]
            was.push(pair).contains(p) <==> is_neighbour_pair(
                embedded,
                before.push(found.take(j + 1)),
                p,
            ),
{
    let old_results = before.push(found.take(j));
    let results = before.push(found.take(j + 1));
    let now = was.push(pair);
    let last = before.len() as int;
    assert forall|p: Pair| #[trigger] now.contains(p) <==> is_neighbour_pair(
        embedded,
        results,
        p,
    ) by {
        if now.contains(p) {
            if was.contains(p) {
                let (a, b) = choose|a: int, b: int|
                    0 <= a < old_results.len() && 0 <= b < old_results[a].len() && p == (
                        embedded[a],
                        embedded[(#[trigger] old_results[a][b]).0 as int],
                    );
                assert(results[a][b] == old_results[a][b]);
            } else {
                let x = choose|x: int| 0 <= x < now.len() && now[x] == p;
                if x < was.len() {
                    assert(was[x] == p);
                }
                assert(results[last][j] == found[j]);
            }
        }
        if is_neighbour_pair(embedded, results, p) {
            let (a, b) = choose|a: int, b: int|
                0 <= a < results.len() && 0 <= b < results[a].len() && p == (
                    embedded[a],
                    embedded[(#[trigger] results[a][b]).0 as int],
                );
            if a == last && b == j {
                assert(now[was.len() as int] == p);
            } else {
                assert(old_results[a][b] == results[a][b]);
                assert(was.contains(p));
                let x = choose|x: int| 0 <= x < was.len() && was[x] == p;
                assert(now[x] == p);
            }
        }
    }
}

// ---------------------------------------------------------------------------
// Edges
// ---------------------------------------------------------------------------

/// What is known of a pair.
pub open spec fn are_facts(
    linked: Seq<Edge>,
    entities: Seq<Vec<String>>,
    p: Pair,
    facts: PairFacts,
) -> bool {
    let a = engine::id_set(entities[p.0 as int]@);
    let b = engine::id_set(entities[p.1 as int]@);
    &&& facts.hebbian_weight == cluster::weight_of(linked, (p.0 as int, p.1 as int))
    &&& facts.shared_entities == a.intersect(b).len()
    &&& facts.all_entities == a.union(b).len()
}

/// Whether a score is what a function says of a pair.
pub open spec fn is_related<R: Fn(PairFacts, usize, usize) -> Score>(
    relate: R,
    linked: Seq<Edge>,
    entities: Seq<Vec<String>>,
    p: Pair,
    s: Score,
) -> bool {
    exists|facts: PairFacts|
        are_facts(linked, entities, p, facts) && #[trigger] call_ensures(
            relate,
            (facts, p.0, p.1),
            s,
        )
}

/// Asks how related the candidates of each pair are.
fn relate_pairs<R: Fn(PairFacts, usize, usize) -> Score>(
    relate: &R,
    linked: &Vec<Edge>,
    entities: &Vec<Vec<String>>,
    pairs: &Vec<Pair>,
) -> (r: Vec<Score>)
    requires
        forall|facts: PairFacts, i: usize, j: usize| #[trigger]
            call_requires(*relate, (facts, i, j)),
        forall|i: int|
            0 <= i < entities@.len() ==> (#[trigger] entities@[i])@.len() <= 0x7fff_ffff,
        forall|k: int|
            0 <= k < pairs@.len() ==> (#[trigger] pairs@[k]).0 < entities@.len() && pairs@[k].1
                < entities@.len(),
    ensures
        r@.len() == pairs@.len(),
        forall|k: int|
            0 <= k < r@.len() ==> is_related(
                *relate,
                linked@,
                entities@,
                pairs@[k],
                #[trigger] r@[k],
            ),
{
    let mut out: Vec<Score> = Vec::new();
    let mut i: usize = 0;
    while i < pairs.len()
        invariant
            i <= pairs@.len(),
            forall|facts: PairFacts, i: usize, j: usize| #[trigger]
                call_requires(*relate, (facts, i, j)),
            forall|i: int|
                0 <= i < entities@.len() ==> (#[trigger] entities@[i])@.len() <= 0x7fff_ffff,
            forall|k: int|
                0 <= k < pairs@.len() ==> (#[trigger] pairs@[k]).0 < entities@.len()
                    && pairs@[k].1 < entities@.len(),
            out@.len() == i,
            forall|k: int|
                0 <= k < i ==> is_related(
                    *relate,
                    linked@,
                    entities@,
                    pairs@[k],
                    #[trigger] out@[k],
                ),
        decreases pairs.len() - i,
    {
        let pair: Pair = pairs[i];
        assert(entities@[pair.0 as int]@.len() <= 0x7fff_ffff);
        assert(entities@[pair.1 as int]@.len() <= 0x7fff_ffff);
        let facts: PairFacts = compute_pairwise_signals(linked, entities, pair);
        let s: Score = relate(facts, pair.0, pair.1);
        assert(is_related(*relate, linked@, entities@, pair, s));
        out.push(s);
        i += 1;
    }
    out
}

// ---------------------------------------------------------------------------
// Groups
// ---------------------------------------------------------------------------

/// The edges between members of a group.
pub open spec fn within(edges: Seq<Edge>, members: Seq<usize>) -> Seq<Edge> {
    cluster::inner_edges(edges, members).map_values(|i: usize| edges[i as int])
}

/// The ids of the members of a group.
pub open spec fn named(ids: Seq<String>, members: Seq<usize>) -> Seq<Seq<char>> {
    members.map_values(|i: usize| ids[i as int]@)
}

/// Whether `r` is the cluster of a group, if it makes one.
pub open spec fn is_grouped<A: Fn(&Vec<Edge>, &Vec<usize>, usize) -> Appraisal>(
    appraise: A,
    gathered: Gathered,
    edges: Seq<Edge>,
    config: ClusterDiscoveryConfig,
    members: Seq<usize>,
    r: Option<MemoryCluster>,
) -> bool {
    exists|inside: Vec<Edge>, group: Vec<usize>, n: usize, a: Appraisal, names: Vec<String>|
        inside@ == within(edges, members) && group@ == members && n == cluster::with_entities(
            gathered.entities@,
            members,
        ) && text::views(names@) == named(gathered.ids@, members) && #[trigger] call_ensures(
            appraise,
            (&inside, &group, n),
            a,
        ) && #[trigger] cluster::is_cluster_of(
            r,
            names@,
            a.averages@,
            a.quality,
            signals_of(config, a.entity),
            config.min_cluster_size as nat,
        )
}

/// What each signal contributes to a group: its weight, and for entities what
/// they contribute to this one.
pub open spec fn signals_of(config: ClusterDiscoveryConfig, entity: Score) -> SignalsSummary {
    SignalsSummary {
        dominant_signal: cluster::dominant(
            config.weights.hebbian,
            entity,
            config.weights.embedding,
            config.weights.temporal,
        ),
        hebbian_contribution: config.weights.hebbian,
        entity_contribution: entity,
        embedding_contribution: config.weights.embedding,
        temporal_contribution: config.weights.temporal,
    }
}

/// Builds the cluster of a group, if it makes one.
fn group_cluster<A: Fn(&Vec<Edge>, &Vec<usize>, usize) -> Appraisal>(
    appraise: &A,
    gathered: &Gathered,
    edges: &Vec<Edge>,
    config: &ClusterDiscoveryConfig,
    group: &Vec<usize>,
) -> (r: Option<MemoryCluster>)
    requires
        gathered.valid(),
        forall|e: &Vec<Edge>, members: &Vec<usize>, n: usize| #[trigger]
            call_requires(*appraise, (e, members, n)),
        forall|e: &Vec<Edge>, members: &Vec<usize>, n: usize, a: Appraisal| #[trigger]
            call_ensures(*appraise, (e, members, n), a) ==> a.averages@.len() == members@.len()
                && !a.quality.nan(),
        forall|i: int| 0 <= i < group@.len() ==> (#[trigger] group@[i]) < gathered.ids@.len(),
        config.min_cluster_size > 0 || group@.len() > 0,
    ensures
        is_grouped(*appraise, *gathered, edges@, *config, group@, r),
        r matches Some(c) ==> !c.quality_score.nan(),
{
    let places: Vec<usize> = edges_within(edges, group);
    let total: usize = edges.len();
    proof {
        assert(total == edges@.len());
        cluster::lemma_inner_edges(edges@, group@);
    }
    let mut inside: Vec<Edge> = Vec::new();
    let mut i: usize = 0;
    while i < places.len()
        invariant
            i <= places@.len(),
            places@ == cluster::inner_edges(edges@, group@),
            forall|k: int| 0 <= k < places@.len() ==> (#[trigger] places@[k]) < edges@.len(),
            inside@ == within(edges@, group@).take(i as int),
        decreases places.len() - i,
    {
        inside.push(edges[places[i]]);
        i += 1;
        assert(inside@ =~= within(edges@, group@).take(i as int));
    }
    assert(inside@ =~= within(edges@, group@));
    let with_entities: usize = count_with_entities(&gathered.entities, group);
    let mut names: Vec<String> = Vec::new();
    let mut j: usize = 0;
    while j < group.len()
        invariant
            j <= group@.len(),
            forall|i: int| 0 <= i < group@.len() ==> (#[trigger] group@[i]) < gathered.ids@.len(),
            text::views(names@) == named(gathered.ids@, group@).take(j as int),
        decreases group.len() - j,
    {
        let ghost before = text::views(names@);
        let name: String = gathered.ids[group[j]].as_str().to_owned();
        let ghost added = name@;
        names.push(name);
        proof {
            assert(text::views(names@) =~= before.push(added));
            assert(before.push(added) =~= named(gathered.ids@, group@).take(j + 1));
        }
        j += 1;
    }
    assert(text::views(names@) =~= named(gathered.ids@, group@));
    assert(names@.len() == group@.len()) by {
        assert(text::views(names@).len() == names@.len());
    }
    let a: Appraisal = appraise(&inside, group, with_entities);
    let signals: SignalsSummary = summarize_signals(
        config.weights.hebbian,
        a.entity,
        config.weights.embedding,
        config.weights.temporal,
    );
    let r: Option<MemoryCluster> = build_memory_cluster(
        &names,
        &a.averages,
        a.quality,
        signals,
        config.min_cluster_size,
    );
    proof {
        assert(call_ensures(*appraise, (&inside, group, with_entities), a));
        assert(cluster::is_cluster_of(
            r,
            names@,
            a.averages@,
            a.quality,
            signals_of(*config, a.entity),
            config.min_cluster_size as nat,
        ));
    }
    r
}

/// The clusters that the groups made.
pub open spec fn made(built: Seq<Option<MemoryCluster>>) -> Seq<MemoryCluster>
    decreases built.len(),
{
    if built.len() == 0 {
        Seq::empty()
    } else {
        let rest = made(built.drop_last());
        match built.last() {
            Some(c) => rest.push(c),
            None => rest,
        }
    }
}

/// Whether two clusters are alike.
pub open spec fn same_cluster(a: MemoryCluster, b: MemoryCluster) -> bool {
    &&& a.id@ == b.id@
    &&& a.members@ == b.members@
    &&& a.quality_score == b.quality_score
    &&& a.centroid_id@ == b.centroid_id@
    &&& a.signals_summary == b.signals_summary
}

// ---------------------------------------------------------------------------
// Discovery
// ---------------------------------------------------------------------------

/// The steps of a discovery.
pub ghost struct Steps {
    /// The links among the candidates.
    pub linked: Seq<Edge>,
    /// The pairs of nearest neighbours.
    pub neighbours: Seq<Pair>,
    /// The pairs that were compared.
    pub pairs: Seq<Pair>,
    /// How related they are.
    pub scores: Seq<Score>,
    /// How many edges a node keeps.
    pub limit: usize,
    /// The edges that were kept.
    pub kept: Vec<Edge>,
    /// The modules of the candidates.
    pub assignments: Vec<usize>,
    /// What became of each group.
    pub built: Seq<Option<MemoryCluster>>,
    /// The order of the clusters.
    pub order: Seq<usize>,
}

impl Steps {
    /// Whether the pairs and their scores are those of the candidates.
    pub open spec fn compared<
        D: Fn(usize, usize) -> Score,
        O: Fn(Score, Score, Score) -> bool,
        I: Fn(Score, Score, Score) -> bool,
        R: Fn(PairFacts, usize, usize) -> Score,
        C: Fn(&Vec<Edge>, usize, CommunityParams) -> Vec<usize>,
        A: Fn(&Vec<Edge>, &Vec<usize>, usize) -> Appraisal,
    >(
        self,
        gathered: Gathered,
        config: ClusterDiscoveryConfig,
        m: Arithmetic<D, O, I, R, C, A>,
    ) -> bool {
        &&& self.linked == cluster::link_map(text::views(gathered.ids@), gathered.links@)
        &&& neighbours_of(
            m.distance,
            m.outer,
            m.inner,
            gathered.embedded@,
            config.max_neighbors_per_node,
            self.neighbours,
        )
        &&& self.pairs.no_duplicates()
        &&& forall|p: (int, int)| #[trigger]
            cluster::has_pair(self.pairs, p) <==> cluster::is_candidate_pair(
                self.linked,
                gathered.entities@,
                self.neighbours,
                p,
            )
        &&& self.scores.len() == self.pairs.len()
        &&& forall|k: int|
            0 <= k < self.scores.len() ==> is_related(
                m.relate,
                self.linked,
                gathered.entities@,
                self.pairs[k],
                #[trigger] self.scores[k],
            )
    }

    /// Whether the groups are the communities of the edges that were kept.
    pub open spec fn grouped<
        D: Fn(usize, usize) -> Score,
        O: Fn(Score, Score, Score) -> bool,
        I: Fn(Score, Score, Score) -> bool,
        R: Fn(PairFacts, usize, usize) -> Score,
        C: Fn(&Vec<Edge>, usize, CommunityParams) -> Vec<usize>,
        A: Fn(&Vec<Edge>, &Vec<usize>, usize) -> Appraisal,
    >(
        self,
        gathered: Gathered,
        config: ClusterDiscoveryConfig,
        m: Arithmetic<D, O, I, R, C, A>,
    ) -> bool {
        let n = gathered.ids@.len() as usize;
        let edge_count = self.kept@.len() as usize;
        let groups = cluster::communities_of(self.assignments@, n, edge_count, config);
        &&& cluster::is_limit_for(
            config.max_neighbors_per_node,
            gathered.ids@.len() as int,
            self.limit,
        )
        &&& cluster::sparsified(
            cluster::edges_of(self.pairs, self.scores, config.cluster_threshold),
            self.limit as nat,
            self.kept@,
        )
        &&& edge_count > 0 ==> call_ensures(
            m.detect,
            (&self.kept, n, cluster::params_of(n, edge_count, config)),
            self.assignments,
        )
        &&& self.built.len() == groups.len()
        &&& forall|g: int|
            0 <= g < groups.len() ==> is_grouped(
                m.appraise,
                gathered,
                self.kept@,
                config,
                groups[g],
                #[trigger] self.built[g],
            )
    }

    /// Whether the steps lead to a result: the clusters that the groups made, the
    /// best first.
    pub open spec fn lead_to<
        D: Fn(usize, usize) -> Score,
        O: Fn(Score, Score, Score) -> bool,
        I: Fn(Score, Score, Score) -> bool,
        R: Fn(PairFacts, usize, usize) -> Score,
        C: Fn(&Vec<Edge>, usize, CommunityParams) -> Vec<usize>,
        A: Fn(&Vec<Edge>, &Vec<usize>, usize) -> Appraisal,
    >(
        self,
        gathered: Gathered,
        config: ClusterDiscoveryConfig,
        m: Arithmetic<D, O, I, R, C, A>,
        r: Seq<MemoryCluster>,
    ) -> bool {
        let clusters = made(self.built);
        &&& self.compared(gathered, config, m)
        &&& self.grouped(gathered, config, m)
        &&& ranking::is_order(
            self.order,
            cluster::quality_keys(clusters),
            cluster::no_keys(clusters.len()),
        )
        &&& r.len() == clusters.len()
        &&& forall|i: int|
            0 <= i < r.len() ==> same_cluster(
                #[trigger] r[i],
                clusters[self.order[i] as int],
            )
    }
}

/// Builds the clusters of the groups.
fn build_clusters<A: Fn(&Vec<Edge>, &Vec<usize>, usize) -> Appraisal>(
    appraise: &A,
    gathered: &Gathered,
    edges: &Vec<Edge>,
    config: &ClusterDiscoveryConfig,
    groups: &Vec<Vec<usize>>,
) -> (r: (Vec<MemoryCluster>, Ghost<Seq<Option<MemoryCluster>>>))
    requires
        gathered.valid(),
        forall|e: &Vec<Edge>, members: &Vec<usize>, n: usize| #[trigger]
            call_requires(*appraise, (e, members, n)),
        forall|e: &Vec<Edge>, members: &Vec<usize>, n: usize, a: Appraisal| #[trigger]
            call_ensures(*appraise, (e, members, n), a) ==> a.averages@.len() == members@.len()
                && !a.quality.nan(),
        forall|g: int, i: int|
            0 <= g < groups@.len() && 0 <= i < groups@[g]@.len() ==> (#[trigger] groups@[g]@[i])
                < gathered.ids@.len(),
        config.min_cluster_size == 0 ==> forall|g: int|
            0 <= g < groups@.len() ==> (#[trigger] groups@[g])@.len() > 0,
    ensures
        r.0@ == made(r.1@),
        r.1@.len() == groups@.len(),
        forall|g: int|
            0 <= g < groups@.len() ==> is_grouped(
                *appraise,
                *gathered,
                edges@,
                *config,
                groups@[g]@,
                #[trigger] r.1@[g],
            ),
        forall|i: int| 0 <= i < r.0@.len() ==> !(#[trigger] r.0@[i]).quality_score.nan(),
{
    let mut clusters: Vec<MemoryCluster> = Vec::new();
    let ghost mut built: Seq<Option<MemoryCluster>> = Seq::empty();
    let mut g: usize = 0;
    while g < groups.len()
        invariant
            g <= groups@.len(),
            gathered.valid(),
            forall|e: &Vec<Edge>, members: &Vec<usize>, n: usize| #[trigger]
                call_requires(*appraise, (e, members, n)),
            forall|e: &Vec<Edge>, members: &Vec<usize>, n: usize, a: Appraisal| #[trigger]
                call_ensures(*appraise, (e, members, n), a) ==> a.averages@.len()
                    == members@.len() && !a.quality.nan(),
            forall|g: int, i: int|
                0 <= g < groups@.len() && 0 <= i < groups@[g]@.len() ==> (
                #[trigger] groups@[g]@[i]) < gathered.ids@.len(),
            config.min_cluster_size == 0 ==> forall|g: int|
                0 <= g < groups@.len() ==> (#[trigger] groups@[g])@.len() > 0,
            clusters@ == made(built),
            built.len() == g,
            forall|h: int|
                0 <= h < g ==> is_grouped(
                    *appraise,
                    *gathered,
                    edges@,
                    *config,
                    groups@[h]@,
                    #[trigger] built[h],
                ),
            forall|i: int| 0 <= i < clusters@.len() ==> !(#[trigger] clusters@[i]).quality_score.nan(),
        decreases groups.len() - g,
    {
        assert(groups@[g as int]@.len() > 0 || config.min_cluster_size > 0);
        let c: Option<MemoryCluster> = group_cluster(appraise, gathered, edges, config, &groups[g]);
        proof {
            let before = built;
            built = before.push(c);
            assert(built.drop_last() =~= before);
        }
        if let Some(cluster) = c {
            clusters.push(cluster);
        }
        g += 1;
    }
    (clusters, Ghost(built))
}

/// Discovers the clusters among the candidates.
fn discover_clusters_inner<
    D: Fn(usize, usize) -> Score,
    O: Fn(Score, Score, Score) -> bool,
    I: Fn(Score, Score, Score) -> bool,
    R: Fn(PairFacts, usize, usize) -> Score,
    C: Fn(&Vec<Edge>, usize, CommunityParams) -> Vec<usize>,
    A: Fn(&Vec<Edge>, &Vec<usize>, usize) -> Appraisal,
>(
    gathered: &Gathered,
    config: &ClusterDiscoveryConfig,
    m: &Arithmetic<D, O, I, R, C, A>,
) -> (r: Vec<MemoryCluster>)
    requires
        gathered.valid(),
        m.usable(gathered.embedded@.len()),
        config.min_cluster_size > 0 || config.max_cluster_size > 0,
    ensures
        exists|steps: Steps| steps.lead_to(*gathered, *config, *m, r@),
{
    let n: usize = gathered.ids.len();
    let linked: Vec<Edge> = collect_links(&gathered.ids, &gathered.links);
    let neighbours: Vec<Pair> = nearest_pairs(
        &m.distance,
        &m.outer,
        &m.inner,
        &gathered.embedded,
        config.max_neighbors_per_node,
    );
    proof {
        assert forall|k: int| 0 <= k < neighbours@.len() implies (#[trigger] neighbours@[k]).0 < n
            && neighbours@[k].1 < n by {
            let a = choose|a: int|
                0 <= a < gathered.embedded@.len() && gathered.embedded@[a] == neighbours@[k].0;
            let b = choose|b: int|
                0 <= b < gathered.embedded@.len() && gathered.embedded@[b] == neighbours@[k].1;
            assert(gathered.embedded@[a] < n && gathered.embedded@[b] < n);
        }
    }
    let pairs: Vec<Pair> = candidate_pairs(&linked, &gathered.entities, &neighbours);
    let scores: Vec<Score> = relate_pairs(&m.relate, &linked, &gathered.entities, &pairs);
    let edges: Vec<Edge> = edges_above(&pairs, &scores, config.cluster_threshold);
    proof {
        cluster::lemma_edge_ends(pairs@, scores@, config.cluster_threshold, n as nat);
    }
    let limit: usize = max_neighbors(config.max_neighbors_per_node, n);
    let kept: Vec<Edge> = sparsify_edges(&edges, limit, n);
    let assignments: Vec<usize> = if kept.len() == 0 {
        Vec::new()
    } else {
        (m.detect)(&kept, n, community_params(n, kept.len(), config))
    };
    let groups: Vec<Vec<usize>> = infomap_communities(&assignments, n, kept.len(), config);
    let assigned: usize = assignments.len();
    proof {
        assert(assigned == assignments@.len());
        lemma_groups(assignments@, n, kept@.len() as usize, *config, groups@);
    }
    let (clusters, Ghost(built)) = build_clusters(&m.appraise, gathered, &kept, config, &groups);
    let order: Vec<usize> = sort_by_quality(&clusters);
    let mut r: Vec<MemoryCluster> = Vec::new();
    let mut i: usize = 0;
    while i < order.len()
        invariant
            i <= order@.len(),
            order@.len() == clusters@.len(),
            forall|k: int| 0 <= k < order@.len() ==> (#[trigger] order@[k]) < clusters@.len(),
            r@.len() == i,
            forall|k: int|
                0 <= k < i ==> same_cluster(#[trigger] r@[k], clusters@[order@[k] as int]),
        decreases order.len() - i,
    {
        r.push(copy_cluster(&clusters[order[i]]));
        i += 1;
    }
    proof {
        let steps = Steps {
            linked: linked@,
            neighbours: neighbours@,
            pairs: pairs@,
            scores: scores@,
            limit,
            kept,
            assignments,
            built,
            order: order@,
        };
        assert(steps.compared(*gathered, *config, *m));
        assert(steps.grouped(*gathered, *config, *m)) by {
            let found = cluster::communities_of(
                assignments@,
                n,
                kept@.len() as usize,
                *config,
            );
            assert forall|g: int| 0 <= g < found.len() implies is_grouped(
                m.appraise,
                *gathered,
                kept@,
                *config,
                found[g],
                #[trigger] built[g],
            ) by {
                assert(found[g] == groups@[g]@);
            }
        }
        assert(steps.lead_to(*gathered, *config, *m, r@));
    }
    r
}

/// The groups hold candidates, and are not empty where that would matter.
proof fn lemma_groups(
    assignments: Seq<usize>,
    n: usize,
    edge_count: usize,
    config: ClusterDiscoveryConfig,
    groups: Seq<Vec<usize>>,
)
    requires
        assignments.len() <= usize::MAX,
        cluster::group_views(groups) == cluster::communities_of(
            assignments,
            n,
            edge_count,
            config,
        ),
    ensures
        forall|g: int, i: int|
            0 <= g < groups.len() && 0 <= i < groups[g]@.len() ==> (#[trigger] groups[g]@[i]) < n,
        config.max_cluster_size > 0 ==> forall|g: int|
            0 <= g < groups.len() ==> (#[trigger] groups[g])@.len() > 0,
{
    let total = if edge_count == 0 {
        0
    } else if assignments.len() < n {
        assignments.len() as int
    } else {
        n as int
    };
    let found = cluster::communities_of(assignments, n, edge_count, config);
    assert forall|g: int| 0 <= g < groups.len() implies (config.max_cluster_size > 0 ==> (
    #[trigger] groups[g])@.len() > 0) by {
        assert(found[g] == groups[g]@);
        cluster::lemma_community_nodes(
            assignments,
            total,
            config.min_cluster_size as nat,
            config.max_cluster_size as nat,
            total,
            g,
        );
    }
    assert forall|g: int, i: int| 0 <= g < groups.len() && 0 <= i < groups[g]@.len() implies (
    #[trigger] groups[g]@[i]) < n by {
        assert(found[g] == groups[g]@);
        cluster::lemma_community_nodes(
            assignments,
            total,
            config.min_cluster_size as nat,
            config.max_cluster_size as nat,
            total,
            g,
        );
        assert(found[g][i] < total);
    }
}

/// The ids of some memories.
pub open spec fn ids_of(memories: Seq<MemoryRecord>) -> Seq<Seq<char>> {
    memories.map_values(|m: MemoryRecord| m.id@)
}

/// The ids of the memories among which clusters are sought, each once, in
/// ascending order: what is known of these is to be gathered.
pub fn candidate_ids(
    memories: &Vec<MemoryRecord>,
    config: &ClusterDiscoveryConfig,
    subset: bool,
) -> (r: Vec<String>)
    ensures
        text::is_sorted_set(
            text::views(r@),
            ids_of(cluster::candidates(memories@, *config, subset)),
        ),
{
    let chosen: Vec<MemoryRecord> = select_candidates(memories, config, subset);
    let mut ids: Vec<String> = Vec::new();
    let mut i: usize = 0;
    while i < chosen.len()
        invariant
            i <= chosen@.len(),
            text::views(ids@) == ids_of(chosen@).take(i as int),
        decreases chosen.len() - i,
    {
        let ghost before = text::views(ids@);
        let id: String = chosen[i].id.as_str().to_owned();
        let ghost added = id@;
        ids.push(id);
        proof {
            assert(text::views(ids@) =~= before.push(added));
            assert(before.push(added) =~= ids_of(chosen@).take(i + 1));
        }
        i += 1;
    }
    assert(ids_of(chosen@).take(i as int) =~= ids_of(chosen@));
    sort_dedup(ids)
}

/// Discovers the clusters among all memories. What is known of the candidates
/// was gathered for the ids that [`candidate_ids`] gives.
pub fn discover_clusters<
    D: Fn(usize, usize) -> Score,
    O: Fn(Score, Score, Score) -> bool,
    I: Fn(Score, Score, Score) -> bool,
    R: Fn(PairFacts, usize, usize) -> Score,
    C: Fn(&Vec<Edge>, usize, CommunityParams) -> Vec<usize>,
    A: Fn(&Vec<Edge>, &Vec<usize>, usize) -> Appraisal,
>(
    memories: &Vec<MemoryRecord>,
    gathered: &Gathered,
    config: &ClusterDiscoveryConfig,
    m: &Arithmetic<D, O, I, R, C, A>,
) -> (r: Vec<MemoryCluster>)
    requires
        gathered.valid(),
        text::is_sorted_set(
            text::views(gathered.ids@),
            ids_of(cluster::candidates(memories@, *config, false)),
        ),
        m.usable(gathered.embedded@.len()),
        config.min_cluster_size > 0 || config.max_cluster_size > 0,
    ensures
        cluster::candidates(memories@, *config, false).len() == 0 ==> r@.len() == 0,
        cluster::candidates(memories@, *config, false).len() > 0 ==> exists|steps: Steps|
            steps.lead_to(*gathered, *config, *m, r@),
{
    if select_candidates(memories, config, false).len() == 0 {
        return Vec::new();
    }
    discover_clusters_inner(gathered, config, m)
}

/// Discovers the clusters among chosen memories.
pub fn discover_clusters_subset<
    D: Fn(usize, usize) -> Score,
    O: Fn(Score, Score, Score) -> bool,
    I: Fn(Score, Score, Score) -> bool,
    R: Fn(PairFacts, usize, usize) -> Score,
    C: Fn(&Vec<Edge>, usize, CommunityParams) -> Vec<usize>,
    A: Fn(&Vec<Edge>, &Vec<usize>, usize) -> Appraisal,
>(
    memories: &Vec<MemoryRecord>,
    gathered: &Gathered,
    config: &ClusterDiscoveryConfig,
    m: &Arithmetic<D, O, I, R, C, A>,
) -> (r: Vec<MemoryCluster>)
    requires
        gathered.valid(),
        text::is_sorted_set(
            text::views(gathered.ids@),
            ids_of(cluster::candidates(memories@, *config, true)),
        ),
        m.usable(gathered.embedded@.len()),
        config.min_cluster_size > 0 || config.max_cluster_size > 0,
    ensures
        cluster::candidates(memories@, *config, true).len() == 0 ==> r@.len() == 0,
        cluster::candidates(memories@, *config, true).len() > 0 ==> exists|steps: Steps|
            steps.lead_to(*gathered, *config, *m, r@),
{
    if select_candidates(memories, config, true).len() == 0 {
        return Vec::new();
    }
    discover_clusters_inner(gathered, config, m)
}

// ---------------------------------------------------------------------------
// What discovery keeps
// ---------------------------------------------------------------------------

/// No cluster is better than one before it.
pub proof fn law_best_cluster_first<
    D: Fn(usize, usize) -> Score,
    O: Fn(Score, Score, Score) -> bool,
    I: Fn(Score, Score, Score) -> bool,
    R: Fn(PairFacts, usize, usize) -> Score,
    C: Fn(&Vec<Edge>, usize, CommunityParams) -> Vec<usize>,
    A: Fn(&Vec<Edge>, &Vec<usize>, usize) -> Appraisal,
>(
    steps: Steps,
    gathered: Gathered,
    config: ClusterDiscoveryConfig,
    m: Arithmetic<D, O, I, R, C, A>,
    r: Seq<MemoryCluster>,
    i: int,
    j: int,
)
    requires
        steps.lead_to(gathered, config, m, r),
        0 <= i < j < r.len(),
    ensures
        r[i].quality_score.rank() >= r[j].quality_score.rank(),
{
    let clusters = made(steps.built);
    let keys = cluster::quality_keys(clusters);
    let a = steps.order[i] as int;
    let b = steps.order[j] as int;
    assert(ranking::precedes(keys, cluster::no_keys(clusters.len()), a, b));
    assert(same_cluster(r[i], clusters[a]));
    assert(same_cluster(r[j], clusters[b]));
    assert(keys[a] == (-clusters[a].quality_score.rank()) as i64);
    assert(keys[b] == (-clusters[b].quality_score.rank()) as i64);
}

/// The group of which a cluster was made.
spec fn source(built: Seq<Option<MemoryCluster>>, k: int) -> int
    decreases built.len(),
{
    if built.len() == 0 {
        0
    } else if built.last() is Some && k == made(built.drop_last()).len() {
        built.len() - 1
    } else {
        source(built.drop_last(), k)
    }
}

proof fn lemma_source(built: Seq<Option<MemoryCluster>>, k: int)
    requires
        0 <= k < made(built).len(),
    ensures
        0 <= source(built, k) < built.len(),
        built[source(built, k)] == Some(made(built)[k]),
    decreases built.len(),
{
    let rest = built.drop_last();
    if k < made(rest).len() {
        lemma_source(rest, k);
    }
}

proof fn lemma_sources_differ(built: Seq<Option<MemoryCluster>>, k: int, l: int)
    requires
        0 <= k < l < made(built).len(),
    ensures
        source(built, k) < source(built, l),
    decreases built.len(),
{
    let rest = built.drop_last();
    lemma_source(built, k);
    if l < made(rest).len() {
        lemma_sources_differ(rest, k, l);
    } else {
        lemma_source(rest, k);
    }
}

/// What a cluster holds are the ids of its group.
proof fn lemma_member_of_group<A: Fn(&Vec<Edge>, &Vec<usize>, usize) -> Appraisal>(
    appraise: A,
    gathered: Gathered,
    edges: Seq<Edge>,
    config: ClusterDiscoveryConfig,
    members: Seq<usize>,
    c: MemoryCluster,
    id: Seq<char>,
)
    requires
        is_grouped(appraise, gathered, edges, config, members, Some(c)),
        text::views(c.members@).contains(id),
    ensures
        named(gathered.ids@, members).contains(id),
{
    let (inside, group, n, a, names) = choose|
        inside: Vec<Edge>,
        group: Vec<usize>,
        n: usize,
        a: Appraisal,
        names: Vec<String>,
    |
        inside@ == within(edges, members) && group@ == members && n == cluster::with_entities(
            gathered.entities@,
            members,
        ) && text::views(names@) == named(gathered.ids@, members) && #[trigger] call_ensures(
            appraise,
            (&inside, &group, n),
            a,
        ) && #[trigger] cluster::is_cluster_of(
            Some(c),
            names@,
            a.averages@,
            a.quality,
            signals_of(config, a.entity),
            config.min_cluster_size as nat,
        );
    let held = text::views(c.members@);
    let given = text::views(names@);
    held.to_multiset_ensures();
    given.to_multiset_ensures();
    assert(held.to_multiset().count(id) > 0);
    assert(given.to_multiset().count(id) > 0);
    assert(given.contains(id));
}

/// The members of a cluster are candidates, and no candidate is in two clusters.
pub proof fn law_clusters_disjoint<
    D: Fn(usize, usize) -> Score,
    O: Fn(Score, Score, Score) -> bool,
    I: Fn(Score, Score, Score) -> bool,
    R: Fn(PairFacts, usize, usize) -> Score,
    C: Fn(&Vec<Edge>, usize, CommunityParams) -> Vec<usize>,
    A: Fn(&Vec<Edge>, &Vec<usize>, usize) -> Appraisal,
>(
    steps: Steps,
    gathered: Gathered,
    config: ClusterDiscoveryConfig,
    m: Arithmetic<D, O, I, R, C, A>,
    r: Seq<MemoryCluster>,
    i: int,
    j: int,
    id: Seq<char>,
)
    requires
        gathered.valid(),
        gathered.ids@.len() <= usize::MAX,
        steps.assignments@.len() <= usize::MAX,
        steps.lead_to(gathered, config, m, r),
        0 <= i < r.len(),
        0 <= j < r.len(),
        text::views(r[i].members@).contains(id),
    ensures
        text::views(gathered.ids@).contains(id),
        text::views(r[j].members@).contains(id) ==> i == j,
{
    let n = gathered.ids@.len() as usize;
    let edge_count = steps.kept@.len() as usize;
    let groups = cluster::communities_of(steps.assignments@, n, edge_count, config);
    let total = if edge_count == 0 {
        0
    } else if steps.assignments@.len() < n {
        steps.assignments@.len() as int
    } else {
        n as int
    };
    let x = lemma_place(steps, gathered, config, m, r, i, id);
    if text::views(r[j].members@).contains(id) && i != j {
        let y = lemma_place(steps, gathered, config, m, r, j, id);
        let a = source(steps.built, steps.order[i] as int);
        let b = source(steps.built, steps.order[j] as int);
        let ids = text::views(gathered.ids@);
        if x < y {
            text::lemma_text_lt_irreflexive(ids[x as int]);
        } else if y < x {
            text::lemma_text_lt_irreflexive(ids[y as int]);
        }
        assert(x == y);
        assert(steps.order[i] != steps.order[j]);
        if steps.order[i] < steps.order[j] {
            lemma_sources_differ(steps.built, steps.order[i] as int, steps.order[j] as int);
            cluster::law_communities_disjoint(
                steps.assignments@,
                total,
                config.min_cluster_size as nat,
                config.max_cluster_size as nat,
                total,
                a,
                b,
                x,
            );
        } else {
            lemma_sources_differ(steps.built, steps.order[j] as int, steps.order[i] as int);
            cluster::law_communities_disjoint(
                steps.assignments@,
                total,
                config.min_cluster_size as nat,
                config.max_cluster_size as nat,
                total,
                b,
                a,
                x,
            );
        }
    }
}

/// A cluster has as many members as the group that it was made of, and that are
/// enough.
proof fn lemma_size_of_group<A: Fn(&Vec<Edge>, &Vec<usize>, usize) -> Appraisal>(
    appraise: A,
    gathered: Gathered,
    edges: Seq<Edge>,
    config: ClusterDiscoveryConfig,
    members: Seq<usize>,
    c: MemoryCluster,
)
    requires
        is_grouped(appraise, gathered, edges, config, members, Some(c)),
    ensures
        c.members@.len() == members.len(),
        c.members@.len() >= config.min_cluster_size,
{
    let (inside, group, n, a, names) = choose|
        inside: Vec<Edge>,
        group: Vec<usize>,
        n: usize,
        a: Appraisal,
        names: Vec<String>,
    |
        inside@ == within(edges, members) && group@ == members && n == cluster::with_entities(
            gathered.entities@,
            members,
        ) && text::views(names@) == named(gathered.ids@, members) && #[trigger] call_ensures(
            appraise,
            (&inside, &group, n),
            a,
        ) && #[trigger] cluster::is_cluster_of(
            Some(c),
            names@,
            a.averages@,
            a.quality,
            signals_of(config, a.entity),
            config.min_cluster_size as nat,
        );
    let held = text::views(c.members@);
    let given = text::views(names@);
    held.to_multiset_ensures();
    given.to_multiset_ensures();
    assert(held.len() == held.to_multiset().len());
    assert(given.len() == given.to_multiset().len());
    assert(given.len() == named(gathered.ids@, members).len());
}

/// A cluster has no less members than the least size of the settings, and no
/// more than the greatest.
pub proof fn law_cluster_sizes<
    D: Fn(usize, usize) -> Score,
    O: Fn(Score, Score, Score) -> bool,
    I: Fn(Score, Score, Score) -> bool,
    R: Fn(PairFacts, usize, usize) -> Score,
    C: Fn(&Vec<Edge>, usize, CommunityParams) -> Vec<usize>,
    A: Fn(&Vec<Edge>, &Vec<usize>, usize) -> Appraisal,
>(
    steps: Steps,
    gathered: Gathered,
    config: ClusterDiscoveryConfig,
    m: Arithmetic<D, O, I, R, C, A>,
    r: Seq<MemoryCluster>,
    i: int,
)
    requires
        steps.lead_to(gathered, config, m, r),
        0 <= i < r.len(),
    ensures
        config.min_cluster_size <= r[i].members@.len() <= config.max_cluster_size,
{
    let n = gathered.ids@.len() as usize;
    let edge_count = steps.kept@.len() as usize;
    let groups = cluster::communities_of(steps.assignments@, n, edge_count, config);
    let total = if edge_count == 0 {
        0
    } else if steps.assignments@.len() < n {
        steps.assignments@.len() as int
    } else {
        n as int
    };
    let k = steps.order[i] as int;
    let c = made(steps.built)[k];
    assert(same_cluster(r[i], c));
    lemma_source(steps.built, k);
    let g = source(steps.built, k);
    assert(is_grouped(m.appraise, gathered, steps.kept@, config, groups[g], steps.built[g]));
    lemma_size_of_group(m.appraise, gathered, steps.kept@, config, groups[g], c);
    cluster::law_community_sizes(
        steps.assignments@,
        total,
        config.min_cluster_size as nat,
        config.max_cluster_size as nat,
        total,
        g,
    );
}

/// The place among the candidates of a member of a cluster.
proof fn lemma_place<
    D: Fn(usize, usize) -> Score,
    O: Fn(Score, Score, Score) -> bool,
    I: Fn(Score, Score, Score) -> bool,
    R: Fn(PairFacts, usize, usize) -> Score,
    C: Fn(&Vec<Edge>, usize, CommunityParams) -> Vec<usize>,
    A: Fn(&Vec<Edge>, &Vec<usize>, usize) -> Appraisal,
>(
    steps: Steps,
    gathered: Gathered,
    config: ClusterDiscoveryConfig,
    m: Arithmetic<D, O, I, R, C, A>,
    r: Seq<MemoryCluster>,
    i: int,
    id: Seq<char>,
) -> (x: usize)
    requires
        gathered.ids@.len() <= usize::MAX,
        steps.assignments@.len() <= usize::MAX,
        steps.lead_to(gathered, config, m, r),
        0 <= i < r.len(),
        text::views(r[i].members@).contains(id),
    ensures
        x < gathered.ids@.len(),
        text::views(gathered.ids@)[x as int] == id,
        text::views(gathered.ids@).contains(id),
        ({
            let groups = cluster::communities_of(
                steps.assignments@,
                gathered.ids@.len() as usize,
                steps.kept@.len() as usize,
                config,
            );
            let g = source(steps.built, steps.order[i] as int);
            0 <= g < groups.len() && groups[g].contains(x)
        }),
{
    let n = gathered.ids@.len() as usize;
    let edge_count = steps.kept@.len() as usize;
    let groups = cluster::communities_of(steps.assignments@, n, edge_count, config);
    let total = if edge_count == 0 {
        0
    } else if steps.assignments@.len() < n {
        steps.assignments@.len() as int
    } else {
        n as int
    };
    let k = steps.order[i] as int;
    let c = made(steps.built)[k];
    assert(same_cluster(r[i], c));
    lemma_source(steps.built, k);
    let g = source(steps.built, k);
    assert(is_grouped(
        m.appraise,
        gathered,
        steps.kept@,
        config,
        groups[g],
        steps.built[g],
    ));
    lemma_member_of_group(m.appraise, gathered, steps.kept@, config, groups[g], c, id);
    let names = named(gathered.ids@, groups[g]);
    let p = choose|p: int| 0 <= p < names.len() && names[p] == id;
    cluster::lemma_community_nodes(
        steps.assignments@,
        total,
        config.min_cluster_size as nat,
        config.max_cluster_size as nat,
        total,
        g,
    );
    let x = groups[g][p];
    assert(x < total);
    assert(text::views(gathered.ids@)[x as int] == id);
    x
}

/// A group of enough members becomes a cluster, of the weights of the settings.
proof fn lemma_group_becomes_cluster<A: Fn(&Vec<Edge>, &Vec<usize>, usize) -> Appraisal>(
    appraise: A,
    gathered: Gathered,
    edges: Seq<Edge>,
    config: ClusterDiscoveryConfig,
    members: Seq<usize>,
    r: Option<MemoryCluster>,
)
    requires
        is_grouped(appraise, gathered, edges, config, members, r),
    ensures
        members.len() >= config.min_cluster_size ==> r is Some,
        r matches Some(c) ==> {
            &&& c.signals_summary.hebbian_contribution == config.weights.hebbian
            &&& c.signals_summary.embedding_contribution == config.weights.embedding
            &&& c.signals_summary.temporal_contribution == config.weights.temporal
            &&& text::views(c.members@).to_multiset() == named(
                gathered.ids@,
                members,
            ).to_multiset()
        },
{
    let (inside, group, n, a, names) = choose|
        inside: Vec<Edge>,
        group: Vec<usize>,
        n: usize,
        a: Appraisal,
        names: Vec<String>,
    |
        inside@ == within(edges, members) && group@ == members && n == cluster::with_entities(
            gathered.entities@,
            members,
        ) && text::views(names@) == named(gathered.ids@, members) && #[trigger] call_ensures(
            appraise,
            (&inside, &group, n),
            a,
        ) && #[trigger] cluster::is_cluster_of(
            r,
            names@,
            a.averages@,
            a.quality,
            signals_of(config, a.entity),
            config.min_cluster_size as nat,
        );
    assert(text::views(names@).len() == named(gathered.ids@, members).len());
}

proof fn lemma_made_holds(built: Seq<Option<MemoryCluster>>, g: int)
    requires
        0 <= g < built.len(),
        built[g] is Some,
    ensures
        made(built).contains(built[g]->0),
    decreases built.len(),
{
    let rest = built.drop_last();
    let before = made(rest);
    if g < rest.len() {
        assert(rest[g] == built[g]);
        lemma_made_holds(rest, g);
        let k = choose|k: int| 0 <= k < before.len() && before[k] == built[g]->0;
        assert(made(built)[k] == built[g]->0);
    } else {
        assert(built.last() == built[g]);
        assert(made(built)[before.len() as int] == built[g]->0);
    }
}

proof fn lemma_made_all(built: Seq<Option<MemoryCluster>>)
    requires
        forall|g: int| 0 <= g < built.len() ==> (#[trigger] built[g]) is Some,
    ensures
        made(built).len() == built.len(),
    decreases built.len(),
{
    if built.len() > 0 {
        let rest = built.drop_last();
        assert forall|g: int| 0 <= g < rest.len() implies (#[trigger] rest[g]) is Some by {
            assert(rest[g] == built[g]);
        }
        lemma_made_all(rest);
        assert(built.last() == built[built.len() - 1]);
    }
}

/// Every cluster that was built is among those returned, as it was built.
pub proof fn law_built_clusters_are_returned<
    D: Fn(usize, usize) -> Score,
    O: Fn(Score, Score, Score) -> bool,
    I: Fn(Score, Score, Score) -> bool,
    R: Fn(PairFacts, usize, usize) -> Score,
    C: Fn(&Vec<Edge>, usize, CommunityParams) -> Vec<usize>,
    A: Fn(&Vec<Edge>, &Vec<usize>, usize) -> Appraisal,
>(
    steps: Steps,
    gathered: Gathered,
    config: ClusterDiscoveryConfig,
    m: Arithmetic<D, O, I, R, C, A>,
    r: Seq<MemoryCluster>,
    g: int,
)
    requires
        steps.lead_to(gathered, config, m, r),
        0 <= g < steps.built.len(),
        steps.built[g] is Some,
    ensures
        exists|i: int|
            {
                let c = steps.built[g]->0;
                &&& 0 <= i < r.len()
                &&& (#[trigger] r[i]).id@ == c.id@
                &&& r[i].members@ == c.members@
                &&& r[i].quality_score == c.quality_score
                &&& r[i].centroid_id@ == c.centroid_id@
                &&& r[i].signals_summary == c.signals_summary
            },
{
    let c = steps.built[g]->0;
    let clusters = made(steps.built);
    lemma_made_holds(steps.built, g);
    let keys = cluster::quality_keys(clusters);
    ranking::law_order_keeps_items(
        clusters,
        steps.order,
        keys,
        cluster::no_keys(clusters.len()),
    );
    let sorted = steps.order.map_values(|i: usize| clusters[i as int]);
    clusters.to_multiset_ensures();
    sorted.to_multiset_ensures();
    assert(clusters.to_multiset().count(c) > 0);
    assert(sorted.contains(c));
    let i = choose|i: int| 0 <= i < sorted.len() && sorted[i] == c;
    assert(clusters[steps.order[i] as int] == c);
    assert(same_cluster(r[i], clusters[steps.order[i] as int]));
}

/// Every community becomes a cluster, and there is no other cluster.
pub proof fn law_communities_become_clusters<
    D: Fn(usize, usize) -> Score,
    O: Fn(Score, Score, Score) -> bool,
    I: Fn(Score, Score, Score) -> bool,
    R: Fn(PairFacts, usize, usize) -> Score,
    C: Fn(&Vec<Edge>, usize, CommunityParams) -> Vec<usize>,
    A: Fn(&Vec<Edge>, &Vec<usize>, usize) -> Appraisal,
>(
    steps: Steps,
    gathered: Gathered,
    config: ClusterDiscoveryConfig,
    m: Arithmetic<D, O, I, R, C, A>,
    r: Seq<MemoryCluster>,
)
    requires
        steps.lead_to(gathered, config, m, r),
        config.min_cluster_size <= config.max_cluster_size,
    ensures
        r.len() == cluster::communities_of(
            steps.assignments@,
            gathered.ids@.len() as usize,
            steps.kept@.len() as usize,
            config,
        ).len(),
{
    let n = gathered.ids@.len() as usize;
    let edge_count = steps.kept@.len() as usize;
    let groups = cluster::communities_of(steps.assignments@, n, edge_count, config);
    let total = if edge_count == 0 {
        0
    } else if steps.assignments@.len() < n {
        steps.assignments@.len() as int
    } else {
        n as int
    };
    assert forall|g: int| 0 <= g < steps.built.len() implies (#[trigger] steps.built[g]) is Some by {
        assert(is_grouped(m.appraise, gathered, steps.kept@, config, groups[g], steps.built[g]));
        cluster::law_community_sizes(
            steps.assignments@,
            total,
            config.min_cluster_size as nat,
            config.max_cluster_size as nat,
            total,
            g,
        );
        lemma_group_becomes_cluster(
            m.appraise,
            gathered,
            steps.kept@,
            config,
            groups[g],
            steps.built[g],
        );
    }
    lemma_made_all(steps.built);
}

/// A community that was detected.
pub open spec fn group_at(
    steps: Steps,
    gathered: Gathered,
    config: ClusterDiscoveryConfig,
    g: int,
) -> Seq<usize> {
    cluster::communities_of(
        steps.assignments@,
        gathered.ids@.len() as usize,
        steps.kept@.len() as usize,
        config,
    )[g]
}

/// Whether there is a community of that number.
pub open spec fn is_group_of(
    steps: Steps,
    gathered: Gathered,
    config: ClusterDiscoveryConfig,
    g: int,
) -> bool {
    0 <= g < cluster::communities_of(
        steps.assignments@,
        gathered.ids@.len() as usize,
        steps.kept@.len() as usize,
        config,
    ).len()
}

/// A cluster tells the weights that the signals had, and holds the ids of a
/// community.
pub proof fn law_clusters_tell_the_weights<
    D: Fn(usize, usize) -> Score,
    O: Fn(Score, Score, Score) -> bool,
    I: Fn(Score, Score, Score) -> bool,
    R: Fn(PairFacts, usize, usize) -> Score,
    C: Fn(&Vec<Edge>, usize, CommunityParams) -> Vec<usize>,
    A: Fn(&Vec<Edge>, &Vec<usize>, usize) -> Appraisal,
>(
    steps: Steps,
    gathered: Gathered,
    config: ClusterDiscoveryConfig,
    m: Arithmetic<D, O, I, R, C, A>,
    r: Seq<MemoryCluster>,
    i: int,
)
    requires
        steps.lead_to(gathered, config, m, r),
        0 <= i < r.len(),
    ensures
        r[i].signals_summary.hebbian_contribution == config.weights.hebbian,
        r[i].signals_summary.embedding_contribution == config.weights.embedding,
        r[i].signals_summary.temporal_contribution == config.weights.temporal,
        exists|g: int| #[trigger]
            is_group_of(steps, gathered, config, g) && text::views(r[i].members@).to_multiset()
                == group_at(steps, gathered, config, g).map_values(
                |k: usize| gathered.ids@[k as int]@,
            ).to_multiset(),
{
    let n = gathered.ids@.len() as usize;
    let edge_count = steps.kept@.len() as usize;
    let groups = cluster::communities_of(steps.assignments@, n, edge_count, config);
    let k = steps.order[i] as int;
    let c = made(steps.built)[k];
    assert(same_cluster(r[i], c));
    lemma_source(steps.built, k);
    let g = source(steps.built, k);
    assert(is_grouped(m.appraise, gathered, steps.kept@, config, groups[g], steps.built[g]));
    lemma_group_becomes_cluster(
        m.appraise,
        gathered,
        steps.kept@,
        config,
        groups[g],
        steps.built[g],
    );
    assert(is_group_of(steps, gathered, config, g));
    assert(named(gathered.ids@, groups[g]) =~= groups[g].map_values(
        |k: usize| gathered.ids@[k as int]@,
    ));
}

/// The ids among which clusters are sought are those of the memories.
pub proof fn law_ids_are_the_memories(memories: Seq<MemoryRecord>, id: Seq<char>)
    ensures
        ids_of(memories).contains(id) <==> exists|i: int|
            0 <= i < memories.len() && (#[trigger] memories[i]).id@ == id,
{
    if ids_of(memories).contains(id) {
        let i = choose|i: int| 0 <= i < ids_of(memories).len() && ids_of(memories)[i] == id;
        assert(memories[i].id@ == id);
    }
    if exists|i: int| 0 <= i < memories.len() && (#[trigger] memories[i]).id@ == id {
        let i = choose|i: int| 0 <= i < memories.len() && (#[trigger] memories[i]).id@ == id;
        assert(ids_of(memories)[i] == id);
    }
}

/// Neighbours are sought among the embedded memories alone: every pair is of two
/// of them, and there is none where there are less than two.
pub proof fn law_neighbours_are_embedded<
    D: Fn(usize, usize) -> Score,
    O: Fn(Score, Score, Score) -> bool,
    I: Fn(Score, Score, Score) -> bool,
>(
    distance: D,
    outer: O,
    inner: I,
    embedded: Seq<usize>,
    configured: Option<usize>,
    pairs: Seq<Pair>,
    p: Pair,
)
    requires
        vp_tree::measures(distance, embedded.len()),
        embedded.len() <= usize::MAX,
        neighbours_of(distance, outer, inner, embedded, configured, pairs),
    ensures
        embedded.len() < 2 ==> pairs.len() == 0,
        pairs.contains(p) ==> embedded.contains(p.0) && embedded.contains(p.1),
        pairs.contains(p) && embedded.no_duplicates() ==> p.0 != p.1,
{
    if embedded.len() >= 2 && pairs.contains(p) {
        let (k, tree, results) = choose|
            k: usize,
            tree: VpTree,
            results: Seq<Seq<(usize, Score)>>,
        |
            cluster::is_limit_for(configured, embedded.len() as int, k) && #[trigger]
            are_neighbours(distance, outer, inner, embedded, k as nat, tree, results, pairs);
        assert(is_neighbour_pair(embedded, results, p));
        let (i, j) = choose|i: int, j: int|
            0 <= i < results.len() && 0 <= j < results[i].len() && p == (
                embedded[i],
                embedded[(#[trigger] results[i][j]).0 as int],
            );
        assert(tree.answers(distance, outer, inner, i as usize, k as nat, results[i]));
        assert(k > 0) by {
            vp_tree::law_answers_come_nearest_first(
                tree,
                distance,
                outer,
                inner,
                i as usize,
                k as nat,
                results[i],
                0,
                0,
            );
        }
        let seen = choose|seen: Seq<usize>| #[trigger]
            tree.finds(distance, outer, inner, i as usize, k as nat, seen, results[i]);
        vp_tree::law_search_looks_at_others(
            tree,
            distance,
            outer,
            inner,
            i as usize,
            k as nat,
            seen,
            results[i],
        );
        let q = results[i][j].0;
        assert(q < embedded.len() && q != i);
        assert(embedded.contains(embedded[q as int]));
    }
}

} // verus!
