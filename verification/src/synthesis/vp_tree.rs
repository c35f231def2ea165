//! A tree of vantage points, in which the nearest neighbours of a point are
//! found without looking at every other point.
//!
//! A node splits the points below it by their distance from its own point. How
//! far two points are apart, and whether a side can still hold a nearer point,
//! is computed outside: the tree is handed functions for both.

use crate::ranking;
use crate::score;
use crate::score::Score;
use crate::synthesis::neighbors;
use crate::synthesis::neighbors::{split_at_median, Found, NearestHeap, Split};
use vstd::multiset::*;
use vstd::prelude::*;
use vstd::seq_lib::*;

verus! {

// ---------------------------------------------------------------------------
// Distances
// ---------------------------------------------------------------------------

/// The distance between two points.
pub open spec fn between<F: Fn(usize, usize) -> Score>(f: F, i: usize, j: usize) -> Score {
    choose|d: Score| call_ensures(f, (i, j), d)
}

/// Whether a function gives a distance for every two of `count` points: a
/// number, and the same one each time.
pub open spec fn measures<F: Fn(usize, usize) -> Score>(f: F, count: nat) -> bool {
    &&& forall|i: usize, j: usize| i < count && j < count ==> #[trigger] call_requires(f, (i, j))
    &&& forall|i: usize, j: usize, d: Score|
        i < count && j < count && #[trigger] call_ensures(f, (i, j), d) ==> d == between(f, i, j)
    &&& forall|i: usize, j: usize|
        i < count && j < count ==> !(#[trigger] between(f, i, j)).nan()
}

/// The distances of a list of points from one point.
pub open spec fn distances_from<F: Fn(usize, usize) -> Score>(
    f: F,
    v: usize,
    points: Seq<usize>,
) -> Seq<Score> {
    points.map_values(|p: usize| between(f, v, p))
}

// ---------------------------------------------------------------------------
// The tree
// ---------------------------------------------------------------------------

/// A node of the tree.
#[derive(Clone, Copy, Debug)]
pub struct VpNode {
    /// The point that stands here.
    pub point: usize,
    /// The distance at which the points below are split.
    pub threshold: Score,
    /// The node of the points that are no farther.
    pub left: Option<usize>,
    /// The node of the points that are no nearer.
    pub right: Option<usize>,
}

/// A tree over the points `0..count`. The root is the first node.
#[derive(Debug)]
pub struct VpTree {
    /// The nodes.
    pub nodes: Vec<VpNode>,
    /// The number of points.
    pub count: usize,
}

/// Whether a node, where there is one, stands behind the node above it.
pub open spec fn behind(child: Option<usize>, i: usize) -> bool {
    child matches Some(c) ==> c > i
}

/// The points at some places of a list.
pub open spec fn picked(points: Seq<usize>, places: Seq<usize>) -> Seq<usize> {
    places.map_values(|i: usize| points[i as int])
}

/// Whether the nodes from `at` on are the tree of a list of points: the first
/// point stands at the top, and the others are split at the median of their
/// distances from it.
pub open spec fn is_tree<F: Fn(usize, usize) -> Score>(
    nodes: Seq<VpNode>,
    at: Option<usize>,
    points: Seq<usize>,
    f: F,
) -> bool
    decreases points.len(),
{
    match at {
        None => points.len() == 0,
        Some(i) => i < nodes.len() && points.len() > 0 && {
            let n = nodes[i as int];
            let rest = points.drop_first();
            let far = distances_from(f, points[0], rest);
            let m = (rest.len() / 2) as int;
            &&& n.point == points[0]
            &&& behind(n.left, i)
            &&& behind(n.right, i)
            &&& if rest.len() == 0 {
                n.threshold.bits == score::ZERO && n.left is None && n.right is None
            } else {
                exists|order: Seq<usize>| #[trigger]
                    ranking::is_order(
                        order,
                        neighbors::split_keys(far),
                        neighbors::same_keys(rest.len()),
                    ) && n.threshold == far[order[m] as int] && is_tree(
                        nodes,
                        n.left,
                        picked(rest, order.take(m + 1)),
                        f,
                    ) && is_tree(nodes, n.right, picked(rest, order.skip(m + 1)), f)
            }
        },
    }
}

/// The nodes of a tree can stand among others, as long as they stand where they
/// stood.
proof fn lemma_same_tree<F: Fn(usize, usize) -> Score>(
    a: Seq<VpNode>,
    b: Seq<VpNode>,
    low: int,
    at: Option<usize>,
    points: Seq<usize>,
    f: F,
)
    requires
        is_tree(a, at, points, f),
        at matches Some(i) ==> i >= low,
        a.len() <= b.len(),
        forall|j: int| low <= j < a.len() ==> b[j] == #[trigger] a[j],
    ensures
        is_tree(b, at, points, f),
    decreases points.len(),
{
    if let Some(i) = at {
        let n = a[i as int];
        let rest = points.drop_first();
        let far = distances_from(f, points[0], rest);
        let m = (rest.len() / 2) as int;
        assert(b[i as int] == n);
        if rest.len() > 0 {
            let order = choose|order: Seq<usize>| #[trigger]
                ranking::is_order(
                    order,
                    neighbors::split_keys(far),
                    neighbors::same_keys(rest.len()),
                ) && n.threshold == far[order[m] as int] && is_tree(
                    a,
                    n.left,
                    picked(rest, order.take(m + 1)),
                    f,
                ) && is_tree(a, n.right, picked(rest, order.skip(m + 1)), f);
            lemma_same_tree(a, b, low, n.left, picked(rest, order.take(m + 1)), f);
            lemma_same_tree(a, b, low, n.right, picked(rest, order.skip(m + 1)), f);
        }
    }
}

/// The points `0..count`.
pub open spec fn all_points(count: usize) -> Seq<usize> {
    Seq::new(count as nat, |i: int| i as usize)
}

impl VpTree {
    /// The node at the top, where there is one.
    pub open spec fn root(self) -> Option<usize> {
        if self.nodes@.len() == 0 {
            None
        } else {
            Some(0)
        }
    }

    /// Whether this is the tree of its points under a distance.
    pub open spec fn grown<F: Fn(usize, usize) -> Score>(self, f: F) -> bool {
        is_tree(self.nodes@, self.root(), all_points(self.count), f)
    }

    /// Builds the tree of `count` points.
    pub fn build<F: Fn(usize, usize) -> Score>(count: usize, distance: &F) -> (r: VpTree)
        requires
            measures(*distance, count as nat),
        ensures
            r.count == count,
            r.grown(*distance),
    {
        let mut points: Vec<usize> = Vec::new();
        let mut i: usize = 0;
        while i < count
            invariant
                i <= count,
                points@ == all_points(i),
            decreases count - i,
        {
            points.push(i);
            i += 1;
            assert(points@ =~= all_points(i));
        }
        let mut nodes: Vec<VpNode> = Vec::new();
        let _top: Option<usize> = build_recursive(&mut nodes, points, count, distance);
        VpTree { nodes, count }
    }
}

/// Adds the tree of some points to the nodes, and gives its top.
fn build_recursive<F: Fn(usize, usize) -> Score>(
    nodes: &mut Vec<VpNode>,
    points: Vec<usize>,
    count: usize,
    distance: &F,
) -> (r: Option<usize>)
    requires
        measures(*distance, count as nat),
        forall|k: int| 0 <= k < points@.len() ==> (#[trigger] points@[k]) < count,
    ensures
        old(nodes)@.len() <= final(nodes)@.len(),
        final(nodes)@.take(old(nodes)@.len() as int) == old(nodes)@,
        is_tree(final(nodes)@, r, points@, *distance),
        r matches Some(i) ==> i == old(nodes)@.len(),
        r is None ==> final(nodes)@ == old(nodes)@,
    decreases points@.len(),
{
    if points.len() == 0 {
        return None;
    }
    let ghost before = nodes@;
    let top: usize = nodes.len();
    let vantage: usize = points[0];
    let mut rest: Vec<usize> = Vec::new();
    let mut distances: Vec<Score> = Vec::new();
    let mut i: usize = 1;
    while i < points.len()
        invariant
            1 <= i <= points@.len(),
            vantage == points@[0],
            measures(*distance, count as nat),
            forall|k: int| 0 <= k < points@.len() ==> (#[trigger] points@[k]) < count,
            rest@ == points@.drop_first().take(i - 1),
            distances@ == distances_from(*distance, vantage, rest@),
        decreases points.len() - i,
    {
        let ghost so_far = rest@;
        let p: usize = points[i];
        let d: Score = distance(vantage, p);
        rest.push(p);
        distances.push(d);
        proof {
            assert(rest@ =~= points@.drop_first().take(i as int));
            assert(distances@ =~= distances_from(*distance, vantage, rest@));
        }
        i += 1;
    }
    assert(rest@ =~= points@.drop_first());
    if rest.len() == 0 {
        nodes.push(
            VpNode { point: vantage, threshold: Score { bits: score::ZERO }, left: None, right: None },
        );
        assert(nodes@.take(before.len() as int) =~= before);
        return Some(top);
    }
    proof {
        assert forall|k: int| 0 <= k < distances@.len() implies !(#[trigger] distances@[k]).nan() by {
            assert(rest@[k] == points@[k + 1]);
        }
    }
    let split: Split = split_at_median(&rest, &distances);
    let ghost m = (rest@.len() / 2) as int;
    let ghost order = choose|order: Seq<usize>| #[trigger]
        ranking::is_order(
            order,
            neighbors::split_keys(distances@),
            neighbors::same_keys(distances@.len()),
        ) && {
            &&& split.threshold == distances@[order[m] as int]
            &&& split.left@ == order.take(m + 1).map_values(|i: usize| rest@[i as int])
            &&& split.right@ == order.skip(m + 1).map_values(|i: usize| rest@[i as int])
        };
    let threshold: Score = split.threshold;
    proof {
        assert(split.left@ =~= picked(rest@, order.take(m + 1)));
        assert(split.right@ =~= picked(rest@, order.skip(m + 1)));
        assert forall|k: int| 0 <= k < split.left@.len() implies (#[trigger] split.left@[k])
            < count by {
            assert(order[k] < rest@.len());
            assert(rest@[order[k] as int] == points@[order[k] + 1]);
        }
        assert forall|k: int| 0 <= k < split.right@.len() implies (#[trigger] split.right@[k])
            < count by {
            assert(order[k + m + 1] < rest@.len());
            assert(rest@[order[k + m + 1] as int] == points@[order[k + m + 1] + 1]);
        }
    }
    nodes.push(VpNode { point: vantage, threshold, left: None, right: None });
    let ghost planted = nodes@;
    let left: Option<usize> = build_recursive(nodes, split.left, count, distance);
    let ghost with_left = nodes@;
    let right: Option<usize> = build_recursive(nodes, split.right, count, distance);
    let ghost with_both = nodes@;
    proof {
        assert(with_left.take(planted.len() as int) == planted);
        assert(with_both.take(with_left.len() as int) == with_left);
        assert(with_both.len() > top);
    }
    nodes.set(top, VpNode { point: vantage, threshold, left, right });
    proof {
        assert forall|j: int| top + 1 <= j < with_left.len() implies nodes@[j]
            == #[trigger] with_left[j] by {
            assert(with_both.take(with_left.len() as int)[j] == with_both[j]);
        }
        lemma_same_tree(
            with_left,
            nodes@,
            top + 1,
            left,
            picked(rest@, order.take(m + 1)),
            *distance,
        );
        lemma_same_tree(
            with_both,
            nodes@,
            top + 1,
            right,
            picked(rest@, order.skip(m + 1)),
            *distance,
        );
        assert(nodes@.take(before.len() as int) =~= before) by {
            assert forall|j: int| 0 <= j < before.len() implies nodes@[j] == before[j] by {
                assert(planted[j] == before[j]);
                assert(with_left.take(planted.len() as int)[j] == with_left[j]);
                assert(with_both.take(with_left.len() as int)[j] == with_both[j]);
            }
        }
    }
    Some(top)
}

/// How many nodes stand at `at` or behind it.
pub open spec fn nodes_left(nodes: Seq<VpNode>, at: Option<usize>) -> int {
    match at {
        Some(i) => if i < nodes.len() {
            nodes.len() - i
        } else {
            0
        },
        None => 0,
    }
}

/// The points that stand at a node or below it.
pub open spec fn points_under(nodes: Seq<VpNode>, at: Option<usize>) -> Seq<usize>
    decreases nodes_left(nodes, at),
{
    match at {
        Some(i) => if i < nodes.len() && behind(nodes[i as int].left, i) && behind(
            nodes[i as int].right,
            i,
        ) {
            let n = nodes[i as int];
            seq![n.point] + (points_under(nodes, n.left) + points_under(nodes, n.right))
        } else {
            Seq::empty()
        },
        None => Seq::empty(),
    }
}

/// A tree holds its points: none is lost, and none stands twice.
pub proof fn law_tree_holds_its_points<F: Fn(usize, usize) -> Score>(
    nodes: Seq<VpNode>,
    at: Option<usize>,
    points: Seq<usize>,
    f: F,
)
    requires
        is_tree(nodes, at, points, f),
    ensures
        points_under(nodes, at).to_multiset() == points.to_multiset(),
    decreases points.len(),
{
    if let Some(i) = at {
        let n = nodes[i as int];
        let rest = points.drop_first();
        let below = points_under(nodes, n.left) + points_under(nodes, n.right);
        assert(points =~= seq![n.point] + rest);
        assert(below.to_multiset() == rest.to_multiset()) by {
            if rest.len() == 0 {
                assert(below =~= rest);
            } else {
                let far = distances_from(f, points[0], rest);
                let keys = neighbors::split_keys(far);
                let same = neighbors::same_keys(rest.len());
                let m = (rest.len() / 2) as int;
                let order = choose|order: Seq<usize>| #[trigger]
                    ranking::is_order(order, keys, same) && n.threshold == far[order[m] as int]
                        && is_tree(nodes, n.left, picked(rest, order.take(m + 1)), f) && is_tree(
                        nodes,
                        n.right,
                        picked(rest, order.skip(m + 1)),
                        f,
                    );
                let lefts = picked(rest, order.take(m + 1));
                let rights = picked(rest, order.skip(m + 1));
                law_tree_holds_its_points(nodes, n.left, lefts, f);
                law_tree_holds_its_points(nodes, n.right, rights, f);
                ranking::law_order_keeps_items(rest, order, keys, same);
                assert(picked(rest, order) =~= lefts + rights);
                lemma_multiset_commutative(lefts, rights);
                lemma_multiset_commutative(
                    points_under(nodes, n.left),
                    points_under(nodes, n.right),
                );
            }
        }
        lemma_multiset_commutative(seq![n.point], rest);
        lemma_multiset_commutative(seq![n.point], below);
    } else {
        assert(points =~= Seq::empty());
    }
}

/// A list that is put in order and cut in two: what it held is in one of the
/// parts.
proof fn lemma_parts(
    rest: Seq<usize>,
    order: Seq<usize>,
    keys: Seq<i64>,
    same: Seq<i64>,
    cut: int,
)
    requires
        ranking::is_order(order, keys, same),
        keys.len() == rest.len(),
        rest.no_duplicates(),
        0 <= cut <= rest.len(),
    ensures
        ({
            let lefts = picked(rest, order.take(cut));
            let rights = picked(rest, order.skip(cut));
            &&& lefts.len() == cut
            &&& rights.len() == rest.len() - cut
            &&& lefts.no_duplicates()
            &&& rights.no_duplicates()
            &&& forall|p: usize| #[trigger]
                rest.contains(p) <==> lefts.contains(p) || rights.contains(p)
            &&& forall|p: usize| #[trigger] lefts.contains(p) ==> !rights.contains(p)
        }),
{
    let lefts = picked(rest, order.take(cut));
    let rights = picked(rest, order.skip(cut));
    let all = picked(rest, order);
    assert(all =~= lefts + rights);
    assert(all.no_duplicates()) by {
        assert forall|a: int, b: int|
            0 <= a < all.len() && 0 <= b < all.len() && a != b implies all[a] != all[b] by {
            assert(order[a] != order[b]);
            assert(order[a] < rest.len() && order[b] < rest.len());
        }
    }
    assert forall|p: usize| #[trigger] lefts.contains(p) implies !rights.contains(p) by {
        let a = choose|a: int| 0 <= a < lefts.len() && lefts[a] == p;
        if rights.contains(p) {
            let b = choose|b: int| 0 <= b < rights.len() && rights[b] == p;
            assert(all[a] == p && all[b + cut] == p);
        }
    }
    assert(lefts.no_duplicates()) by {
        assert forall|a: int, b: int|
            0 <= a < lefts.len() && 0 <= b < lefts.len() && a != b implies lefts[a] != lefts[b] by {
            assert(all[a] != all[b]);
        }
    }
    assert(rights.no_duplicates()) by {
        assert forall|a: int, b: int|
            0 <= a < rights.len() && 0 <= b < rights.len() && a != b implies rights[a]
            != rights[b] by {
            assert(all[a + cut] != all[b + cut]);
        }
    }
    assert forall|p: usize| #[trigger] rest.contains(p) implies lefts.contains(p)
        || rights.contains(p) by {
        let j = choose|j: int| 0 <= j < rest.len() && rest[j] == p;
        ranking::lemma_order_complete(order, keys, same, j);
        let a = choose|a: int| 0 <= a < order.len() && order[a] as int == j;
        assert(all[a] == p);
        if a < cut {
            assert(lefts[a] == p);
        } else {
            assert(rights[a - cut] == p);
        }
    }
    assert forall|p: usize| lefts.contains(p) || rights.contains(p) implies #[trigger]
        rest.contains(p) by {
        let a = if lefts.contains(p) {
            choose|a: int| 0 <= a < lefts.len() && lefts[a] == p
        } else {
            (choose|b: int| 0 <= b < rights.len() && rights[b] == p) + cut
        };
        assert(all[a] == p);
        assert(order[a] < rest.len());
        assert(rest[order[a] as int] == p);
    }
}

/// Whether `lefts` and `rights` are the points on the two sides of a node: no
/// farther than its threshold and no nearer. Every other point is on one of
/// them.
pub open spec fn are_sides<F: Fn(usize, usize) -> Score>(
    n: VpNode,
    points: Seq<usize>,
    f: F,
    lefts: Seq<usize>,
    rights: Seq<usize>,
) -> bool {
    &&& n.point == points[0]
    &&& lefts.len() < points.len()
    &&& rights.len() < points.len()
    &&& lefts.no_duplicates()
    &&& rights.no_duplicates()
    &&& forall|p: usize| #[trigger]
        points.contains(p) <==> p == n.point || lefts.contains(p) || rights.contains(p)
    &&& forall|p: usize| #[trigger]
        lefts.contains(p) ==> p != n.point && !rights.contains(p) && between(f, n.point, p).rank()
            <= n.threshold.rank()
    &&& forall|p: usize| #[trigger]
        rights.contains(p) ==> p != n.point && between(f, n.point, p).rank() >= n.threshold.rank()
}

/// Whether the points of a list are among the first `count`, each once.
pub open spec fn are_points(points: Seq<usize>, count: nat) -> bool {
    &&& points.no_duplicates()
    &&& forall|p: usize| #[trigger] points.contains(p) ==> p < count
}

/// The two sides of a node.
proof fn lemma_sides<F: Fn(usize, usize) -> Score>(
    nodes: Seq<VpNode>,
    i: usize,
    points: Seq<usize>,
    f: F,
    count: nat,
) -> (sides: (Seq<usize>, Seq<usize>))
    requires
        measures(f, count),
        is_tree(nodes, Some(i), points, f),
        are_points(points, count),
    ensures
        nodes[i as int].point < count,
        behind(nodes[i as int].left, i),
        behind(nodes[i as int].right, i),
        are_sides(nodes[i as int], points, f, sides.0, sides.1),
        are_points(sides.0, count),
        are_points(sides.1, count),
        is_tree(nodes, nodes[i as int].left, sides.0, f),
        is_tree(nodes, nodes[i as int].right, sides.1, f),
{
    let n = nodes[i as int];
    let rest = points.drop_first();
    assert(points.contains(points[0]));
    if rest.len() == 0 {
        (Seq::empty(), Seq::empty())
    } else {
        let far = distances_from(f, points[0], rest);
        let keys = neighbors::split_keys(far);
        let same = neighbors::same_keys(rest.len());
        let m = (rest.len() / 2) as int;
        let order = choose|order: Seq<usize>| #[trigger]
            ranking::is_order(order, keys, same) && n.threshold == far[order[m] as int] && is_tree(
                nodes,
                n.left,
                picked(rest, order.take(m + 1)),
                f,
            ) && is_tree(nodes, n.right, picked(rest, order.skip(m + 1)), f);
        let lefts = picked(rest, order.take(m + 1));
        let rights = picked(rest, order.skip(m + 1));
        assert(rest.no_duplicates());
        lemma_parts(rest, order, keys, same, m + 1);
        assert forall|p: usize| #[trigger] points.contains(p) <==> p == n.point || rest.contains(
            p,
        ) by {
            if points.contains(p) {
                let j = choose|j: int| 0 <= j < points.len() && points[j] == p;
                if j > 0 {
                    assert(rest[j - 1] == p);
                }
            }
            if rest.contains(p) {
                let j = choose|j: int| 0 <= j < rest.len() && rest[j] == p;
                assert(points[j + 1] == p);
            }
        }
        assert(!rest.contains(n.point)) by {
            if rest.contains(n.point) {
                let j = choose|j: int| 0 <= j < rest.len() && rest[j] == n.point;
                assert(points[j + 1] == points[0]);
            }
        }
        assert forall|k: int| 0 <= k < far.len() implies !(#[trigger] far[k]).nan() by {
            assert(rest.contains(rest[k]));
            assert(points.contains(rest[k]));
        }
        assert forall|p: usize| #[trigger] lefts.contains(p) implies between(f, n.point, p).rank()
            <= n.threshold.rank() by {
            let a = choose|a: int| 0 <= a < lefts.len() && lefts[a] == p;
            neighbors::law_split_separates(far, order, a);
            assert(p == rest[order[a] as int]);
            assert(far[order[a] as int] == between(f, n.point, p));
        }
        assert forall|p: usize| #[trigger] rights.contains(p) implies between(f, n.point, p).rank()
            >= n.threshold.rank() by {
            let b = choose|b: int| 0 <= b < rights.len() && rights[b] == p;
            neighbors::law_split_separates(far, order, b + m + 1);
            assert(p == rest[order[b + m + 1] as int]);
            assert(far[order[b + m + 1] as int] == between(f, n.point, p));
        }
        assert forall|p: usize| #[trigger] lefts.contains(p) implies p < count && p != n.point by {
            assert(rest.contains(p));
            assert(points.contains(p));
        }
        assert forall|p: usize| #[trigger] rights.contains(p) implies p < count && p != n.point by {
            assert(rest.contains(p));
            assert(points.contains(p));
        }
        (lefts, rights)
    }
}

// ---------------------------------------------------------------------------
// The search
// ---------------------------------------------------------------------------

/// The points that were looked at, with their distances from the query.
pub open spec fn offered<F: Fn(usize, usize) -> Score>(
    f: F,
    query: usize,
    seen: Seq<usize>,
) -> Multiset<Found> {
    seen.map_values(|p: usize| (between(f, query, p), p)).to_multiset()
}

/// Whether a nearer point must be within `tau`: without bound while there is
/// room, and otherwise as near as the farthest of the `k` nearest.
pub open spec fn is_limit<F: Fn(usize, usize) -> Score>(
    f: F,
    query: usize,
    k: nat,
    seen: Seq<usize>,
    tau: Score,
) -> bool {
    if seen.len() < k {
        tau.bits == score::INFINITY
    } else {
        exists|kept: Multiset<Found>, p: usize| #[trigger]
            neighbors::nearest_of(offered(f, query, seen), kept, k) && (#[trigger] kept.count(
                (tau, p),
            )) > 0 && forall|y: Found| #[trigger] kept.count(y) > 0 ==> y.0.rank() <= tau.rank()
    }
}

/// What happens between the two sides of a node: what was looked at by then, how
/// near a point must be by then, and whether the second side is searched too.
pub ghost struct Turn {
    /// The points looked at.
    pub seen: Seq<usize>,
    /// How near a point must be.
    pub tau: Score,
    /// Whether the second side is searched.
    pub goes_on: bool,
}

impl Turn {
    /// Whether the search goes on as the functions say that judge the sides:
    /// `outer` judges the right side of a node, and `inner` the left.
    pub open spec fn follows<
        F: Fn(usize, usize) -> Score,
        O: Fn(Score, Score, Score) -> bool,
        I: Fn(Score, Score, Score) -> bool,
    >(self, f: F, outer: O, inner: I, query: usize, k: nat, n: VpNode) -> bool {
        let d = between(f, query, n.point);
        &&& is_limit(f, query, k, self.seen, self.tau)
        &&& if n.threshold.reaches(d) {
            call_ensures(outer, (d, self.tau, n.threshold), self.goes_on)
        } else {
            call_ensures(inner, (d, self.tau, n.threshold), self.goes_on)
        }
    }
}

/// Whether a search from `at` on that has looked at `seen` ends having looked at
/// `after`. The point of a node is looked at first, unless it is the query, then
/// the side that the query is on, and then the other side where it can still
/// hold a nearer point.
pub open spec fn walks<
    F: Fn(usize, usize) -> Score,
    O: Fn(Score, Score, Score) -> bool,
    I: Fn(Score, Score, Score) -> bool,
>(
    nodes: Seq<VpNode>,
    at: Option<usize>,
    f: F,
    outer: O,
    inner: I,
    query: usize,
    k: nat,
    seen: Seq<usize>,
    after: Seq<usize>,
) -> bool
    decreases nodes_left(nodes, at),
{
    match at {
        None => after == seen,
        Some(i) => i < nodes.len() && {
            let n = nodes[i as int];
            let now = if n.point == query {
                seen
            } else {
                seen.push(n.point)
            };
            let (first, second) = if n.threshold.reaches(between(f, query, n.point)) {
                (n.left, n.right)
            } else {
                (n.right, n.left)
            };
            behind(first, i) && behind(second, i) && exists|turn: Turn| #[trigger]
                turn.follows(f, outer, inner, query, k, n) && walks(
                    nodes,
                    first,
                    f,
                    outer,
                    inner,
                    query,
                    k,
                    now,
                    turn.seen,
                ) && if turn.goes_on {
                    walks(nodes, second, f, outer, inner, query, k, turn.seen, after)
                } else {
                    after == turn.seen
                }
        },
    }
}

proof fn lemma_offered_push<F: Fn(usize, usize) -> Score>(
    f: F,
    query: usize,
    seen: Seq<usize>,
    p: usize,
)
    ensures
        offered(f, query, seen.push(p)) == offered(f, query, seen).insert(
            (between(f, query, p), p),
        ),
        offered(f, query, seen).len() == seen.len(),
{
    let g = |p: usize| (between(f, query, p), p);
    let s = seen.map_values(g);
    assert(seen.push(p).map_values(g) =~= s.push(g(p)));
    to_multiset_build(s, g(p));
    s.to_multiset_ensures();
}

/// Whether a function that judges sides can be asked about anything.
pub open spec fn judges<G: Fn(Score, Score, Score) -> bool>(g: G) -> bool {
    forall|d: Score, tau: Score, t: Score| #[trigger] call_requires(g, (d, tau, t))
}

impl VpTree {
    /// Searches the nodes from `at` on.
    fn search_node<
        F: Fn(usize, usize) -> Score,
        O: Fn(Score, Score, Score) -> bool,
        I: Fn(Score, Score, Score) -> bool,
    >(
        &self,
        at: usize,
        query: usize,
        distance: &F,
        outer: &O,
        inner: &I,
        heap: &mut NearestHeap,
        Ghost(points): Ghost<Seq<usize>>,
        Ghost(seen): Ghost<Seq<usize>>,
    ) -> (after: Ghost<Seq<usize>>)
        requires
            measures(*distance, self.count as nat),
            judges(*outer),
            judges(*inner),
            query < self.count,
            is_tree(self.nodes@, Some(at), points, *distance),
            are_points(points, self.count as nat),
            old(heap).valid(),
            neighbors::nearest_of(
                offered(*distance, query, seen),
                old(heap)@,
                old(heap).k as nat,
            ),
        ensures
            final(heap).valid(),
            final(heap).k == old(heap).k,
            walks(
                self.nodes@,
                Some(at),
                *distance,
                *outer,
                *inner,
                query,
                old(heap).k as nat,
                seen,
                after@,
            ),
            neighbors::nearest_of(
                offered(*distance, query, after@),
                final(heap)@,
                old(heap).k as nat,
            ),
        decreases points.len(),
    {
        let ghost f = *distance;
        let ghost k = heap.k as nat;
        let node: VpNode = self.nodes[at];
        proof {
            assert(points.contains(points[0]));
        }
        let d: Score = distance(query, node.point);
        let ghost mut now = seen;
        if node.point != query {
            let ghost before = *heap;
            heap.offer(d, node.point);
            proof {
                lemma_offered_push(f, query, seen, node.point);
                neighbors::law_offer_keeps_nearest(
                    offered(f, query, seen),
                    before,
                    *heap,
                    d,
                    node.point,
                );
                now = seen.push(node.point);
            }
        }
        let near_left: bool = node.threshold.ge(&d);
        let (first, second) = if near_left {
            (node.left, node.right)
        } else {
            (node.right, node.left)
        };
        let ghost (firsts, seconds) = {
            let (lefts, rights) = lemma_sides(self.nodes@, at, points, f, self.count as nat);
            if near_left {
                (lefts, rights)
            } else {
                (rights, lefts)
            }
        };
        let ghost mut mid = now;
        if let Some(child) = first {
            let Ghost(looked): Ghost<Seq<usize>> = self.search_node(
                child,
                query,
                distance,
                outer,
                inner,
                heap,
                Ghost(firsts),
                Ghost(now),
            );
            proof {
                mid = looked;
            }
        }
        let room: bool = heap.items.len() < heap.k;
        let tau: Score = if room {
            Score { bits: score::INFINITY }
        } else {
            heap.items[0].0
        };
        proof {
            lemma_limit(f, query, mid, *heap, tau);
        }
        let goes_on: bool = if near_left {
            outer(d, tau, node.threshold)
        } else {
            inner(d, tau, node.threshold)
        };
        let ghost turn = Turn { seen: mid, tau, goes_on };
        let ghost mut end = mid;
        if goes_on {
            if let Some(child) = second {
                let Ghost(looked): Ghost<Seq<usize>> = self.search_node(
                    child,
                    query,
                    distance,
                    outer,
                    inner,
                    heap,
                    Ghost(seconds),
                    Ghost(mid),
                );
                proof {
                    end = looked;
                }
            }
        }
        proof {
            assert(walks(self.nodes@, first, f, *outer, *inner, query, k, now, mid));
            assert(goes_on ==> walks(self.nodes@, second, f, *outer, *inner, query, k, mid, end));
            assert(turn.follows(f, *outer, *inner, query, k, node));
        }
        Ghost(end)
    }

    /// The points nearest to one of the points, at most `k` of them and without
    /// itself, the nearest first. A side of a node is searched where the
    /// functions that judge sides say that it can hold a nearer point.
    pub fn query_k_nearest<
        F: Fn(usize, usize) -> Score,
        O: Fn(Score, Score, Score) -> bool,
        I: Fn(Score, Score, Score) -> bool,
    >(&self, query: usize, k: usize, distance: &F, outer: &O, inner: &I) -> (r: Vec<
        (usize, Score),
    >)
        requires
            measures(*distance, self.count as nat),
            judges(*outer),
            judges(*inner),
            self.grown(*distance),
        ensures
            self.answers(*distance, *outer, *inner, query, k as nat, r@),
    {
        if query >= self.count || k == 0 {
            return Vec::new();
        }
        let mut heap: NearestHeap = NearestHeap::new(k);
        let ghost f = *distance;
        let ghost points = all_points(self.count);
        let ghost none = Seq::<usize>::empty();
        proof {
            assert(offered(f, query, none) =~= Multiset::empty()) by {
                assert(none.map_values(|p: usize| (between(f, query, p), p)) =~= Seq::empty());
                Seq::<Found>::empty().to_multiset_ensures();
            }
            assert forall|p: usize| #[trigger] points.contains(p) implies p < self.count by {}
            assert(points.len() > 0);
        }
        let Ghost(seen): Ghost<Seq<usize>> = self.search_node(
            0,
            query,
            distance,
            outer,
            inner,
            &mut heap,
            Ghost(points),
            Ghost(none),
        );
        let ghost items = heap.items@;
        let r: Vec<(usize, Score)> = heap.into_sorted();
        proof {
            let keys = neighbors::distance_keys(items);
            let same = neighbors::same_keys(items.len());
            let order = choose|order: Seq<usize>| #[trigger]
                ranking::is_order(order, keys, same) && r@.len() == order.len() && forall|i: int|
                    0 <= i < r@.len() ==> #[trigger] r@[i] == (
                        items[order[i] as int].1,
                        items[order[i] as int].0,
                    );
            ranking::law_order_keeps_items(items, order, keys, same);
            assert(swapped(r@) =~= order.map_values(|i: usize| items[i as int]));
            assert forall|i: int, j: int| 0 <= i < j < r@.len() implies (#[trigger] r@[i]).1.rank()
                <= (#[trigger] r@[j]).1.rank() by {
                assert(ranking::precedes(keys, same, order[i] as int, order[j] as int));
                assert(!items[order[i] as int].0.nan());
                assert(!items[order[j] as int].0.nan());
            }
            assert(self.finds(f, *outer, *inner, query, k as nat, seen, r@));
        }
        r
    }

    /// Whether a result answers a query: it is empty for a point that the tree
    /// does not hold or where no neighbours are wanted, and otherwise what a
    /// search finds.
    pub open spec fn answers<
        F: Fn(usize, usize) -> Score,
        O: Fn(Score, Score, Score) -> bool,
        I: Fn(Score, Score, Score) -> bool,
    >(
        self,
        f: F,
        outer: O,
        inner: I,
        query: usize,
        k: nat,
        result: Seq<(usize, Score)>,
    ) -> bool {
        if query >= self.count || k == 0 {
            result.len() == 0
        } else {
            exists|seen: Seq<usize>| #[trigger]
                self.finds(f, outer, inner, query, k, seen, result)
        }
    }

    /// Whether a result holds the `k` nearest of the points that a search looked
    /// at, the nearest first.
    pub open spec fn finds<
        F: Fn(usize, usize) -> Score,
        O: Fn(Score, Score, Score) -> bool,
        I: Fn(Score, Score, Score) -> bool,
    >(
        self,
        f: F,
        outer: O,
        inner: I,
        query: usize,
        k: nat,
        seen: Seq<usize>,
        result: Seq<(usize, Score)>,
    ) -> bool {
        &&& walks(self.nodes@, self.root(), f, outer, inner, query, k, Seq::empty(), seen)
        &&& neighbors::nearest_of(offered(f, query, seen), swapped(result).to_multiset(), k)
        &&& forall|i: int, j: int|
            0 <= i < j < result.len() ==> (#[trigger] result[i]).1.rank() <= (
            #[trigger] result[j]).1.rank()
    }
}

/// A result with each distance before its point.
pub open spec fn swapped(result: Seq<(usize, Score)>) -> Seq<Found> {
    result.map_values(|x: (usize, Score)| (x.1, x.0))
}

/// A heap that holds the nearest points shows how near a point must be.
proof fn lemma_limit<F: Fn(usize, usize) -> Score>(
    f: F,
    query: usize,
    seen: Seq<usize>,
    heap: NearestHeap,
    tau: Score,
)
    requires
        heap.valid(),
        neighbors::nearest_of(offered(f, query, seen), heap@, heap.k as nat),
        tau == if heap.items@.len() < heap.k {
            Score { bits: score::INFINITY }
        } else {
            heap.items@[0].0
        },
    ensures
        is_limit(f, query, heap.k as nat, seen, tau),
{
    lemma_offered_push(f, query, seen, 0);
    heap.items@.to_multiset_ensures();
    if heap.items@.len() >= heap.k {
        let p = heap.items@[0].1;
        assert(heap.items@.contains(heap.items@[0]));
        assert(heap@.count((tau, p)) > 0);
        assert forall|y: Found| #[trigger] heap@.count(y) > 0 implies y.0.rank()
            <= tau.rank() by {
            assert(heap.items@.contains(y));
            let i = choose|i: int| 0 <= i < heap.items@.len() && heap.items@[i] == y;
            neighbors::law_first_is_farthest(heap, i);
        }
    }
}

// ---------------------------------------------------------------------------
// What a search finds
// ---------------------------------------------------------------------------

/// Whether no side is passed over that holds a nearer point: where a side is
/// judged out, a bound was reached, and none of its points is within it.
pub open spec fn sound<
    F: Fn(usize, usize) -> Score,
    O: Fn(Score, Score, Score) -> bool,
    I: Fn(Score, Score, Score) -> bool,
>(f: F, outer: O, inner: I, count: nat) -> bool {
    &&& forall|query: usize, v: usize, p: usize, tau: Score, t: Score|
        #![trigger call_ensures(outer, (between(f, query, v), tau, t), false), between(f, v, p)]
        query < count && v < count && p < count && call_ensures(
            outer,
            (between(f, query, v), tau, t),
            false,
        ) && between(f, v, p).rank() >= t.rank() ==> tau.bits != score::INFINITY && between(
            f,
            query,
            p,
        ).rank() >= tau.rank()
    &&& forall|query: usize, v: usize, p: usize, tau: Score, t: Score|
        #![trigger call_ensures(inner, (between(f, query, v), tau, t), false), between(f, v, p)]
        query < count && v < count && p < count && call_ensures(
            inner,
            (between(f, query, v), tau, t),
            false,
        ) && between(f, v, p).rank() <= t.rank() ==> tau.bits != score::INFINITY && between(
            f,
            query,
            p,
        ).rank() >= tau.rank()
}

/// Whether a point is out of reach: before the search had looked at more than
/// some first points of `after`, a nearer point had to be nearer than this one.
pub open spec fn out_of_reach<F: Fn(usize, usize) -> Score>(
    f: F,
    query: usize,
    k: nat,
    after: Seq<usize>,
    p: usize,
) -> bool {
    exists|m: int, tau: Score|
        0 <= m <= after.len() && k <= m && #[trigger] is_limit(f, query, k, after.take(m), tau)
            && between(f, query, p).rank() >= tau.rank()
}

proof fn lemma_out_of_reach_later<F: Fn(usize, usize) -> Score>(
    f: F,
    query: usize,
    k: nat,
    before: Seq<usize>,
    after: Seq<usize>,
    p: usize,
)
    requires
        before.len() <= after.len(),
        after.take(before.len() as int) == before,
        out_of_reach(f, query, k, before, p),
    ensures
        out_of_reach(f, query, k, after, p),
{
    let (m, tau) = choose|m: int, tau: Score|
        0 <= m <= before.len() && k <= m && #[trigger] is_limit(f, query, k, before.take(m), tau)
            && between(f, query, p).rank() >= tau.rank();
    assert(after.take(m) =~= before.take(m)) by {
        assert forall|j: int| 0 <= j < m implies after[j] == before[j] by {
            assert(after.take(before.len() as int)[j] == after[j]);
        }
    }
    assert(is_limit(f, query, k, after.take(m), tau));
}

/// What a search from a node on looks at: points below it, each once, and not
/// the query. With sound judgement, what it does not look at is out of reach.
proof fn lemma_walk<
    F: Fn(usize, usize) -> Score,
    O: Fn(Score, Score, Score) -> bool,
    I: Fn(Score, Score, Score) -> bool,
>(
    nodes: Seq<VpNode>,
    at: Option<usize>,
    points: Seq<usize>,
    f: F,
    outer: O,
    inner: I,
    count: nat,
    query: usize,
    k: nat,
    seen: Seq<usize>,
    after: Seq<usize>,
)
    requires
        measures(f, count),
        query < count,
        is_tree(nodes, at, points, f),
        are_points(points, count),
        walks(nodes, at, f, outer, inner, query, k, seen, after),
        seen.no_duplicates(),
        forall|p: usize| #[trigger] points.contains(p) ==> !seen.contains(p),
    ensures
        seen.len() <= after.len(),
        after.take(seen.len() as int) == seen,
        after.no_duplicates(),
        forall|p: usize| #[trigger]
            after.contains(p) ==> seen.contains(p) || (points.contains(p) && p != query),
        forall|p: usize| seen.contains(p) ==> #[trigger] after.contains(p),
        sound(f, outer, inner, count) ==> forall|p: usize| #[trigger]
            points.contains(p) && p != query && !after.contains(p) ==> out_of_reach(
                f,
                query,
                k,
                after,
                p,
            ),
    decreases points.len(),
{
    match at {
        None => {
            assert(after.take(seen.len() as int) =~= seen);
        },
        Some(i) => {
            let n = nodes[i as int];
            let (lefts, rights) = lemma_sides(nodes, i, points, f, count);
            let now = if n.point == query {
                seen
            } else {
                seen.push(n.point)
            };
            let near = n.threshold.reaches(between(f, query, n.point));
            let (first, second) = if near {
                (n.left, n.right)
            } else {
                (n.right, n.left)
            };
            let (firsts, seconds) = if near {
                (lefts, rights)
            } else {
                (rights, lefts)
            };
            let turn = choose|turn: Turn| #[trigger]
                turn.follows(f, outer, inner, query, k, n) && walks(
                    nodes,
                    first,
                    f,
                    outer,
                    inner,
                    query,
                    k,
                    now,
                    turn.seen,
                ) && if turn.goes_on {
                    walks(nodes, second, f, outer, inner, query, k, turn.seen, after)
                } else {
                    after == turn.seen
                };
            let mid = turn.seen;
            lemma_looked_at(seen, now, points, n.point, query);
            assert forall|p: usize| #[trigger] firsts.contains(p) implies !now.contains(p) by {
                assert(points.contains(p));
            }
            lemma_walk(nodes, first, firsts, f, outer, inner, count, query, k, now, mid);
            if turn.goes_on {
                assert forall|p: usize| #[trigger] seconds.contains(p) implies !mid.contains(p) by {
                    assert(points.contains(p));
                    assert(!firsts.contains(p));
                }
                lemma_walk(nodes, second, seconds, f, outer, inner, count, query, k, mid, after);
            } else {
                assert(after.take(mid.len() as int) =~= mid);
            }
            assert(after.take(seen.len() as int) =~= seen) by {
                assert forall|j: int| 0 <= j < seen.len() implies after[j] == seen[j] by {
                    assert(after.take(mid.len() as int)[j] == after[j]);
                    assert(mid.take(now.len() as int)[j] == mid[j]);
                    assert(now[j] == seen[j]);
                }
            }
            assert forall|p: usize| #[trigger] after.contains(p) implies seen.contains(p) || (
            points.contains(p) && p != query) by {
                assert(mid.contains(p) || seconds.contains(p));
                assert(points.contains(p) <==> p == n.point || lefts.contains(p)
                    || rights.contains(p));
            }
            assert forall|p: usize| seen.contains(p) implies #[trigger] after.contains(p) by {
                assert(now.contains(p));
                assert(mid.contains(p));
            }
            if sound(f, outer, inner, count) {
                assert forall|p: usize| #[trigger]
                    points.contains(p) && p != query && !after.contains(p) implies out_of_reach(
                    f,
                    query,
                    k,
                    after,
                    p,
                ) by {
                    if p == n.point {
                        assert(now.contains(p));
                        assert(mid.contains(p));
                        assert(after.contains(p));
                    } else if firsts.contains(p) {
                        if mid.contains(p) {
                            assert(after.contains(p));
                        }
                        assert(out_of_reach(f, query, k, mid, p));
                        lemma_out_of_reach_later(f, query, k, mid, after, p);
                    } else {
                        assert(seconds.contains(p));
                        if !turn.goes_on {
                            let d = between(f, query, n.point);
                            assert(!d.nan());
                            assert(p < count);
                            assert(turn.tau.bits != score::INFINITY);
                            assert(mid.len() >= k);
                            assert(after.take(mid.len() as int) =~= mid);
                            assert(is_limit(f, query, k, after.take(mid.len() as int), turn.tau));
                        }
                    }
                }
            }
        },
    }
}

proof fn lemma_looked_at(
    seen: Seq<usize>,
    now: Seq<usize>,
    points: Seq<usize>,
    v: usize,
    query: usize,
)
    requires
        seen.no_duplicates(),
        points.contains(v),
        forall|p: usize| #[trigger] points.contains(p) ==> !seen.contains(p),
        now == if v == query {
            seen
        } else {
            seen.push(v)
        },
    ensures
        now.no_duplicates(),
        forall|p: usize| #[trigger]
            now.contains(p) <==> seen.contains(p) || (p == v && v != query),
{
    assert(!seen.contains(v));
    if v != query {
        assert forall|p: usize| #[trigger] now.contains(p) <==> seen.contains(p) || p == v by {
            if seen.contains(p) {
                let j = choose|j: int| 0 <= j < seen.len() && seen[j] == p;
                assert(now[j] == p);
            }
            assert(now[seen.len() as int] == v);
        }
    }
}

/// How often a point was offered, of points that were looked at once each.
proof fn lemma_offered_once<F: Fn(usize, usize) -> Score>(
    f: F,
    query: usize,
    seen: Seq<usize>,
    x: Found,
)
    requires
        seen.no_duplicates(),
    ensures
        offered(f, query, seen).count(x) == if seen.contains(x.1) && x.0 == between(
            f,
            query,
            x.1,
        ) {
            1nat
        } else {
            0nat
        },
{
    let s = seen.map_values(|p: usize| (between(f, query, p), p));
    assert(s.no_duplicates()) by {
        assert forall|a: int, b: int|
            0 <= a < s.len() && 0 <= b < s.len() && a != b implies s[a] != s[b] by {
            assert(seen[a] != seen[b]);
        }
    }
    s.to_multiset_ensures();
    s.lemma_multiset_has_no_duplicates();
    if seen.contains(x.1) && x.0 == between(f, query, x.1) {
        let j = choose|j: int| 0 <= j < seen.len() && seen[j] == x.1;
        assert(s[j] == x);
        assert(s.contains(x));
    } else if s.contains(x) {
        let j = choose|j: int| 0 <= j < s.len() && s[j] == x;
        assert(seen[j] == x.1);
    }
}

/// What is kept of more points is no farther than what had to be beaten earlier.
proof fn lemma_limit_falls<F: Fn(usize, usize) -> Score>(
    f: F,
    query: usize,
    k: nat,
    after: Seq<usize>,
    kept: Multiset<Found>,
    m: int,
    tau: Score,
    y: Found,
)
    requires
        0 <= m <= after.len(),
        k <= m,
        is_limit(f, query, k, after.take(m), tau),
        neighbors::nearest_of(offered(f, query, after), kept, k),
        after.no_duplicates(),
        kept.count(y) > 0,
    ensures
        y.0.rank() <= tau.rank(),
{
    let early = after.take(m);
    assert(early.no_duplicates());
    let (held, p) = choose|held: Multiset<Found>, p: usize| #[trigger]
        neighbors::nearest_of(offered(f, query, early), held, k) && (#[trigger] held.count(
            (tau, p),
        )) > 0 && forall|z: Found| #[trigger] held.count(z) > 0 ==> z.0.rank() <= tau.rank();
    lemma_offered_push(f, query, early, 0);
    lemma_offered_push(f, query, after, 0);
    if y.0.rank() > tau.rank() {
        assert forall|x: Found| #[trigger] held.count(x) <= kept.count(x) by {
            if held.count(x) > 0 {
                lemma_offered_once(f, query, early, x);
                lemma_offered_once(f, query, after, x);
                assert(held.count(x) <= offered(f, query, early).count(x));
                let j = choose|j: int| 0 <= j < early.len() && early[j] == x.1;
                assert(after[j] == x.1);
                assert(offered(f, query, after).count(x) == 1);
                if kept.count(x) == 0 {
                    assert(offered(f, query, after).count(x) > kept.count(x));
                    assert(x.0.rank() >= y.0.rank());
                }
            }
        }
        assert(held.subset_of(kept));
        neighbors::lemma_full_subset(held, kept);
    }
}

/// A search looks at points of the tree, at none of them twice, and never at the
/// one whose neighbours it looks for. What it finds are such points, with their
/// distances.
pub proof fn law_search_looks_at_others<
    F: Fn(usize, usize) -> Score,
    O: Fn(Score, Score, Score) -> bool,
    I: Fn(Score, Score, Score) -> bool,
>(
    tree: VpTree,
    f: F,
    outer: O,
    inner: I,
    query: usize,
    k: nat,
    seen: Seq<usize>,
    result: Seq<(usize, Score)>,
)
    requires
        measures(f, tree.count as nat),
        query < tree.count,
        tree.grown(f),
        tree.finds(f, outer, inner, query, k, seen, result),
    ensures
        seen.no_duplicates(),
        forall|p: usize| #[trigger] seen.contains(p) ==> p < tree.count && p != query,
        result.len() <= k,
        forall|j: int|
            0 <= j < result.len() ==> (#[trigger] result[j]).0 < tree.count && result[j].0 != query
                && result[j].1 == between(f, query, result[j].0),
{
    let points = all_points(tree.count);
    let none = Seq::<usize>::empty();
    let found = swapped(result);
    assert(are_points(points, tree.count as nat));
    lemma_walk(
        tree.nodes@,
        tree.root(),
        points,
        f,
        outer,
        inner,
        tree.count as nat,
        query,
        k,
        none,
        seen,
    );
    found.to_multiset_ensures();
    assert forall|j: int| 0 <= j < result.len() implies (#[trigger] result[j]).0 < tree.count
        && result[j].0 != query && result[j].1 == between(f, query, result[j].0) by {
        let x = found[j];
        assert(found.contains(x));
        assert(found.to_multiset().count(x) > 0);
        assert(offered(f, query, seen).count(x) > 0);
        lemma_offered_once(f, query, seen, x);
    }
}

/// Where no side is passed over that holds a nearer point, a search finds the
/// `k` nearest of all the other points.
pub proof fn law_sound_search_is_exact<
    F: Fn(usize, usize) -> Score,
    O: Fn(Score, Score, Score) -> bool,
    I: Fn(Score, Score, Score) -> bool,
>(
    tree: VpTree,
    f: F,
    outer: O,
    inner: I,
    query: usize,
    k: nat,
    seen: Seq<usize>,
    result: Seq<(usize, Score)>,
)
    requires
        measures(f, tree.count as nat),
        sound(f, outer, inner, tree.count as nat),
        query < tree.count,
        tree.grown(f),
        tree.finds(f, outer, inner, query, k, seen, result),
    ensures
        neighbors::nearest_of(
            offered(f, query, all_points(tree.count).remove(query as int)),
            swapped(result).to_multiset(),
            k,
        ),
{
    let count = tree.count as nat;
    let points = all_points(tree.count);
    let others = points.remove(query as int);
    let none = Seq::<usize>::empty();
    let kept = swapped(result).to_multiset();
    assert(are_points(points, count));
    lemma_walk(tree.nodes@, tree.root(), points, f, outer, inner, count, query, k, none, seen);
    assert(others.no_duplicates());
    assert forall|p: usize| #[trigger] others.contains(p) <==> p < count && p != query by {
        if p < count && p != query {
            let j = if p < query {
                p as int
            } else {
                p - 1
            };
            assert(others[j] == p);
        }
    }
    lemma_offered_push(f, query, others, 0);
    lemma_offered_push(f, query, seen, 0);
    let all = offered(f, query, others);
    let looked = offered(f, query, seen);
    assert forall|x: Found| #[trigger] looked.count(x) <= all.count(x) by {
        lemma_offered_once(f, query, seen, x);
        lemma_offered_once(f, query, others, x);
    }
    assert forall|x: Found| #[trigger] kept.count(x) <= all.count(x) by {
        assert(kept.count(x) <= looked.count(x));
        assert(looked.count(x) <= all.count(x));
    }
    if seen.len() < k {
        // nothing is out of reach while there is room
        assert forall|p: usize| #[trigger] others.contains(p) implies seen.contains(p) by {
            assert(points.contains(p)) by {
                assert(points[p as int] == p);
            }
        }
        assert forall|x: Found| #[trigger] all.count(x) == looked.count(x) by {
            lemma_offered_once(f, query, seen, x);
            lemma_offered_once(f, query, others, x);
        }
        assert(all =~= looked);
    } else {
        lemma_no_more(seen, others);
        assert forall|x: Found, y: Found|
            (#[trigger] all.count(x)) > kept.count(x) && (#[trigger] kept.count(y))
                > 0 implies x.0.rank() >= y.0.rank() by {
            lemma_offered_once(f, query, seen, x);
            lemma_offered_once(f, query, others, x);
            if seen.contains(x.1) {
                assert(looked.count(x) > kept.count(x));
            } else {
                assert(points.contains(x.1)) by {
                    assert(points[x.1 as int] == x.1);
                }
                assert(out_of_reach(f, query, k, seen, x.1));
                let (m, tau) = choose|m: int, tau: Score|
                    0 <= m <= seen.len() && k <= m && #[trigger] is_limit(
                        f,
                        query,
                        k,
                        seen.take(m),
                        tau,
                    ) && between(f, query, x.1).rank() >= tau.rank();
                lemma_limit_falls(f, query, k, seen, kept, m, tau, y);
            }
        }
    }
}

/// A list of distinct points of another list is no longer than it.
proof fn lemma_no_more(a: Seq<usize>, b: Seq<usize>)
    requires
        a.no_duplicates(),
        b.no_duplicates(),
        forall|p: usize| #[trigger] a.contains(p) ==> b.contains(p),
    ensures
        a.len() <= b.len(),
{
    a.unique_seq_to_set();
    b.unique_seq_to_set();
    assert forall|p: usize| a.to_set().contains(p) implies b.to_set().contains(p) by {
        assert(a.contains(p));
    }
    vstd::set_lib::lemma_len_subset(a.to_set(), b.to_set());
}

/// Nothing is found where nothing is asked for, or about a point that is not
/// there; and what is found comes nearest first.
pub proof fn law_answers_come_nearest_first<
    F: Fn(usize, usize) -> Score,
    O: Fn(Score, Score, Score) -> bool,
    I: Fn(Score, Score, Score) -> bool,
>(
    tree: VpTree,
    f: F,
    outer: O,
    inner: I,
    query: usize,
    k: nat,
    result: Seq<(usize, Score)>,
    i: int,
    j: int,
)
    requires
        tree.answers(f, outer, inner, query, k, result),
    ensures
        k == 0 || query >= tree.count ==> result.len() == 0,
        0 <= i < j < result.len() ==> result[i].1.rank() <= result[j].1.rank(),
{
    if query < tree.count && k > 0 {
        let seen = choose|seen: Seq<usize>| #[trigger]
            tree.finds(f, outer, inner, query, k, seen, result);
        assert(tree.finds(f, outer, inner, query, k, seen, result));
    }
}

/// Where the search leaves out only what it may, as many points are found as are
/// asked for, or all others where there are less; and no point that is left out
/// is nearer than one that is found.
pub proof fn law_no_nearer_point_is_missed<
    F: Fn(usize, usize) -> Score,
    O: Fn(Score, Score, Score) -> bool,
    I: Fn(Score, Score, Score) -> bool,
>(
    tree: VpTree,
    f: F,
    outer: O,
    inner: I,
    query: usize,
    k: nat,
    result: Seq<(usize, Score)>,
    p: usize,
    j: int,
)
    requires
        measures(f, tree.count as nat),
        sound(f, outer, inner, tree.count as nat),
        tree.grown(f),
        tree.answers(f, outer, inner, query, k, result),
        query < tree.count,
        k > 0,
    ensures
        result.len() == if tree.count - 1 < k {
            tree.count - 1
        } else {
            k as int
        },
        p < tree.count && p != query && (forall|i: int|
            0 <= i < result.len() ==> (#[trigger] result[i]).0 != p) && 0 <= j < result.len()
            ==> between(f, query, p).rank() >= result[j].1.rank(),
{
    let seen = choose|seen: Seq<usize>| #[trigger]
        tree.finds(f, outer, inner, query, k, seen, result);
    law_sound_search_is_exact(tree, f, outer, inner, query, k, seen, result);
    let others = all_points(tree.count).remove(query as int);
    let offers = others.map_values(|q: usize| (between(f, query, q), q));
    let found = swapped(result);
    offers.to_multiset_ensures();
    found.to_multiset_ensures();
    assert(offers.len() == tree.count - 1);
    if p < tree.count && p != query && (forall|i: int|
        0 <= i < result.len() ==> (#[trigger] result[i]).0 != p) && 0 <= j < result.len() {
        let x: Found = (between(f, query, p), p);
        let place = if p < query {
            p as int
        } else {
            p - 1
        };
        assert(others[place] == p);
        assert(offers[place] == x);
        assert(offers.to_multiset().count(x) > 0);
        if found.contains(x) {
            let i = choose|i: int| 0 <= i < found.len() && found[i] == x;
            assert(result[i].0 == p);
        }
        assert(found.to_multiset().count(x) == 0);
        let y: Found = (result[j].1, result[j].0);
        assert(found[j] == y);
        assert(found.to_multiset().count(y) > 0);
    }
}

} // verus!
