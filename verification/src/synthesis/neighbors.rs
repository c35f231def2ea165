//! The search for nearest neighbours: the heap that keeps the nearest points
//! seen so far, and the split of a set of points by their distance from one of
//! them. The distances are computed outside.

use crate::ranking;
use crate::ranking::order_by;
use crate::score::Score;
use vstd::multiset::*;
use vstd::prelude::*;
use vstd::seq_lib::*;

verus! {

/// A point with its distance.
pub type Found = (Score, usize);

/// The nearest points seen so far, at most `k` of them. The farthest stands
/// first, and no point is farther than the one above it in the heap.
#[derive(Debug)]
pub struct NearestHeap {
    /// The points, as a heap.
    pub items: Vec<Found>,
    /// How many are kept.
    pub k: usize,
}

/// The place above a place in a heap.
pub open spec fn parent(i: int) -> int {
    (i - 1) / 2
}

/// Whether the distances of a list are numbers.
pub open spec fn all_numbers(s: Seq<Found>) -> bool {
    forall|i: int| 0 <= i < s.len() ==> !(#[trigger] s[i]).0.nan()
}

/// Whether no point of a list is farther than the one above it.
pub open spec fn heap_ordered(s: Seq<Found>) -> bool {
    forall|i: int| 0 < i < s.len() ==> s[parent(i)].0.rank() >= (#[trigger] s[i]).0.rank()
}

impl View for NearestHeap {
    type V = Multiset<Found>;

    open spec fn view(&self) -> Multiset<Found> {
        self.items@.to_multiset()
    }
}

impl NearestHeap {
    /// Whether the heap is one, and not too large.
    pub open spec fn valid(self) -> bool {
        &&& 0 < self.k
        &&& self.items@.len() <= self.k
        &&& all_numbers(self.items@)
        &&& heap_ordered(self.items@)
    }

    /// A heap that keeps `k` points.
    pub fn new(k: usize) -> (r: NearestHeap)
        requires
            k > 0,
        ensures
            r.valid(),
            r.k == k,
            r.items@.len() == 0,
            r@ == Multiset::<Found>::empty(),
    {
        let r: NearestHeap = NearestHeap { items: Vec::new(), k };
        proof {
            r.items@.to_multiset_ensures();
            assert(r@ =~= Multiset::<Found>::empty());
        }
        r
    }

    /// Offers a point. It is kept while there is room, and otherwise where it is
    /// nearer than the farthest, which then leaves.
    pub fn offer(&mut self, distance: Score, point: usize)
        requires
            old(self).valid(),
            !distance.nan(),
        ensures
            final(self).valid(),
            final(self).k == old(self).k,
            old(self).items@.len() < old(self).k ==> final(self)@ == old(self)@.insert(
                (distance, point),
            ),
            old(self).items@.len() >= old(self).k ==> ({
                let worst = old(self).items@[0];
                if distance.below(worst.0) {
                    final(self)@ == old(self)@.remove(worst).insert((distance, point))
                } else {
                    final(self)@ == old(self)@
                }
            }),
    {
        if self.items.len() < self.k {
            let ghost before = self.items@;
            self.items.push((distance, point));
            proof {
                to_multiset_build(before, (distance, point));
                assert(self.items@ =~= before.push((distance, point)));
            }
            self.rise();
        } else if distance.lt(&self.items[0].0) {
            let ghost before = self.items@;
            self.items.set(0, (distance, point));
            proof {
                to_multiset_update(before, 0, (distance, point));
                before.to_multiset_ensures();
                assert(before.contains(before[0]));
                assert(before.to_multiset().insert((distance, point)).remove(before[0])
                    =~= before.to_multiset().remove(before[0]).insert((distance, point)));
            }
            self.sink();
        }
    }

    /// Lets the last point rise to its place.
    fn rise(&mut self)
        requires
            0 < old(self).k,
            0 < old(self).items@.len() <= old(self).k,
            all_numbers(old(self).items@),
            heap_ordered(old(self).items@.drop_last()),
        ensures
            final(self).valid(),
            final(self).k == old(self).k,
            final(self)@ == old(self)@,
    {
        let mut i: usize = self.items.len() - 1;
        proof {
            let s = self.items@;
            let d = s.drop_last();
            assert forall|j: int| 0 < j < s.len() && j != i implies s[parent(j)].0.rank() >= (
            #[trigger] s[j]).0.rank() by {
                assert(d[j] == s[j] && d[parent(j)] == s[parent(j)]);
            }
        }
        while i > 0
            invariant
                i < self.items@.len(),
                0 < self.k,
                self.k == old(self).k,
                self.items@.len() <= self.k,
                all_numbers(self.items@),
                self.items@.to_multiset() == old(self).items@.to_multiset(),
                forall|j: int|
                    0 < j < self.items@.len() && j != i ==> self.items@[parent(j)].0.rank() >= (
                    #[trigger] self.items@[j]).0.rank(),
                i > 0 ==> forall|j: int|
                    0 < j < self.items@.len() && parent(j) == i ==> self.items@[parent(
                        i as int,
                    )].0.rank() >= (#[trigger] self.items@[j]).0.rank(),
            decreases i,
        {
            let up: usize = (i - 1) / 2;
            if self.items[up].0.lt(&self.items[i].0) {
                let ghost s = self.items@;
                self.exchange(i, up);
                proof {
                    lemma_risen(s, i as int, self.items@);
                }
                i = up;
            } else {
                proof {
                    assert(self.items@[parent(i as int)].0.rank() >= self.items@[i as int].0.rank());
                }
                return;
            }
        }
    }

    /// Lets the first point sink to its place.
    fn sink(&mut self)
        requires
            0 < old(self).k,
            0 < old(self).items@.len() <= old(self).k,
            all_numbers(old(self).items@),
            forall|j: int|
                0 < j < old(self).items@.len() && parent(j) != 0 ==> old(self).items@[parent(
                    j,
                )].0.rank() >= (#[trigger] old(self).items@[j]).0.rank(),
        ensures
            final(self).valid(),
            final(self).k == old(self).k,
            final(self)@ == old(self)@,
    {
        let n: usize = self.items.len();
        let mut i: usize = 0;
        loop
            invariant
                i < self.items@.len(),
                n == self.items@.len(),
                0 < self.k,
                self.k == old(self).k,
                self.items@.len() <= self.k,
                all_numbers(self.items@),
                self.items@.to_multiset() == old(self).items@.to_multiset(),
                forall|j: int|
                    0 < j < self.items@.len() && parent(j) != i ==> self.items@[parent(
                        j,
                    )].0.rank() >= (#[trigger] self.items@[j]).0.rank(),
                i > 0 ==> forall|j: int|
                    0 < j < self.items@.len() && parent(j) == i ==> self.items@[parent(
                        i as int,
                    )].0.rank() >= (#[trigger] self.items@[j]).0.rank(),
            decreases n - i,
        {
            let mut largest: usize = i;
            if i < n / 2 {
                let left: usize = 2 * i + 1;
                if left < n && self.items[largest].0.lt(&self.items[left].0) {
                    largest = left;
                }
                if left + 1 < n && self.items[largest].0.lt(&self.items[left + 1].0) {
                    largest = left + 1;
                }
            }
            proof {
                assert forall|j: int| 0 < j < n && parent(j) == i implies self.items@[
                    largest as int
                ].0.rank() >= (#[trigger] self.items@[j]).0.rank() by {
                    assert(j == 2 * i + 1 || j == 2 * i + 2);
                }
            }
            if largest != i {
                let ghost s = self.items@;
                self.exchange(i, largest);
                proof {
                    lemma_sunk(s, i as int, largest as int, self.items@);
                }
                i = largest;
            } else {
                proof {
                    assert forall|j: int| 0 < j < n implies self.items@[parent(j)].0.rank() >= (
                    #[trigger] self.items@[j]).0.rank() by {
                        if parent(j) == i {
                        }
                    }
                }
                return;
            }
        }
    }

    /// Exchanges two points.
    fn exchange(&mut self, a: usize, b: usize)
        requires
            a < old(self).items@.len(),
            b < old(self).items@.len(),
            a != b,
        ensures
            final(self).k == old(self).k,
            final(self).items@ == old(self).items@.update(
                a as int,
                old(self).items@[b as int],
            ).update(b as int, old(self).items@[a as int]),
            final(self)@ == old(self)@,
    {
        let x: Found = self.items[a];
        let y: Found = self.items[b];
        let ghost s = self.items@;
        self.items.set(a, y);
        let ghost t = self.items@;
        self.items.set(b, x);
        proof {
            to_multiset_update(s, a as int, y);
            to_multiset_update(t, b as int, x);
            s.to_multiset_ensures();
            assert(s.contains(x));
            assert(s.contains(y));
            assert(s.to_multiset().insert(y).remove(x).insert(x).remove(y) =~= s.to_multiset());
        }
    }

    /// The kept points, the nearest first; ties stand in the order of the heap.
    pub fn into_sorted(self) -> (r: Vec<(usize, Score)>)
        requires
            all_numbers(self.items@),
        ensures
            exists|order: Seq<usize>| #[trigger]
                ranking::is_order(
                    order,
                    distance_keys(self.items@),
                    same_keys(self.items@.len()),
                ) && r@.len() == order.len() && forall|i: int|
                    0 <= i < r@.len() ==> #[trigger] r@[i] == (
                        self.items@[order[i] as int].1,
                        self.items@[order[i] as int].0,
                    ),
    {
        let n: usize = self.items.len();
        let mut keys: Vec<i64> = Vec::new();
        let mut rest: Vec<i64> = Vec::new();
        let mut i: usize = 0;
        while i < n
            invariant
                i <= n,
                n == self.items@.len(),
                all_numbers(self.items@),
                keys@ == distance_keys(self.items@).take(i as int),
                rest@ == same_keys(i as nat),
            decreases n - i,
        {
            keys.push(self.items[i].0.ascending());
            rest.push(0);
            proof {
                assert(keys@ =~= distance_keys(self.items@).take(i + 1));
                assert(rest@ =~= same_keys((i + 1) as nat));
            }
            i += 1;
        }
        assert(keys@ =~= distance_keys(self.items@));
        let order: Vec<usize> = order_by(&keys, &rest);
        let mut out: Vec<(usize, Score)> = Vec::new();
        let mut j: usize = 0;
        while j < order.len()
            invariant
                j <= order@.len(),
                order@.len() == n,
                n == self.items@.len(),
                forall|a: int| 0 <= a < order@.len() ==> (#[trigger] order@[a]) < n,
                out@.len() == j,
                forall|a: int|
                    0 <= a < j ==> #[trigger] out@[a] == (
                        self.items@[order@[a] as int].1,
                        self.items@[order@[a] as int].0,
                    ),
            decreases order.len() - j,
        {
            let item: Found = self.items[order[j]];
            out.push((item.1, item.0));
            j += 1;
        }
        assert(ranking::is_order(
            order@,
            distance_keys(self.items@),
            same_keys(self.items@.len()),
        ));
        out
    }
}

/// The keys by which points are ordered: the nearest first.
pub open spec fn distance_keys(items: Seq<Found>) -> Seq<i64> {
    items.map_values(|f: Found| f.0.rank() as i64)
}

/// A second key that makes no difference.
pub open spec fn same_keys(n: nat) -> Seq<i64> {
    Seq::new(n, |i: int| 0i64)
}

proof fn lemma_risen(s: Seq<Found>, i: int, t: Seq<Found>)
    requires
        0 < i < s.len(),
        all_numbers(s),
        s[parent(i)].0.rank() < s[i].0.rank(),
        t == s.update(i, s[parent(i)]).update(parent(i), s[i]),
        forall|j: int|
            0 < j < s.len() && j != i ==> s[parent(j)].0.rank() >= (#[trigger] s[j]).0.rank(),
        forall|j: int|
            0 < j < s.len() && parent(j) == i ==> s[parent(i)].0.rank() >= (
            #[trigger] s[j]).0.rank(),
    ensures
        all_numbers(t),
        forall|j: int|
            0 < j < t.len() && j != parent(i) ==> t[parent(j)].0.rank() >= (
            #[trigger] t[j]).0.rank(),
        parent(i) > 0 ==> forall|j: int|
            0 < j < t.len() && parent(j) == parent(i) ==> t[parent(parent(i))].0.rank() >= (
            #[trigger] t[j]).0.rank(),
{
    let p = parent(i);
    assert(t[p] == s[i] && t[i] == s[p]);
    assert forall|j: int| 0 < j < t.len() && j != p implies t[parent(j)].0.rank() >= (
    #[trigger] t[j]).0.rank() by {
        if j == i {
        } else if parent(j) == i {
            assert(s[parent(i)].0.rank() >= s[j].0.rank());
        } else {
            assert(t[j] == s[j]);
            assert(s[parent(j)].0.rank() >= s[j].0.rank());
        }
    }
    if p > 0 {
        assert(s[parent(p)].0.rank() >= s[p].0.rank());
        assert(t[parent(p)] == s[parent(p)]);
        assert forall|j: int| 0 < j < t.len() && parent(j) == p implies t[parent(p)].0.rank() >= (
        #[trigger] t[j]).0.rank() by {
            if j != i {
                assert(t[j] == s[j]);
                assert(s[parent(j)].0.rank() >= s[j].0.rank());
            }
        }
    }
    assert forall|j: int| 0 <= j < t.len() implies !(#[trigger] t[j]).0.nan() by {
        assert(!s[j].0.nan() && !s[i].0.nan() && !s[p].0.nan());
    }
}

proof fn lemma_sunk(s: Seq<Found>, i: int, c: int, t: Seq<Found>)
    requires
        0 <= i < c < s.len(),
        parent(c) == i,
        all_numbers(s),
        s[i].0.rank() < s[c].0.rank(),
        t == s.update(i, s[c]).update(c, s[i]),
        forall|j: int|
            0 < j < s.len() && parent(j) == i ==> s[c].0.rank() >= (#[trigger] s[j]).0.rank(),
        forall|j: int|
            0 < j < s.len() && parent(j) != i ==> s[parent(j)].0.rank() >= (
            #[trigger] s[j]).0.rank(),
        i > 0 ==> forall|j: int|
            0 < j < s.len() && parent(j) == i ==> s[parent(i)].0.rank() >= (
            #[trigger] s[j]).0.rank(),
    ensures
        all_numbers(t),
        forall|j: int|
            0 < j < t.len() && parent(j) != c ==> t[parent(j)].0.rank() >= (
            #[trigger] t[j]).0.rank(),
        forall|j: int|
            0 < j < t.len() && parent(j) == c ==> t[parent(c)].0.rank() >= (
            #[trigger] t[j]).0.rank(),
{
    assert(t[i] == s[c] && t[c] == s[i]);
    assert forall|j: int| 0 < j < t.len() && parent(j) != c implies t[parent(j)].0.rank() >= (
    #[trigger] t[j]).0.rank() by {
        if j == c {
        } else if parent(j) == i {
            assert(t[j] == s[j]);
        } else if j == i {
            assert(s[parent(i)].0.rank() >= s[c].0.rank());
            assert(t[parent(i)] == s[parent(i)]);
        } else {
            assert(t[j] == s[j]);
            assert(t[parent(j)] == s[parent(j)]);
        }
    }
    assert forall|j: int| 0 < j < t.len() && parent(j) == c implies t[parent(c)].0.rank() >= (
    #[trigger] t[j]).0.rank() by {
        assert(t[j] == s[j]);
        assert(s[parent(j)].0.rank() >= s[j].0.rank());
    }
    assert forall|j: int| 0 <= j < t.len() implies !(#[trigger] t[j]).0.nan() by {
        assert(!s[j].0.nan() && !s[i].0.nan() && !s[c].0.nan());
    }
}

/// No kept point is farther than the first.
pub proof fn law_first_is_farthest(heap: NearestHeap, i: int)
    requires
        heap.valid(),
        0 <= i < heap.items@.len(),
    ensures
        heap.items@[0].0.rank() >= heap.items@[i].0.rank(),
    decreases i,
{
    if i > 0 {
        law_first_is_farthest(heap, parent(i));
        assert(heap.items@[parent(i)].0.rank() >= heap.items@[i].0.rank());
    }
}

/// Whether `kept` are the `k` nearest of the points of `all`: all of them where
/// there are no more, and otherwise `k` of them, none of which is farther than
/// one left out.
pub open spec fn nearest_of(all: Multiset<Found>, kept: Multiset<Found>, k: nat) -> bool {
    &&& kept.subset_of(all)
    &&& kept.len() == if all.len() < k {
        all.len()
    } else {
        k
    }
    &&& forall|x: Found, y: Found|
        (#[trigger] all.count(x)) > kept.count(x) && (#[trigger] kept.count(y)) > 0
            ==> x.0.rank() >= y.0.rank()
}

/// A heap that holds the `k` nearest of the points offered to it holds them
/// after one more was offered.
pub proof fn law_offer_keeps_nearest(
    all: Multiset<Found>,
    before: NearestHeap,
    after: NearestHeap,
    distance: Score,
    point: usize,
)
    requires
        before.valid(),
        after.valid(),
        after.k == before.k,
        !distance.nan(),
        nearest_of(all, before@, before.k as nat),
        before.items@.len() < before.k ==> after@ == before@.insert((distance, point)),
        before.items@.len() >= before.k ==> ({
            let worst = before.items@[0];
            if distance.below(worst.0) {
                after@ == before@.remove(worst).insert((distance, point))
            } else {
                after@ == before@
            }
        }),
    ensures
        nearest_of(all.insert((distance, point)), after@, before.k as nat),
{
    let new = (distance, point);
    let k = before.k as nat;
    let more = all.insert(new);
    before.items@.to_multiset_ensures();
    after.items@.to_multiset_ensures();
    assert(before@.len() == before.items@.len());
    assert(more.len() == all.len() + 1);
    if before.items@.len() < k {
        assert(all.len() < k);
        lemma_full_subset(before@, all);
        assert(after@ =~= more);
    } else {
        let worst = before.items@[0];
        assert(before.items@.contains(worst));
        assert(before@.count(worst) > 0);
        assert(all.len() >= k);
        assert forall|y: Found| #[trigger] before@.count(y) > 0 implies worst.0.rank()
            >= y.0.rank() by {
            assert(before.items@.contains(y));
            let i = choose|i: int| 0 <= i < before.items@.len() && before.items@[i] == y;
            law_first_is_farthest(before, i);
        }
        if distance.below(worst.0) {
            assert(after@.len() == k);
            assert forall|x: Found| #[trigger] after@.count(x) <= more.count(x) by {
                assert(before@.count(x) <= all.count(x));
            }
            assert forall|x: Found, y: Found|
                (#[trigger] more.count(x)) > after@.count(x) && (#[trigger] after@.count(y))
                    > 0 implies x.0.rank() >= y.0.rank() by {
                // a point left out now was left out before, or is the one that left
                if x == worst {
                    if y != new {
                        assert(before@.count(y) > 0);
                    }
                } else {
                    assert(all.count(x) > before@.count(x));
                    assert(before@.count(worst) > 0);
                    assert(x.0.rank() >= worst.0.rank());
                    if y != new {
                        assert(before@.count(y) > 0);
                    }
                }
            }
        } else {
            assert forall|x: Found| #[trigger] after@.count(x) <= more.count(x) by {
                assert(before@.count(x) <= all.count(x));
            }
            assert(!worst.0.nan());
            assert forall|x: Found, y: Found|
                (#[trigger] more.count(x)) > after@.count(x) && (#[trigger] after@.count(y))
                    > 0 implies x.0.rank() >= y.0.rank() by {
                assert(before@.count(y) > 0);
                if x != new {
                    assert(all.count(x) > before@.count(x));
                }
            }
        }
    }
}

/// A part of a multiset that is as large as it is the multiset.
pub proof fn lemma_full_subset(a: Multiset<Found>, b: Multiset<Found>)
    requires
        a.subset_of(b),
        a.len() == b.len(),
    ensures
        a == b,
{
    broadcast use group_multiset_axioms;

    let d = b.sub(a);
    assert(a.add(d) =~= b);
    assert(d.len() == 0);
    assert forall|x: Found| #[trigger] a.count(x) == b.count(x) by {
        if d.count(x) > 0 {
            assert(d.len() > 0);
        }
    }
    assert(a =~= b);
}

/// A split of points by their distance from one of them.
#[derive(Debug)]
pub struct Split {
    /// The nearer ones.
    pub left: Vec<usize>,
    /// The farther ones.
    pub right: Vec<usize>,
    /// The distance between them.
    pub threshold: Score,
}

/// The keys of a list of distances.
pub open spec fn split_keys(distances: Seq<Score>) -> Seq<i64> {
    distances.map_values(|d: Score| d.rank() as i64)
}

/// Splits points by their distances at the median: the nearer half and the
/// median go to the left, the others to the right. Ties stand in the order
/// given.
pub fn split_at_median(points: &Vec<usize>, distances: &Vec<Score>) -> (r: Split)
    requires
        points@.len() == distances@.len(),
        points@.len() > 0,
        forall|i: int| 0 <= i < distances@.len() ==> !(#[trigger] distances@[i]).nan(),
    ensures
        exists|order: Seq<usize>| #[trigger]
            ranking::is_order(order, split_keys(distances@), same_keys(distances@.len())) && {
                let m = (distances@.len() / 2) as int;
                &&& r.threshold == distances@[order[m] as int]
                &&& r.left@ == order.take(m + 1).map_values(|i: usize| points@[i as int])
                &&& r.right@ == order.skip(m + 1).map_values(|i: usize| points@[i as int])
            },
{
    let n: usize = points.len();
    let mut keys: Vec<i64> = Vec::new();
    let mut rest: Vec<i64> = Vec::new();
    let mut i: usize = 0;
    while i < n
        invariant
            i <= n,
            n == distances@.len(),
            forall|k: int| 0 <= k < n ==> !(#[trigger] distances@[k]).nan(),
            keys@ == split_keys(distances@).take(i as int),
            rest@ == same_keys(i as nat),
        decreases n - i,
    {
        keys.push(distances[i].ascending());
        rest.push(0);
        proof {
            assert(keys@ =~= split_keys(distances@).take(i + 1));
            assert(rest@ =~= same_keys((i + 1) as nat));
        }
        i += 1;
    }
    assert(keys@ =~= split_keys(distances@));
    let order: Vec<usize> = order_by(&keys, &rest);
    let m: usize = n / 2;
    let threshold: Score = distances[order[m]];
    let ghost nearer = order@.take(m + 1).map_values(|i: usize| points@[i as int]);
    let ghost farther = order@.skip(m + 1).map_values(|i: usize| points@[i as int]);
    let mut left: Vec<usize> = Vec::new();
    let mut right: Vec<usize> = Vec::new();
    let mut j: usize = 0;
    while j < n
        invariant
            j <= n,
            n == points@.len(),
            order@.len() == n,
            m < n,
            forall|a: int| 0 <= a < order@.len() ==> (#[trigger] order@[a]) < n,
            nearer == order@.take(m + 1).map_values(|i: usize| points@[i as int]),
            farther == order@.skip(m + 1).map_values(|i: usize| points@[i as int]),
            j <= m + 1 ==> left@ == nearer.take(j as int) && right@.len() == 0,
            j > m + 1 ==> left@ == nearer && right@ == farther.take(j - (m + 1)),
        decreases n - j,
    {
        let p: usize = points[order[j]];
        if j <= m {
            left.push(p);
            assert(left@ =~= nearer.take(j + 1));
        } else {
            right.push(p);
            proof {
                if j == m + 1 {
                    assert(left@ =~= nearer);
                }
                assert(right@ =~= farther.take(j + 1 - (m + 1)));
            }
        }
        j += 1;
    }
    proof {
        assert(nearer.len() == m + 1);
        assert(farther.len() == n - (m + 1));
        assert(left@ =~= nearer);
        assert(right@ =~= farther);
        assert(ranking::is_order(order@, split_keys(distances@), same_keys(distances@.len())));
    }
    Split { left, right, threshold }
}

/// Points on the left are no farther than the threshold, and points on the right
/// no nearer.
pub proof fn law_split_separates(distances: Seq<Score>, order: Seq<usize>, i: int)
    requires
        ranking::is_order(order, split_keys(distances), same_keys(distances.len())),
        0 <= i < distances.len(),
        forall|k: int| 0 <= k < distances.len() ==> !(#[trigger] distances[k]).nan(),
    ensures
        ({
            let m = (distances.len() / 2) as int;
            let threshold = distances[order[m] as int];
            &&& i <= m ==> distances[order[i] as int].rank() <= threshold.rank()
            &&& i >= m ==> distances[order[i] as int].rank() >= threshold.rank()
        }),
{
    let m = (distances.len() / 2) as int;
    let keys = split_keys(distances);
    if i < m {
        assert(ranking::precedes(keys, same_keys(distances.len()), order[i] as int, order[m] as int));
    } else if m < i {
        assert(ranking::precedes(keys, same_keys(distances.len()), order[m] as int, order[i] as int));
    }
    let a = order[i] as int;
    let b = order[m] as int;
    assert(!distances[a].nan() && !distances[b].nan());
    assert(keys[a] == distances[a].rank() as i64);
    assert(keys[b] == distances[b].rank() as i64);
}

/// The nearest come first, and each that was kept is there once.
pub proof fn law_nearest_come_first(
    items: Seq<Found>,
    order: Seq<usize>,
    r: Seq<(usize, Score)>,
    i: int,
    j: int,
)
    requires
        all_numbers(items),
        ranking::is_order(order, distance_keys(items), same_keys(items.len())),
        r.len() == order.len(),
        forall|k: int|
            0 <= k < r.len() ==> #[trigger] r[k] == (
                items[order[k] as int].1,
                items[order[k] as int].0,
            ),
        0 <= i < j < r.len(),
    ensures
        r.len() == items.len(),
        order[i] != order[j],
        r[j].1.reaches(r[i].1),
{
    let a = order[i] as int;
    let b = order[j] as int;
    assert(ranking::precedes(distance_keys(items), same_keys(items.len()), a, b));
    assert(distance_keys(items)[a] == items[a].0.rank() as i64);
    assert(distance_keys(items)[b] == items[b].0.rank() as i64);
    assert(!items[a].0.nan() && !items[b].0.nan());
    assert(r[i].1 == items[a].0 && r[j].1 == items[b].0);
}

} // verus!
