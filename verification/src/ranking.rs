//! Stable orders: the positions of a list by two keys, ties in the order of the
//! list.

use vstd::prelude::*;
use vstd::seq_lib::*;
use vstd::set_lib::*;

verus! {

/// A position with its keys.
pub type Key = (i64, i64, usize);

/// The order of tuples of integers: by the first part in which they differ.
pub open spec fn key_le(a: Key, b: Key) -> bool {
    a.0 < b.0 || (a.0 == b.0 && (a.1 < b.1 || (a.1 == b.1 && a.2 <= b.2)))
}

/// `slice::sort` of tuples of integers: the same tuples, each no greater than
/// those behind it, in the order of tuples.
#[verifier::external_body]
fn sort_keys(v: &mut Vec<Key>)
    ensures
        final(v)@.to_multiset() == old(v)@.to_multiset(),
        forall|i: int, j: int|
            0 <= i < j < final(v)@.len() ==> key_le(#[trigger] final(v)@[i], #[trigger] final(v)@[j]),
{
    v.sort();
}

/// Whether position `x` comes before position `y`: by the first key, then by
/// the second, then by itself.
pub open spec fn precedes(first: Seq<i64>, second: Seq<i64>, x: int, y: int) -> bool {
    first[x] < first[y] || (first[x] == first[y] && (second[x] < second[y] || (second[x]
        == second[y] && x < y)))
}

/// Whether `r` lists the positions of a list in the order of their keys.
pub open spec fn is_order(r: Seq<usize>, first: Seq<i64>, second: Seq<i64>) -> bool {
    &&& r.len() == first.len()
    &&& r.no_duplicates()
    &&& forall|i: int| 0 <= i < r.len() ==> (#[trigger] r[i]) < first.len()
    &&& forall|i: int, j: int|
        0 <= i < j < r.len() ==> precedes(first, second, #[trigger] r[i] as int, #[trigger] r[j] as int)
}

/// The key of a position.
spec fn key_at(first: Seq<i64>, second: Seq<i64>, i: int) -> Key {
    (first[i], second[i], i as usize)
}

/// Lists the positions of a list in the order of their keys.
pub fn order_by(first: &Vec<i64>, second: &Vec<i64>) -> (r: Vec<usize>)
    requires
        first@.len() == second@.len(),
    ensures
        is_order(r@, first@, second@),
{
    let n: usize = first.len();
    let mut keys: Vec<Key> = Vec::new();
    let mut i: usize = 0;
    while i < n
        invariant
            i <= n,
            n == first@.len(),
            n == second@.len(),
            keys@.len() == i,
            forall|k: int| 0 <= k < i ==> #[trigger] keys@[k] == key_at(first@, second@, k),
        decreases n - i,
    {
        keys.push((first[i], second[i], i));
        i += 1;
    }
    let ghost unsorted = keys@;
    proof {
        assert(unsorted.no_duplicates());
    }
    sort_keys(&mut keys);
    proof {
        lemma_sorted_keys(unsorted, keys@, first@, second@);
    }
    let mut out: Vec<usize> = Vec::new();
    let mut j: usize = 0;
    while j < keys.len()
        invariant
            j <= keys@.len(),
            out@.len() == j,
            forall|k: int| 0 <= k < j ==> #[trigger] out@[k] == keys@[k].2,
        decreases keys.len() - j,
    {
        out.push(keys[j].2);
        j += 1;
    }
    proof {
        assert forall|a: int, b: int| 0 <= a < out@.len() && 0 <= b < out@.len() && a
            != b implies out@[a] != out@[b] by {
            assert(keys@[a] != keys@[b]);
            assert(keys@[a] == key_at(first@, second@, keys@[a].2 as int));
            assert(keys@[b] == key_at(first@, second@, keys@[b].2 as int));
        }
        assert forall|a: int, b: int| 0 <= a < b < out@.len() implies precedes(
            first@,
            second@,
            #[trigger] out@[a] as int,
            #[trigger] out@[b] as int,
        ) by {
            assert(key_le(keys@[a], keys@[b]));
            assert(out@[a] != out@[b]);
            assert(keys@[a] == key_at(first@, second@, keys@[a].2 as int));
            assert(keys@[b] == key_at(first@, second@, keys@[b].2 as int));
        }
    }
    out
}

proof fn lemma_sorted_keys(
    unsorted: Seq<Key>,
    sorted: Seq<Key>,
    first: Seq<i64>,
    second: Seq<i64>,
)
    requires
        unsorted.len() == first.len(),
        first.len() <= usize::MAX,
        unsorted.no_duplicates(),
        sorted.to_multiset() == unsorted.to_multiset(),
        forall|k: int| 0 <= k < unsorted.len() ==> #[trigger] unsorted[k] == key_at(first, second, k),
    ensures
        sorted.len() == unsorted.len(),
        sorted.no_duplicates(),
        forall|k: int|
            0 <= k < sorted.len() ==> (#[trigger] sorted[k]).2 < first.len() && sorted[k] == key_at(
                first,
                second,
                sorted[k].2 as int,
            ),
{
    unsorted.to_multiset_ensures();
    sorted.to_multiset_ensures();
    unsorted.lemma_multiset_has_no_duplicates();
    sorted.lemma_multiset_has_no_duplicates_conv();
    assert forall|k: int| 0 <= k < sorted.len() implies (#[trigger] sorted[k]).2 < first.len()
        && sorted[k] == key_at(first, second, sorted[k].2 as int) by {
        let x = sorted[k];
        assert(sorted.contains(x));
        assert(sorted.to_multiset().count(x) > 0);
        assert(unsorted.to_multiset().count(x) > 0);
        assert(unsorted.contains(x));
        let m = choose|m: int| 0 <= m < unsorted.len() && unsorted[m] == x;
        assert(unsorted[m] == key_at(first, second, m));
    }
}

/// There is one order of given keys.
pub proof fn law_order_unique(
    a: Seq<usize>,
    b: Seq<usize>,
    first: Seq<i64>,
    second: Seq<i64>,
)
    requires
        is_order(a, first, second),
        is_order(b, first, second),
        first.len() <= usize::MAX,
    ensures
        a == b,
{
    assert forall|i: int| 0 <= i < a.len() implies a[i] == b[i] by {
        lemma_order_agrees(a, b, first, second, i);
    }
    assert(a =~= b);
}

proof fn lemma_order_agrees(
    a: Seq<usize>,
    b: Seq<usize>,
    first: Seq<i64>,
    second: Seq<i64>,
    i: int,
)
    requires
        is_order(a, first, second),
        is_order(b, first, second),
        first.len() <= usize::MAX,
        0 <= i < a.len(),
    ensures
        a[i] == b[i],
    decreases i,
{
    assert forall|k: int| 0 <= k < i implies a[k] == b[k] by {
        lemma_order_agrees(a, b, first, second, k);
    }
    let x = a[i];
    let y = b[i];
    if x != y {
        lemma_order_complete(a, first, second, y as int);
        lemma_order_complete(b, first, second, x as int);
        let p = choose|p: int| 0 <= p < b.len() && b[p] as int == x as int;
        let q = choose|q: int| 0 <= q < a.len() && a[q] as int == y as int;
        if p < i {
            assert(a[p] == b[p]);
            assert(a[p] == a[i]);
        }
        if q < i {
            assert(a[q] == b[q]);
            assert(b[q] == b[i]);
        }
        assert(precedes(first, second, b[i] as int, b[p] as int));
        assert(precedes(first, second, a[i] as int, a[q] as int));
    }
}

/// An order holds every position.
pub proof fn lemma_order_complete(r: Seq<usize>, first: Seq<i64>, second: Seq<i64>, x: int)
    requires
        is_order(r, first, second),
        0 <= x < first.len(),
    ensures
        exists|k: int| 0 <= k < r.len() && r[k] as int == x,
{
    lemma_permutation_complete(r, first.len(), x);
}

/// Whether a list holds each of the positions below `n` once.
spec fn is_permutation(r: Seq<usize>, n: nat) -> bool {
    &&& r.len() == n
    &&& r.no_duplicates()
    &&& forall|i: int| 0 <= i < r.len() ==> (#[trigger] r[i]) < n
}

/// A list that is put in order holds what it held.
pub proof fn law_order_keeps_items<A>(
    items: Seq<A>,
    order: Seq<usize>,
    first: Seq<i64>,
    second: Seq<i64>,
)
    requires
        is_order(order, first, second),
        first.len() == items.len(),
    ensures
        order.map_values(|i: usize| items[i as int]).to_multiset() == items.to_multiset(),
{
    lemma_permuted(items, order);
}

proof fn lemma_permuted<A>(items: Seq<A>, order: Seq<usize>)
    requires
        is_permutation(order, items.len()),
    ensures
        order.map_values(|i: usize| items[i as int]).to_multiset() == items.to_multiset(),
    decreases items.len(),
{
    let pick = |i: usize| items[i as int];
    let arranged = order.map_values(pick);
    if items.len() == 0 {
        assert(arranged =~= items);
    } else {
        let n = items.len() as int;
        let fewer = items.drop_last();
        lemma_permutation_complete(order, items.len(), n - 1);
        let p = choose|p: int| 0 <= p < order.len() && order[p] as int == n - 1;
        let rest = order.remove(p);
        assert forall|i: int| 0 <= i < rest.len() implies (#[trigger] rest[i]) < fewer.len() by {
            let q = if i < p {
                i
            } else {
                i + 1
            };
            assert(rest[i] == order[q]);
            assert(order[q] != order[p]);
        }
        assert(rest.no_duplicates()) by {
            assert forall|i: int, j: int|
                0 <= i < rest.len() && 0 <= j < rest.len() && i != j implies rest[i]
                != rest[j] by {
                let a = if i < p {
                    i
                } else {
                    i + 1
                };
                let b = if j < p {
                    j
                } else {
                    j + 1
                };
                assert(order[a] != order[b]);
            }
        }
        lemma_permuted(fewer, rest);
        assert(arranged.remove(p) =~= rest.map_values(|i: usize| fewer[i as int]));
        to_multiset_remove(arranged, p);
        to_multiset_build(fewer, items.last());
        assert(items =~= fewer.push(items.last()));
        arranged.to_multiset_ensures();
        assert(arranged.contains(arranged[p]));
        assert(arranged.to_multiset().remove(arranged[p]).insert(arranged[p])
            =~= arranged.to_multiset());
    }
}

proof fn lemma_permutation_complete(r: Seq<usize>, n: nat, x: int)
    requires
        is_permutation(r, n),
        0 <= x < n,
    ensures
        exists|k: int| 0 <= k < r.len() && r[k] as int == x,
{
    let ints = r.map_values(|u: usize| u as int);
    assert forall|i: int, j: int| 0 <= i < ints.len() && 0 <= j < ints.len() && i != j implies ints[i]
        != ints[j] by {
        assert(r[i] != r[j]);
    }
    ints.unique_seq_to_set();
    let all = set_int_range(0, n as int);
    lemma_int_range(0, n as int);
    assert forall|v: int| ints.to_set().contains(v) implies all.contains(v) by {
        assert(ints.contains(v));
        let k = choose|k: int| 0 <= k < ints.len() && ints[k] == v;
        assert(r[k] < n);
    }
    lemma_subset_equality(ints.to_set(), all);
    assert(all.contains(x));
    assert(ints.contains(x));
    let k = choose|k: int| 0 <= k < ints.len() && ints[k] == x;
    assert(r[k] as int == x);
}

/// An order sorts by the first key, then by the second, and leaves equal items in
/// the order that they had; and it names every item once.
pub proof fn law_order_sorts(r: Seq<usize>, first: Seq<i64>, second: Seq<i64>, i: int, j: int)
    requires
        is_order(r, first, second),
        first.len() == second.len(),
        0 <= i < j < r.len(),
    ensures
        r.len() == first.len(),
        r[i] != r[j],
        first[r[i] as int] <= first[r[j] as int],
        first[r[i] as int] == first[r[j] as int] ==> second[r[i] as int] <= second[r[j] as int],
        first[r[i] as int] == first[r[j] as int] && second[r[i] as int] == second[r[j] as int]
            ==> r[i] < r[j],
{
    assert(precedes(first, second, r[i] as int, r[j] as int));
}

} // verus!
