//! Whether the members of a cluster are near-duplicates, and which pairs of them
//! are compared to tell: all of them in a small cluster, and a fixed number of
//! pseudo-random ones in a large one.

use crate::hashing;
use crate::hashing::hash_texts;
use crate::score::Score;
use crate::synthesis::engine;
use crate::synthesis::engine::linear_index_to_pair;
use crate::synthesis::vp_tree;
use crate::text;
use vstd::prelude::*;

verus! {

/// Clusters of up to this many members have all their pairs compared.
pub const SMALL_CLUSTER: usize = 10;

/// How many pairs of a larger cluster are compared.
pub const SAMPLE_SIZE: usize = 45;

/// The factor of the generator.
pub const FACTOR: u64 = 6_364_136_223_846_793_005;

/// The increment of the generator.
pub const INCREMENT: u64 = 1_442_695_040_888_963_407;

/// The numbers below which the state of the generator stays.
pub open spec fn modulus() -> int {
    0x1_0000_0000_0000_0000
}

/// The next state of the generator.
pub open spec fn next_state(state: u64) -> u64 {
    ((state * FACTOR + INCREMENT) % modulus()) as u64
}

/// The state of the generator after `k` steps.
pub open spec fn state_after(state: u64, k: nat) -> u64
    decreases k,
{
    if k == 0 {
        state
    } else {
        state_after(next_state(state), (k - 1) as nat)
    }
}

/// The number below `total` that a state stands for: its upper 31 bits, taken
/// modulo `total`.
pub open spec fn drawn(state: u64, total: int) -> int {
    (state as int / 0x2_0000_0000) % total
}

/// The different numbers that the first `k` draws give, in the order in which
/// they come.
pub open spec fn draws(seed: u64, total: int, k: nat) -> Seq<int>
    decreases k,
{
    if k == 0 {
        Seq::empty()
    } else {
        let before = draws(seed, total, (k - 1) as nat);
        let number = drawn(state_after(seed, k), total);
        if before.contains(number) {
            before
        } else {
            before.push(number)
        }
    }
}

// ---------------------------------------------------------------------------
// The generator reaches every state
// ---------------------------------------------------------------------------

/// The generator without a modulus.
spec fn free_step(x: int) -> int {
    x * FACTOR + INCREMENT
}

spec fn free_after(x: int, k: nat) -> int
    decreases k,
{
    if k == 0 {
        x
    } else {
        free_after(free_step(x), (k - 1) as nat)
    }
}

spec fn two_to(m: nat) -> int
    decreases m,
{
    if m == 0 {
        1
    } else {
        2 * two_to((m - 1) as nat)
    }
}

proof fn lemma_two_to(m: nat)
    ensures
        two_to(m) >= 1,
    decreases m,
{
    if m > 0 {
        lemma_two_to((m - 1) as nat);
    }
}

proof fn lemma_free_sum(x: int, a: nat, b: nat)
    ensures
        free_after(x, a + b) == free_after(free_after(x, a), b),
    decreases a,
{
    if a > 0 {
        lemma_free_sum(free_step(x), (a - 1) as nat, b);
        assert((a + b - 1) as nat == (a - 1) as nat + b);
    }
}

/// What `2^m` steps do to every number: they multiply it by one more than a
/// multiple of `2^(m + 2)`, and add an odd multiple of `2^m`.
spec fn leaps(m: nat, q: int, o: int) -> bool {
    &&& o % 2 == 1
    &&& forall|x: int| #[trigger]
        free_after(x, two_to(m) as nat) == x + two_to(m) * (4 * q * x + o)
}

proof fn lemma_leap_twice(t: int, q: int, o: int, x: int)
    ensures
        ({
            let y = x + t * (4 * q * x + o);
            y + t * (4 * q * y + o) == x + (2 * t) * (4 * (q + 2 * t * q * q) * x + (o + 2 * t * q
                * o))
        }),
{
    let v: int = 4 * q * x + o;
    let c: int = t * v;
    let y: int = x + c;
    let d: int = 2 * t * q;
    assert(4 * q * y == 4 * q * x + 4 * q * c) by (nonlinear_arith)
        requires
            y == x + c,
    ;
    assert(4 * q * y + o == v + 4 * q * c);
    assert(t * (v + 4 * q * c) == c + t * (4 * q * c)) by (nonlinear_arith)
        requires
            c == t * v,
    ;
    assert(t * (4 * q * c) == 2 * (d * c)) by (nonlinear_arith)
        requires
            d == 2 * t * q,
    ;
    assert(d * c == t * (d * v)) by (nonlinear_arith)
        requires
            c == t * v,
    ;
    assert(d * v == d * (4 * q * x) + d * o) by (nonlinear_arith)
        requires
            v == 4 * q * x + o,
    ;
    assert(4 * (q + 2 * t * q * q) * x == 4 * q * x + d * (4 * q * x)) by (nonlinear_arith)
        requires
            d == 2 * t * q,
    ;
    assert(2 * t * q * o == d * o);
    assert(4 * (q + 2 * t * q * q) * x + (o + 2 * t * q * o) == v + d * v);
    assert((2 * t) * (v + d * v) == 2 * c + 2 * (t * (d * v))) by (nonlinear_arith)
        requires
            c == t * v,
    ;
}

proof fn lemma_leaps(m: nat) -> (r: (int, int))
    ensures
        leaps(m, r.0, r.1),
    decreases m,
{
    lemma_two_to(m);
    if m == 0 {
        let q: int = (FACTOR - 1) / 4;
        let o: int = INCREMENT as int;
        assert(4 * q + 1 == FACTOR);
        assert forall|x: int| #[trigger]
            free_after(x, two_to(0) as nat) == x + two_to(0) * (4 * q * x + o) by {
            reveal_with_fuel(free_after, 2);
            assert(x * FACTOR == x + 4 * q * x) by (nonlinear_arith)
                requires
                    4 * q + 1 == FACTOR,
            ;
        }
        (q, o)
    } else {
        let h: nat = (m - 1) as nat;
        let (q, o) = lemma_leaps(h);
        let t: int = two_to(h);
        lemma_two_to(h);
        let p: int = q + 2 * t * q * q;
        let u: int = o + 2 * t * q * o;
        assert(u % 2 == 1) by {
            assert(2 * t * q * o == 2 * (t * q * o)) by (nonlinear_arith);
        }
        assert forall|x: int| #[trigger]
            free_after(x, two_to(m) as nat) == x + two_to(m) * (4 * p * x + u) by {
            lemma_free_sum(x, t as nat, t as nat);
            assert(two_to(m) as nat == t as nat + t as nat);
            let y: int = x + t * (4 * q * x + o);
            assert(free_after(x, t as nat) == y);
            assert(free_after(y, t as nat) == y + t * (4 * q * y + o));
            lemma_leap_twice(t, q, o, x);
        }
        (p, u)
    }
}

/// From every number, some number of steps leads to a number that is congruent
/// to a given one modulo `2^m`.
proof fn lemma_reaches(m: nat, x: int, y: int) -> (k: nat)
    ensures
        exists|t: int| free_after(x, k) - y == #[trigger] (two_to(m) * t),
    decreases m,
{
    if m == 0 {
        assert(free_after(x, 0) - y == two_to(0) * (x - y));
        0
    } else {
        let h: nat = (m - 1) as nat;
        let k: nat = lemma_reaches(h, x, y);
        let t = choose|t: int| free_after(x, k) - y == #[trigger] (two_to(h) * t);
        let z: int = free_after(x, k);
        let w: int = two_to(h);
        if t % 2 == 0 {
            let s: int = t / 2;
            assert(w * t == (2 * w) * s) by (nonlinear_arith)
                requires
                    t == 2 * s,
            ;
            assert(free_after(x, k) - y == two_to(m) * s);
            k
        } else {
            let (q, o) = lemma_leaps(h);
            lemma_two_to(h);
            lemma_free_sum(x, k, w as nat);
            assert(free_after(z, w as nat) == z + w * (4 * q * z + o));
            let s: int = (t + o) / 2 + 2 * (q * z);
            assert(4 * q * z == 4 * (q * z)) by (nonlinear_arith);
            assert(t + (4 * q * z + o) == 2 * s);
            assert(w * t + w * (4 * q * z + o) == (2 * w) * s) by (nonlinear_arith)
                requires
                    t + (4 * q * z + o) == 2 * s,
            ;
            assert(free_after(x, k + w as nat) - y == two_to(m) * s);
            k + w as nat
        }
    }
}

proof fn lemma_step_congruent(state: u64, z: int)
    requires
        z % modulus() == state,
    ensures
        free_step(z) % modulus() == next_state(state),
{
    let w: int = z / modulus();
    assert(z == modulus() * w + state);
    assert(z * FACTOR + INCREMENT == modulus() * (w * FACTOR) + (state * FACTOR + INCREMENT))
        by (nonlinear_arith)
        requires
            z == modulus() * w + state,
    ;
    vstd::arithmetic::div_mod::lemma_mod_multiples_vanish(
        w * FACTOR,
        state * FACTOR + INCREMENT,
        modulus(),
    );
}

proof fn lemma_after_congruent(state: u64, z: int, k: nat)
    requires
        z % modulus() == state,
    ensures
        free_after(z, k) % modulus() == state_after(state, k),
    decreases k,
{
    if k > 0 {
        lemma_step_congruent(state, z);
        lemma_after_congruent(next_state(state), free_step(z), (k - 1) as nat);
    }
}

/// The generator has full period: from every state it comes to every state.
pub proof fn law_generator_reaches_all(state: u64, target: u64)
    ensures
        exists|k: nat| k > 0 && #[trigger] state_after(state, k) == target,
{
    let next = next_state(state);
    let k = lemma_reaches(64, next as int, target as int);
    let t = choose|t: int|
        free_after(next as int, k) - target == #[trigger] (two_to(64) * t);
    assert(two_to(64) == modulus()) by {
        reveal_with_fuel(two_to, 65);
    }
    lemma_after_congruent(next, next as int, k);
    vstd::arithmetic::div_mod::lemma_mod_multiples_vanish(t, target as int, modulus());
    assert(state_after(next, k) == target);
    assert(state_after(state, k + 1) == target);
}

proof fn lemma_after_last(state: u64, k: nat)
    ensures
        state_after(state, k + 1) == next_state(state_after(state, k)),
    decreases k,
{
    reveal_with_fuel(state_after, 2);
    if k > 0 {
        lemma_after_last(next_state(state), (k - 1) as nat);
        assert((k - 1) as nat + 1 == k);
    }
}

/// A number below `bound` that a shorter list does not hold.
proof fn lemma_missing(found: Seq<int>, bound: int) -> (r: int)
    requires
        found.len() < bound,
    ensures
        0 <= r < bound,
        !found.contains(r),
{
    if forall|i: int| 0 <= i < bound ==> found.contains(i) {
        let range = vstd::set_lib::set_int_range(0, bound);
        vstd::set_lib::lemma_int_range(0, bound);
        found.lemma_cardinality_of_set();
        assert(range.subset_of(found.to_set()));
        vstd::set_lib::lemma_len_subset(range, found.to_set());
        assert(false);
    }
    choose|i: int| 0 <= i < bound && !found.contains(i)
}

/// The numbers of a list.
pub open spec fn numbers(v: Seq<usize>) -> Seq<int> {
    v.map_values(|x: usize| x as int)
}

fn holds_number(v: &Vec<usize>, x: usize) -> (r: bool)
    ensures
        r == numbers(v@).contains(x as int),
{
    let mut i: usize = 0;
    while i < v.len()
        invariant
            i <= v@.len(),
            forall|k: int| 0 <= k < i ==> v@[k] != x,
        decreases v.len() - i,
    {
        if v[i] == x {
            assert(numbers(v@)[i as int] == x);
            return true;
        }
        i += 1;
    }
    assert forall|k: int| 0 <= k < numbers(v@).len() implies numbers(v@)[k] != x by {
        assert(v@[k] != x);
    }
    false
}

proof fn lemma_target(found: Seq<int>, state: u64, total: int, size: int) -> (k: nat)
    requires
        found.len() < size <= total,
        size <= 0x8000_0000,
    ensures
        k > 0,
        !found.contains(drawn(state_after(state, k), total)),
{
    let r = lemma_missing(found, size);
    let target: u64 = (r * 0x2_0000_0000) as u64;
    assert(target as int / 0x2_0000_0000 == r);
    vstd::arithmetic::div_mod::lemma_small_mod(r as nat, total as nat);
    law_generator_reaches_all(state, target);
    choose|k: nat| k > 0 && #[trigger] state_after(state, k) == target
}

/// Draws `size` different numbers below `total`.
pub fn draw_distinct(seed: u64, total: usize, size: usize) -> (r: Vec<usize>)
    requires
        size <= total,
        size <= 0x8000_0000,
    ensures
        r@.len() == size,
        is_sample(numbers(r@), seed, total as int),
{
    let mut found: Vec<usize> = Vec::new();
    let mut state: u64 = seed;
    let ghost mut count: nat = 0;
    let ghost mut ahead: nat = 0;
    assert(numbers(found@) =~= draws(seed, total as int, 0));
    proof {
        if size > 0 {
            ahead = lemma_target(numbers(found@), state, total as int, size as int);
        }
    }
    while found.len() < size
        invariant
            found@.len() <= size <= total,
            size <= 0x8000_0000,
            state == state_after(seed, count),
            numbers(found@) == draws(seed, total as int, count),
            found@.len() < size ==> ahead > 0 && !numbers(found@).contains(
                drawn(state_after(state, ahead), total as int),
            ),
        decreases size - found@.len(), ahead,
    {
        let ghost before = state;
        state = state.wrapping_mul(FACTOR).wrapping_add(INCREMENT);
        proof {
            lemma_wraps(before);
            lemma_after_last(seed, count);
            count = count + 1;
            assert(state_after(before, ahead) == state_after(state, (ahead - 1) as nat));
            ahead = (ahead - 1) as nat;
            assert(state >> 33 == state / 0x2_0000_0000u64) by (bit_vector);
            assert(state >> 33 < 0x8000_0000) by (bit_vector);
        }
        let index: usize = (state >> 33) as usize % total;
        assert(index == drawn(state, total as int));
        if !holds_number(&found, index) {
            let ghost earlier = found@;
            found.push(index);
            assert(numbers(found@) =~= numbers(earlier).push(index as int));
            proof {
                if found@.len() < size {
                    ahead = lemma_target(numbers(found@), state, total as int, size as int);
                }
            }
        }
    }
    found
}

proof fn lemma_wraps(state: u64)
    ensures
        state.wrapping_mul(FACTOR).wrapping_add(INCREMENT) == next_state(state),
{
    let product: int = state * FACTOR;
    assert(state.wrapping_mul(FACTOR) == product % modulus());
    assert((product % modulus() + INCREMENT) % modulus() == (product + INCREMENT) % modulus()) by {
        vstd::arithmetic::div_mod::lemma_add_mod_noop(product, INCREMENT as int, modulus());
    }
}

proof fn lemma_draws_extend(seed: u64, total: int, a: nat, b: nat)
    requires
        a <= b,
    ensures
        draws(seed, total, a).len() <= draws(seed, total, b).len(),
        draws(seed, total, b).take(draws(seed, total, a).len() as int) == draws(seed, total, a),
    decreases b - a,
{
    let first = draws(seed, total, a);
    if a < b {
        lemma_draws_extend(seed, total, a, (b - 1) as nat);
        let before = draws(seed, total, (b - 1) as nat);
        assert(draws(seed, total, b).take(first.len() as int) =~= before.take(first.len() as int));
    } else {
        assert(first.take(first.len() as int) =~= first);
    }
}

/// A sample is determined by the seed, the number of pairs and its size.
pub proof fn law_sample_unique(seed: u64, total: int, a: nat, b: nat)
    requires
        draws(seed, total, a).len() == draws(seed, total, b).len(),
    ensures
        draws(seed, total, a) == draws(seed, total, b),
{
    if a <= b {
        lemma_draws_extend(seed, total, a, b);
        let all = draws(seed, total, b);
        assert(all.take(all.len() as int) =~= all);
    } else {
        lemma_draws_extend(seed, total, b, a);
        let all = draws(seed, total, a);
        assert(all.take(all.len() as int) =~= all);
    }
}

/// No pair is sampled twice.
pub proof fn law_sample_distinct(seed: u64, total: int, k: nat)
    ensures
        draws(seed, total, k).no_duplicates(),
    decreases k,
{
    if k > 0 {
        law_sample_distinct(seed, total, (k - 1) as nat);
        let before = draws(seed, total, (k - 1) as nat);
        let number = drawn(state_after(seed, k), total);
        if !before.contains(number) {
            assert forall|i: int, j: int|
                0 <= i < before.len() + 1 && 0 <= j < before.len() + 1 && i != j implies before.push(
                number,
            )[i] != before.push(number)[j] by {
                if i < before.len() {
                    assert(before.contains(before[i]));
                }
                if j < before.len() {
                    assert(before.contains(before[j]));
                }
            }
        }
    }
}

// ---------------------------------------------------------------------------
// The pairs to compare
// ---------------------------------------------------------------------------

/// The places of pairs in the triangle over `n` members.
pub open spec fn places(pairs: Seq<(usize, usize)>, n: int) -> Seq<int> {
    pairs.map_values(|p: (usize, usize)| engine::pair_index(p.0 as int, p.1 as int, n))
}

/// Whether each pair is one of two different members, in order.
pub open spec fn proper(pairs: Seq<(usize, usize)>, n: int) -> bool {
    forall|k: int| 0 <= k < pairs.len() ==> (#[trigger] pairs[k]).0 < pairs[k].1 < n
}

/// Whether a list holds the first different numbers that the generator draws.
pub open spec fn is_sample(v: Seq<int>, seed: u64, total: int) -> bool {
    exists|k: nat| v == #[trigger] draws(seed, total, k)
}

/// Whether these are the pairs of a cluster to compare: none below two members,
/// all of them row by row in a small cluster, and the sample that the members'
/// ids determine in a large one.
pub open spec fn to_compare(ids: Seq<Seq<char>>, pairs: Seq<(usize, usize)>) -> bool {
    let n = ids.len() as int;
    let total = engine::row_start(n as nat, n as nat);
    &&& proper(pairs, n)
    &&& if n < 2 {
        pairs.len() == 0
    } else if n <= SMALL_CLUSTER {
        pairs.len() == total && forall|k: int|
            0 <= k < pairs.len() ==> #[trigger] places(pairs, n)[k] == k
    } else {
        pairs.len() == SAMPLE_SIZE && is_sample(
            places(pairs, n),
            hashing::hash_of_texts(ids),
            total,
        )
    }
}

fn pairs_at(indices: &Vec<usize>, n: usize) -> (r: Vec<(usize, usize)>)
    requires
        n >= 2,
        forall|k: int|
            0 <= k < indices@.len() ==> (#[trigger] indices@[k]) < engine::row_start(
                n as nat,
                n as nat,
            ),
    ensures
        proper(r@, n as int),
        places(r@, n as int) == numbers(indices@),
{
    let mut out: Vec<(usize, usize)> = Vec::new();
    let mut i: usize = 0;
    while i < indices.len()
        invariant
            n >= 2,
            i <= indices@.len(),
            out@.len() == i,
            forall|k: int|
                0 <= k < indices@.len() ==> (#[trigger] indices@[k]) < engine::row_start(
                    n as nat,
                    n as nat,
                ),
            proper(out@, n as int),
            forall|k: int|
                0 <= k < i ==> engine::pair_index(
                    (#[trigger] out@[k]).0 as int,
                    out@[k].1 as int,
                    n as int,
                ) == indices@[k],
        decreases indices.len() - i,
    {
        out.push(linear_index_to_pair(indices[i], n));
        i += 1;
    }
    assert(places(out@, n as int) =~= numbers(indices@));
    out
}

/// The pairs of a cluster's members to compare.
pub fn pairs_to_compare(member_ids: &Vec<String>) -> (r: Vec<(usize, usize)>)
    requires
        member_ids@.len() * (member_ids@.len() - 1) <= usize::MAX,
    ensures
        to_compare(text::views(member_ids@), r@),
{
    let n: usize = member_ids.len();
    if n < 2 {
        return Vec::new();
    }
    proof {
        engine::law_pair_count(n as nat);
    }
    let total: usize = n * (n - 1) / 2;
    let mut indices: Vec<usize> = Vec::new();
    if n <= SMALL_CLUSTER {
        let mut k: usize = 0;
        while k < total
            invariant
                k <= total,
                indices@.len() == k,
                forall|j: int| 0 <= j < k ==> #[trigger] indices@[j] == j,
            decreases total - k,
        {
            indices.push(k);
            k += 1;
        }
        let r = pairs_at(&indices, n);
        assert(places(r@, n as int).len() == r@.len());
        return r;
    }
    assert(n * (n - 1) >= 11 * 10) by (nonlinear_arith)
        requires
            n >= 11,
    ;
    let seed: u64 = hash_texts(member_ids);
    indices = draw_distinct(seed, total, SAMPLE_SIZE);
    proof {
        let k = choose|k: nat| numbers(indices@) == #[trigger] draws(seed, total as int, k);
        lemma_draws_below(seed, total as int, k);
        assert forall|j: int| 0 <= j < indices@.len() implies (#[trigger] indices@[j]) < total by {
            assert(numbers(indices@)[j] == indices@[j]);
        }
    }
    let r = pairs_at(&indices, n);
    proof {
        assert(places(r@, n as int).len() == r@.len());
        assert(numbers(indices@).len() == indices@.len());
        let ids = text::views(member_ids@);
        assert(total == engine::row_start(n as nat, n as nat));
        let k = choose|k: nat| numbers(indices@) == #[trigger] draws(seed, total as int, k);
        assert(places(r@, n as int) == draws(hashing::hash_of_texts(ids), total as int, k));
        assert(ids.len() == n);
        assert(is_sample(places(r@, n as int), hashing::hash_of_texts(ids), total as int));
    }
    r
}

proof fn lemma_draws_below(seed: u64, total: int, k: nat)
    requires
        total > 0,
    ensures
        forall|j: int|
            0 <= j < draws(seed, total, k).len() ==> 0 <= #[trigger] draws(seed, total, k)[j]
                < total,
    decreases k,
{
    if k > 0 {
        lemma_draws_below(seed, total, (k - 1) as nat);
        let before = draws(seed, total, (k - 1) as nat);
        let state = state_after(seed, k);
        vstd::arithmetic::div_mod::lemma_mod_bound(state as int / 0x2_0000_0000, total);
        assert forall|j: int| 0 <= j < draws(seed, total, k).len() implies 0 <= #[trigger] draws(
            seed,
            total,
            k,
        )[j] < total by {
            if j < before.len() {
                assert(draws(seed, total, k)[j] == before[j]);
            }
        }
    }
}

/// Whether a function gives a similarity for every two of `n` members, and the
/// same one each time.
pub open spec fn compares<S: Fn(usize, usize) -> Score>(similarity: S, n: nat) -> bool {
    &&& forall|i: usize, j: usize|
        i < n && j < n ==> #[trigger] call_requires(similarity, (i, j))
    &&& forall|i: usize, j: usize, s: Score|
        i < n && j < n && #[trigger] call_ensures(similarity, (i, j), s) ==> s == vp_tree::between(
            similarity,
            i,
            j,
        )
}

/// Whether the similarity of every pair of a list exceeds the threshold. One that
/// is no number exceeds nothing.
pub open spec fn all_similar<S: Fn(usize, usize) -> Score>(
    similarity: S,
    pairs: Seq<(usize, usize)>,
    threshold: Score,
) -> bool {
    forall|k: int|
        0 <= k < pairs.len() ==> threshold.below(
            vp_tree::between(similarity, (#[trigger] pairs[k]).0, pairs[k].1),
        )
}

/// Whether the members of a cluster are near-duplicates: there are at least two,
/// each has an embedding, and the similarity of every pair that is compared
/// exceeds the threshold.
pub fn compute_all_pairs_similar<S: Fn(usize, usize) -> Score>(
    member_ids: &Vec<String>,
    all_embedded: bool,
    similarity: &S,
    threshold: Score,
) -> (r: bool)
    requires
        member_ids@.len() * (member_ids@.len() - 1) <= usize::MAX,
        all_embedded ==> compares(*similarity, member_ids@.len()),
    ensures
        member_ids@.len() < 2 || !all_embedded ==> !r,
        member_ids@.len() >= 2 && all_embedded ==> exists|pairs: Seq<(usize, usize)>| #[trigger]
            to_compare(text::views(member_ids@), pairs) && r == all_similar(
                *similarity,
                pairs,
                threshold,
            ),
{
    let n: usize = member_ids.len();
    if n < 2 || !all_embedded {
        return false;
    }
    let pairs: Vec<(usize, usize)> = pairs_to_compare(member_ids);
    assert(text::views(member_ids@).len() == n);
    let mut i: usize = 0;
    while i < pairs.len()
        invariant
            i <= pairs@.len(),
            n == member_ids@.len(),
            n >= 2,
            all_embedded,
            compares(*similarity, n as nat),
            proper(pairs@, n as int),
            to_compare(text::views(member_ids@), pairs@),
            forall|k: int|
                0 <= k < i ==> threshold.below(
                    vp_tree::between(*similarity, (#[trigger] pairs@[k]).0, pairs@[k].1),
                ),
        decreases pairs.len() - i,
    {
        let (a, b) = pairs[i];
        assert(pairs@[i as int].0 < pairs@[i as int].1 < n);
        let s: Score = similarity(a, b);
        if !threshold.lt(&s) {
            assert(!all_similar(*similarity, pairs@, threshold));
            return false;
        }
        i += 1;
    }
    assert(all_similar(*similarity, pairs@, threshold));
    true
}

/// In a cluster of at most ten members every pair is compared, once.
pub proof fn law_small_clusters_are_compared_whole(
    ids: Seq<Seq<char>>,
    pairs: Seq<(usize, usize)>,
    i: usize,
    j: usize,
)
    requires
        to_compare(ids, pairs),
        2 <= ids.len() <= 10,
        i < j < ids.len(),
    ensures
        pairs.contains((i, j)),
        2 * pairs.len() == ids.len() * (ids.len() - 1),
{
    let n = ids.len() as int;
    engine::law_pair_index_bijective(i as int, j as int, i as int, j as int, n);
    engine::law_pair_count(n as nat);
    let k = engine::pair_index(i as int, j as int, n);
    assert(places(pairs, n)[k] == k);
    let p = pairs[k];
    assert(p.0 < p.1 < n);
    engine::law_pair_index_bijective(i as int, j as int, p.0 as int, p.1 as int, n);
    assert(pairs[k] == (i, j));
}

/// In a larger cluster 45 pairs are compared, no two of them the same.
pub proof fn law_large_clusters_are_sampled(
    ids: Seq<Seq<char>>,
    pairs: Seq<(usize, usize)>,
    a: int,
    b: int,
)
    requires
        to_compare(ids, pairs),
        ids.len() > 10,
        0 <= a < b < pairs.len(),
    ensures
        pairs.len() == 45,
        pairs[a].0 < pairs[a].1 < ids.len(),
        pairs[a] != pairs[b],
{
    let n = ids.len() as int;
    let total = engine::row_start(n as nat, n as nat);
    let seed = hashing::hash_of_texts(ids);
    let k = choose|k: nat| places(pairs, n) == #[trigger] draws(seed, total, k);
    law_sample_distinct(seed, total, k);
    assert(places(pairs, n)[a] != places(pairs, n)[b]);
}

/// Members pass for near-duplicates only where every two that are compared are
/// more similar than the threshold: in a small cluster every two members.
pub proof fn law_near_duplicates_exceed_the_threshold<S: Fn(usize, usize) -> Score>(
    similarity: S,
    ids: Seq<Seq<char>>,
    pairs: Seq<(usize, usize)>,
    threshold: Score,
    i: usize,
    j: usize,
)
    requires
        to_compare(ids, pairs),
        2 <= ids.len() <= 10,
        i < j < ids.len(),
    ensures
        all_similar(similarity, pairs, threshold) ==> threshold.rank() < vp_tree::between(
            similarity,
            i,
            j,
        ).rank() && !threshold.nan() && !vp_tree::between(similarity, i, j).nan(),
{
    law_small_clusters_are_compared_whole(ids, pairs, i, j);
    let k = choose|k: int| 0 <= k < pairs.len() && pairs[k] == (i, j);
    assert(pairs[k] == (i, j));
}

/// Every number drawn lies below the total, and the lowest thirty-three bits of
/// the state have no part in it.
pub proof fn law_high_bits_are_drawn(a: u64, b: u64, total: int)
    requires
        total > 0,
    ensures
        0 <= drawn(a, total) < total,
        a / 0x2_0000_0000 == b / 0x2_0000_0000 ==> drawn(a, total) == drawn(b, total),
        total > 0x7fff_ffff ==> drawn(a, total) == a / 0x2_0000_0000,
{
    assert(0 <= a as int / 0x2_0000_0000 <= 0x7fff_ffff);
    let x = a as int / 0x2_0000_0000;
    assert(0 <= x % total < total) by (nonlinear_arith)
        requires
            total > 0,
    ;
    if total > 0x7fff_ffff {
        vstd::arithmetic::div_mod::lemma_small_mod(x as nat, total as nat);
    }
}

} // verus!
