//! The synthesis run: which clusters are looked at, what is done with each, what
//! is stored, and what the run reports.
//!
//! The database, the language model and the arithmetic on doubles are outside;
//! what they answer is handed in.

use crate::hashing;
use crate::hashing::hex_text;
use crate::json;
use crate::json::{bool_value, entry, object_value, text_value};
use crate::score;
use crate::score::Score;
use crate::substrate::attributes;
use crate::synthesis::gate;
use crate::synthesis::types::{
    ErrorView, GateDecision, GateResult, GateScores, IncrementalConfig, IncrementalState,
    InsightType, MemoryCluster, MemoryRecord, Period, ProvenanceRecord, SynthesisError,
    SynthesisOutput, SynthesisReport, SynthesisSettings, Timestamp,
};
use crate::text;
use crate::text::{clone_all, contains_text, same, sort_dedup, u64_text};
use vstd::prelude::*;
use vstd::set_lib::*;
use vstd::string::*;

verus! {

// ---------------------------------------------------------------------------
// Pairs of members
// ---------------------------------------------------------------------------

/// The number of pairs in the rows before row `i` of the triangle over `n`
/// items: row `i` holds the pairs of `i` with the items behind it.
pub open spec fn row_start(i: nat, n: nat) -> int
    decreases i,
{
    if i == 0 {
        0
    } else {
        row_start((i - 1) as nat, n) + (n - i)
    }
}

/// The place of a pair in the triangle, row by row.
pub open spec fn pair_index(i: int, j: int, n: int) -> int {
    row_start(i as nat, n as nat) + (j - i - 1)
}

/// The pair at a place of the triangle over `n` items; the last pair for a
/// place behind it.
pub fn linear_index_to_pair(idx: usize, n: usize) -> (r: (usize, usize))
    requires
        n >= 2,
    ensures
        r.0 < r.1 < n,
        idx < row_start(n as nat, n as nat) ==> pair_index(r.0 as int, r.1 as int, n as int) == idx,
        idx >= row_start(n as nat, n as nat) ==> r == (
            (n - 2) as usize,
            (n - 1) as usize,
        ),
{
    let mut remaining: usize = idx;
    let mut i: usize = 0;
    while i < n
        invariant
            i <= n,
            n >= 2,
            remaining + row_start(i as nat, n as nat) == idx,
        decreases n - i,
    {
        let row_len: usize = n - 1 - i;
        proof {
            assert(row_start((i + 1) as nat, n as nat) == row_start(i as nat, n as nat) + (n - (i
                + 1)));
        }
        if remaining < row_len {
            proof {
                lemma_row_start_grows((i + 1) as nat, n as nat, n as nat);
            }
            return (i, i + 1 + remaining);
        }
        remaining = remaining - row_len;
        i += 1;
    }
    (n - 2, n - 1)
}

proof fn lemma_row_start_grows(i: nat, k: nat, n: nat)
    requires
        i <= k <= n,
    ensures
        row_start(i, n) <= row_start(k, n),
    decreases k - i,
{
    if i < k {
        lemma_row_start_grows(i, (k - 1) as nat, n);
    }
}

/// Every pair has a place in the triangle, and different pairs have different
/// places.
pub proof fn law_pair_index_bijective(i: int, j: int, k: int, l: int, n: int)
    requires
        0 <= i < j < n,
        0 <= k < l < n,
    ensures
        0 <= pair_index(i, j, n) < row_start(n as nat, n as nat),
        pair_index(i, j, n) == pair_index(k, l, n) ==> i == k && j == l,
{
    lemma_row_start_grows(0, i as nat, n as nat);
    lemma_row_start_grows((i + 1) as nat, n as nat, n as nat);
    if i < k {
        lemma_row_start_grows((i + 1) as nat, k as nat, n as nat);
    } else if k < i {
        lemma_row_start_grows((k + 1) as nat, i as nat, n as nat);
    }
}

/// The number of pairs is that of the familiar formula.
pub proof fn law_pair_count(n: nat)
    requires
        n >= 1,
    ensures
        row_start(n, n) * 2 == n * (n - 1),
{
    lemma_row_start_closed(n, n);
    assert(n * (2 * n - n - 1) == n * (n - 1)) by (nonlinear_arith);
}

proof fn lemma_row_start_closed(i: nat, n: nat)
    requires
        i <= n,
    ensures
        row_start(i, n) * 2 == i * (2 * n - i - 1),
    decreases i,
{
    if i > 0 {
        let k: int = i - 1;
        lemma_row_start_closed(k as nat, n);
        assert(k * (2 * n - k - 1) + 2 * (n - (k + 1)) == (k + 1) * (2 * n - (k + 1) - 1))
            by (nonlinear_arith);
    } else {
        assert(0 * (2 * n - 0 - 1) == 0) by (nonlinear_arith);
    }
}

// ---------------------------------------------------------------------------
// Change since an earlier run
// ---------------------------------------------------------------------------

/// The texts of a list, as a set.
pub open spec fn id_set(v: Seq<String>) -> Set<Seq<char>> {
    text::views(v).to_set()
}

/// The members that two lists share, and those that they hold together.
pub fn member_overlap(a: &Vec<String>, b: &Vec<String>) -> (r: (usize, usize))
    requires
        a@.len() + b@.len() <= usize::MAX,
    ensures
        r.0 == id_set(a@).intersect(id_set(b@)).len(),
        r.1 == id_set(a@).union(id_set(b@)).len(),
{
    let da: Vec<String> = sort_dedup(clone_all(a));
    let db: Vec<String> = sort_dedup(clone_all(b));
    proof {
        lemma_distinct(a@, da@);
        lemma_distinct(b@, db@);
    }
    let mut shared: Vec<String> = Vec::new();
    let ghost all = text::views(da@);
    let ghost other = text::views(db@);
    let mut i: usize = 0;
    while i < da.len()
        invariant
            i <= da@.len(),
            all == text::views(da@),
            other == text::views(db@),
            all.no_duplicates(),
            shared@.len() <= i,
            text::views(shared@).no_duplicates(),
            forall|t: Seq<char>| #[trigger]
                text::views(shared@).contains(t) <==> (all.take(i as int).contains(t)
                    && other.contains(t)),
        decreases da.len() - i,
    {
        let ghost before = text::views(shared@);
        let ghost t = da@[i as int]@;
        assert(all.take(i + 1) =~= all.take(i as int).push(t));
        let there: bool = contains_text(&db, da[i].as_str());
        assert(there == other.contains(t));
        if there {
            shared.push(da[i].clone());
            assert(text::views(shared@) =~= before.push(t));
            assert(!all.take(i as int).contains(t)) by {
                if all.take(i as int).contains(t) {
                    let k = choose|k: int| 0 <= k < i && all.take(i as int)[k] == t;
                    assert(all[k] == all[i as int]);
                }
            }
        }
        proof {
            assert forall|x: Seq<char>| #[trigger]
                text::views(shared@).contains(x) <==> (all.take(i + 1).contains(x)
                    && other.contains(x)) by {
                lemma_push_holds(all.take(i as int), t, x);
                lemma_push_holds(before, t, x);
                assert(before.contains(x) <==> (all.take(i as int).contains(x)
                    && other.contains(x)));
            }
            if there {
                lemma_push_distinct(before, t);
            }
        }
        i += 1;
    }
    proof {
        assert(all.take(i as int) =~= all);
        let sa = id_set(a@);
        let sb = id_set(b@);
        assert forall|x: Seq<char>|
            text::views(shared@).to_set().contains(x) <==> sa.intersect(sb).contains(x) by {
            assert(text::views(shared@).contains(x) <==> (all.contains(x) && other.contains(x)));
            assert(all.to_set().contains(x) <==> all.contains(x));
            assert(other.to_set().contains(x) <==> other.contains(x));
        }
        assert(text::views(shared@).to_set() =~= sa.intersect(sb));
        text::views(shared@).unique_seq_to_set();
        lemma_set_intersect_union_lens(sa, sb);
    }
    (shared.len(), da.len() + db.len() - shared.len())
}

proof fn lemma_push_holds(s: Seq<Seq<char>>, t: Seq<char>, x: Seq<char>)
    ensures
        s.push(t).contains(x) <==> s.contains(x) || x == t,
{
    let p = s.push(t);
    if s.contains(x) {
        let i = choose|i: int| 0 <= i < s.len() && s[i] == x;
        assert(p[i] == x);
    }
    if x == t {
        assert(p[s.len() as int] == x);
    }
    if p.contains(x) {
        let i = choose|i: int| 0 <= i < p.len() && p[i] == x;
        if i < s.len() {
            assert(s[i] == x);
        }
    }
}

proof fn lemma_push_distinct(s: Seq<Seq<char>>, t: Seq<char>)
    requires
        s.no_duplicates(),
        !s.contains(t),
    ensures
        s.push(t).no_duplicates(),
{
    let p = s.push(t);
    assert forall|i: int, j: int| 0 <= i < p.len() && 0 <= j < p.len() && i != j implies p[i]
        != p[j] by {
        if i < s.len() && j < s.len() {
            assert(s[i] != s[j]);
        } else if i < s.len() {
            assert(s.contains(s[i]));
        } else {
            assert(s.contains(s[j]));
        }
    }
}

/// A sorted list without duplicates has the set of the list it was made from.
proof fn lemma_distinct(v: Seq<String>, d: Seq<String>)
    requires
        text::is_sorted_set(text::views(d), text::views(v)),
    ensures
        text::views(d).no_duplicates(),
        text::views(d).to_set() == id_set(v),
        d.len() == id_set(v).len(),
        id_set(v).finite(),
        d.len() <= v.len(),
{
    let dv = text::views(d);
    assert forall|i: int, j: int| 0 <= i < dv.len() && 0 <= j < dv.len() && i != j implies dv[i]
        != dv[j] by {
        text::lemma_text_lt_irreflexive(dv[i]);
        if i < j {
            assert(text::text_lt(dv[i], dv[j]));
        } else {
            assert(text::text_lt(dv[j], dv[i]));
        }
    }
    assert forall|t: Seq<char>| dv.to_set().contains(t) <==> id_set(v).contains(t) by {
        assert(text::holds(dv, t) <==> text::holds(text::views(v), t));
        assert(dv.contains(t) <==> text::holds(dv, t));
        assert(text::views(v).contains(t) <==> text::holds(text::views(v), t));
    }
    assert(dv.to_set() =~= id_set(v));
    dv.unique_seq_to_set();
    text::views(v).lemma_cardinality_of_set();
}

/// Whether a cluster changed enough to be synthesized again: it has no members
/// then and now, its members changed by the share of the settings, or its
/// quality by their difference. The share and the difference come computed.
pub fn should_resynthesize(
    union_size: usize,
    change_pct: Score,
    quality_change: Score,
    config: &IncrementalConfig,
) -> (r: bool)
    ensures
        r == (union_size == 0 || change_pct.reaches(config.staleness_member_change_pct)
            || quality_change.reaches(config.staleness_quality_delta)),
{
    if union_size == 0 {
        return true;
    }
    if change_pct.ge(&config.staleness_member_change_pct) {
        return true;
    }
    quality_change.ge(&config.staleness_quality_delta)
}

/// Whether the members of a cluster are others than when it was last looked at.
/// A cluster that was never looked at counts as changed.
pub open spec fn changed_since(members: Seq<String>, state: Option<IncrementalState>) -> bool {
    match state {
        Some(s) => s.last_attempt_members@.len() == 0 || id_set(members) != id_set(
            s.last_attempt_members@,
        ),
        None => true,
    }
}

/// Whether the members of a cluster changed since it was last looked at.
pub fn cluster_changed(members: &Vec<String>, state: &Option<IncrementalState>) -> (r: bool)
    ensures
        r == changed_since(members@, *state),
{
    match state {
        Some(s) => {
            if s.last_attempt_members.len() == 0 {
                true
            } else {
                !same_members(members, &s.last_attempt_members)
            }
        },
        None => true,
    }
}

/// Whether two lists hold the same members.
fn same_members(a: &Vec<String>, b: &Vec<String>) -> (r: bool)
    ensures
        r == (id_set(a@) == id_set(b@)),
{
    let ab: bool = all_in(a, b);
    let ba: bool = all_in(b, a);
    proof {
        if ab && ba {
            assert(id_set(a@) =~= id_set(b@));
        }
    }
    ab && ba
}

fn all_in(a: &Vec<String>, b: &Vec<String>) -> (r: bool)
    ensures
        r == (forall|t: Seq<char>| id_set(a@).contains(t) ==> id_set(b@).contains(t)),
{
    let ghost av = text::views(a@);
    let ghost bv = text::views(b@);
    let mut i: usize = 0;
    while i < a.len()
        invariant
            i <= a@.len(),
            av == text::views(a@),
            bv == text::views(b@),
            forall|k: int| 0 <= k < i ==> bv.contains(#[trigger] av[k]),
        decreases a.len() - i,
    {
        if !contains_text(b, a[i].as_str()) {
            assert(av.contains(av[i as int]));
            assert(!bv.contains(av[i as int]));
            assert(id_set(a@).contains(av[i as int]));
            return false;
        }
        assert(bv.contains(av[i as int]));
        i += 1;
    }
    true
}

/// What is remembered of a cluster once it was looked at.
pub open spec fn attempt_recorded(
    r: IncrementalState,
    before: Option<IncrementalState>,
    cluster: MemoryCluster,
    now: Timestamp,
) -> bool {
    &&& r.last_attempt_timestamp == now
    &&& text::is_sorted_set(text::views(r.last_attempt_members@), text::views(cluster.members@))
    &&& match before {
        Some(s) => {
            &&& r.last_member_snapshot@ == s.last_member_snapshot@
            &&& r.last_quality_score == s.last_quality_score
            &&& r.last_run == s.last_run
            &&& r.run_count == s.run_count
            &&& r.attempt_count == s.attempt_count + 1
        },
        None => {
            &&& r.last_member_snapshot@.len() == 0
            &&& r.last_quality_score == cluster.quality_score
            &&& r.last_run == now
            &&& r.run_count == 0
            &&& r.attempt_count == 1
        },
    }
}

/// Records that a cluster was looked at, whatever came of it.
pub fn record_attempt(
    before: &Option<IncrementalState>,
    cluster: &MemoryCluster,
    now: Timestamp,
) -> (r: IncrementalState)
    requires
        *before matches Some(s) ==> s.attempt_count < usize::MAX,
    ensures
        attempt_recorded(r, *before, *cluster, now),
{
    match before {
        Some(s) => IncrementalState {
            last_member_snapshot: clone_all(&s.last_member_snapshot),
            last_quality_score: s.last_quality_score,
            last_run: s.last_run,
            run_count: s.run_count,
            last_attempt_timestamp: now,
            attempt_count: s.attempt_count + 1,
            last_attempt_members: sort_dedup(clone_all(&cluster.members)),
        },
        None => IncrementalState {
            last_member_snapshot: Vec::new(),
            last_quality_score: cluster.quality_score,
            last_run: now,
            run_count: 0,
            last_attempt_timestamp: now,
            attempt_count: 1,
            last_attempt_members: sort_dedup(clone_all(&cluster.members)),
        },
    }
}

/// What is remembered of a cluster once it was synthesized.
pub open spec fn synthesis_recorded(
    r: IncrementalState,
    before: Option<IncrementalState>,
    latest: Option<IncrementalState>,
    cluster: MemoryCluster,
    now: Timestamp,
) -> bool {
    &&& text::is_sorted_set(text::views(r.last_member_snapshot@), text::views(cluster.members@))
    &&& text::is_sorted_set(text::views(r.last_attempt_members@), text::views(cluster.members@))
    &&& r.last_quality_score == cluster.quality_score
    &&& r.last_run == now
    &&& r.run_count == match before {
        Some(s) => s.run_count + 1,
        None => 1,
    }
    &&& r.last_attempt_timestamp == match latest {
        Some(s) => s.last_attempt_timestamp,
        None => now,
    }
    &&& r.attempt_count == match latest {
        Some(s) => s.attempt_count,
        None => 1,
    }
}

/// Records that a cluster was synthesized. The attempt was recorded before, and
/// what was recorded of it is kept.
pub fn record_synthesis(
    before: &Option<IncrementalState>,
    latest: &Option<IncrementalState>,
    cluster: &MemoryCluster,
    now: Timestamp,
) -> (r: IncrementalState)
    requires
        *before matches Some(s) ==> s.run_count < usize::MAX,
    ensures
        synthesis_recorded(r, *before, *latest, *cluster, now),
{
    let run_count: usize = match before {
        Some(s) => s.run_count + 1,
        None => 1,
    };
    let (attempt_time, attempt_count) = match latest {
        Some(s) => (s.last_attempt_timestamp, s.attempt_count),
        None => (now, 1usize),
    };
    IncrementalState {
        last_member_snapshot: sort_dedup(clone_all(&cluster.members)),
        last_quality_score: cluster.quality_score,
        last_run: now,
        run_count,
        last_attempt_timestamp: attempt_time,
        attempt_count,
        last_attempt_members: sort_dedup(clone_all(&cluster.members)),
    }
}

/// A cluster that was looked at is unchanged until its members change, and is
/// then changed.
pub proof fn law_attempt_is_remembered(
    state: IncrementalState,
    before: Option<IncrementalState>,
    cluster: MemoryCluster,
    now: Timestamp,
    members: Seq<String>,
)
    requires
        attempt_recorded(state, before, cluster, now),
        cluster.members@.len() > 0,
    ensures
        changed_since(members, Some(state)) <==> id_set(members) != id_set(cluster.members@),
{
    let all = text::views(cluster.members@);
    let kept = text::views(state.last_attempt_members@);
    assert(all.contains(all[0]));
    assert(text::holds(all, all[0]));
    assert(id_set(state.last_attempt_members@) =~= id_set(cluster.members@)) by {
        assert forall|t: Seq<char>| kept.contains(t) <==> all.contains(t) by {
            assert(text::holds(kept, t) <==> text::holds(all, t));
        }
    }
}

// ---------------------------------------------------------------------------
// Which clusters
// ---------------------------------------------------------------------------

/// Where the clusters of a run come from.
#[derive(Clone, Copy, Debug, PartialEq, Eq, Structural)]
pub enum Strategy {
    /// Everything is clustered anew.
    Cold,
    /// Dirty clusters and pending memories are clustered anew.
    Warm,
    /// The stored clusters are used, where there are any.
    Cached,
}

/// Chooses where the clusters of a run come from: anew where there are no
/// memories or too large a share is pending, in part where anything is pending
/// or dirty, and stored otherwise.
pub fn choose_strategy(
    total_count: usize,
    pending_count: usize,
    dirty_count: usize,
    over_ratio: bool,
) -> (r: Strategy)
    ensures
        r is Cold <==> total_count == 0 || over_ratio,
        r is Warm <==> total_count != 0 && !over_ratio && (pending_count > 0 || dirty_count > 0),
        r is Cached <==> total_count != 0 && !over_ratio && pending_count == 0 && dirty_count == 0,
{
    if total_count == 0 || over_ratio {
        Strategy::Cold
    } else if pending_count > 0 || dirty_count > 0 {
        Strategy::Warm
    } else {
        Strategy::Cached
    }
}

/// What a run does to get its clusters.
#[derive(Clone, Copy, Debug, PartialEq, Eq, Structural)]
pub enum ClusterSource {
    /// It discovers them among all memories, and stores them for later runs.
    DiscoverAndStore,
    /// It discovers them among all memories.
    Discover,
    /// It clusters dirty clusters and pending memories anew, and takes what is
    /// stored then.
    ReclusterDirty,
    /// It takes what is stored.
    Stored,
}

/// Settles how a run gets its clusters, once it is known how many are stored:
/// where they were to be taken and there are none, they are discovered.
pub fn settle_source(chosen: Strategy, stored_clusters: usize) -> (r: ClusterSource)
    ensures
        r == match chosen {
            Strategy::Cold => ClusterSource::DiscoverAndStore,
            Strategy::Warm => ClusterSource::ReclusterDirty,
            Strategy::Cached => if stored_clusters == 0 {
                ClusterSource::Discover
            } else {
                ClusterSource::Stored
            },
        },
{
    match chosen {
        Strategy::Cold => ClusterSource::DiscoverAndStore,
        Strategy::Warm => ClusterSource::ReclusterDirty,
        Strategy::Cached => if stored_clusters == 0 {
            ClusterSource::Discover
        } else {
            ClusterSource::Stored
        },
    }
}

/// The memory with an id, the last one where there are several.
pub open spec fn record_of(memories: Seq<MemoryRecord>, id: Seq<char>) -> Option<MemoryRecord>
    decreases memories.len(),
{
    if memories.len() == 0 {
        None
    } else if memories.last().id@ == id {
        Some(memories.last())
    } else {
        record_of(memories.drop_last(), id)
    }
}

/// The memories with the given ids, in their order, those that are there.
pub open spec fn resolved(memories: Seq<MemoryRecord>, ids: Seq<Seq<char>>) -> Seq<MemoryRecord>
    decreases ids.len(),
{
    if ids.len() == 0 {
        Seq::empty()
    } else {
        let rest = resolved(memories, ids.drop_last());
        match record_of(memories, ids.last()) {
            Some(m) => rest.push(m),
            None => rest,
        }
    }
}

/// A copy of a memory.
pub fn copy_record(m: &MemoryRecord) -> (r: MemoryRecord)
    ensures
        r == *m,
{
    let metadata: Option<String> = match &m.metadata {
        Some(t) => Some(t.clone()),
        None => None,
    };
    MemoryRecord {
        id: m.id.clone(),
        content: m.content.clone(),
        memory_type: m.memory_type,
        importance: m.importance,
        access_count: m.access_count,
        metadata,
    }
}

fn find_record(memories: &Vec<MemoryRecord>, id: &str) -> (r: Option<usize>)
    ensures
        match r {
            Some(i) => i < memories@.len() && record_of(memories@, id@) == Some(memories@[i as int]),
            None => record_of(memories@, id@) is None,
        },
{
    let mut i: usize = memories.len();
    assert(memories@.take(i as int) =~= memories@);
    while i > 0
        invariant
            i <= memories@.len(),
            record_of(memories@, id@) == record_of(memories@.take(i as int), id@),
        decreases i,
    {
        i -= 1;
        assert(memories@.take(i + 1).drop_last() =~= memories@.take(i as int));
        if same(memories[i].id.as_str(), id) {
            return Some(i);
        }
    }
    None
}

/// The memories of a cluster.
pub fn resolve_members(memories: &Vec<MemoryRecord>, ids: &Vec<String>) -> (r: Vec<MemoryRecord>)
    ensures
        r@ == resolved(memories@, text::views(ids@)),
{
    let ghost all = text::views(ids@);
    let mut out: Vec<MemoryRecord> = Vec::new();
    let mut i: usize = 0;
    while i < ids.len()
        invariant
            i <= ids@.len(),
            all == text::views(ids@),
            out@ == resolved(memories@, all.take(i as int)),
        decreases ids.len() - i,
    {
        assert(all.take(i + 1).drop_last() =~= all.take(i as int));
        match find_record(memories, ids[i].as_str()) {
            Some(k) => out.push(copy_record(&memories[k])),
            None => {},
        }
        i += 1;
    }
    assert(all.take(i as int) =~= all);
    out
}

// ---------------------------------------------------------------------------
// The run
// ---------------------------------------------------------------------------

/// A run in progress: what it reports so far, and what is left of its budgets.
#[derive(Debug)]
pub struct SynthesisRun {
    /// The report so far.
    pub report: SynthesisReport,
    /// Calls of the language model that are left.
    pub llm_calls_remaining: u32,
    /// Insights that are left.
    pub insights_remaining: usize,
}

/// The model of a [`SynthesisRun`].
pub struct RunView {
    /// Clusters found.
    pub found: nat,
    /// Clusters synthesized.
    pub synthesized: nat,
    /// Clusters dealt with without a language model.
    pub auto_updated: nat,
    /// Clusters left for later.
    pub deferred: nat,
    /// Clusters left alone.
    pub skipped: nat,
    /// Syntheses of clusters seen for the first time.
    pub full: nat,
    /// Syntheses of clusters seen before.
    pub incremental: nat,
    /// The insights created.
    pub insights: Seq<Seq<char>>,
    /// The sources demoted.
    pub demoted: Seq<Seq<char>>,
    /// What went wrong.
    pub errors: Seq<ErrorView>,
    /// Calls of the language model that are left.
    pub calls_left: nat,
    /// Insights that are left.
    pub insights_left: nat,
    /// The synthesis gate results of the clusters that came to it.
    pub gates: Seq<GateResult>,
}

/// The models of a list of errors.
pub open spec fn error_views(v: Seq<SynthesisError>) -> Seq<ErrorView> {
    v.map_values(|e: SynthesisError| e@)
}

impl View for SynthesisRun {
    type V = RunView;

    open spec fn view(&self) -> RunView {
        RunView {
            found: self.report.clusters_found as nat,
            synthesized: self.report.clusters_synthesized as nat,
            auto_updated: self.report.clusters_auto_updated as nat,
            deferred: self.report.clusters_deferred as nat,
            skipped: self.report.clusters_skipped as nat,
            full: self.report.synthesis_runs_full as nat,
            incremental: self.report.synthesis_runs_incremental as nat,
            insights: text::views(self.report.insights_created@),
            demoted: text::views(self.report.sources_demoted@),
            errors: error_views(self.report.errors@),
            calls_left: self.llm_calls_remaining as nat,
            insights_left: self.insights_remaining as nat,
            gates: self.report.gate_results@,
        }
    }
}

/// What the run asks for next.
#[derive(Clone, Copy, Debug, PartialEq, Eq, Structural)]
pub enum Step {
    /// Nothing: the cluster is dealt with.
    Done,
    /// An insight from the language model.
    Generate,
    /// An update without it.
    AutoUpdate,
}

/// What came of asking for an insight.
#[derive(Debug)]
pub enum Outcome {
    /// The language model did not answer.
    Unreachable,
    /// It answered, and the answer was refused.
    Rejected(SynthesisError),
    /// The insight was not stored.
    StoreFailed(String),
    /// The insight was stored.
    Stored {
        /// Its id.
        insight_id: String,
        /// The sources that were demoted.
        demoted: Vec<String>,
    },
}

/// The model of an [`Outcome`].
pub enum OutcomeView {
    /// The language model did not answer.
    Unreachable,
    /// It answered, and the answer was refused.
    Rejected(ErrorView),
    /// The insight was not stored.
    StoreFailed(Seq<char>),
    /// The insight was stored: its id, and the sources that were demoted.
    Stored(Seq<char>, Seq<Seq<char>>),
}

impl View for Outcome {
    type V = OutcomeView;

    open spec fn view(&self) -> OutcomeView {
        match self {
            Outcome::Unreachable => OutcomeView::Unreachable,
            Outcome::Rejected(e) => OutcomeView::Rejected(e@),
            Outcome::StoreFailed(m) => OutcomeView::StoreFailed(m@),
            Outcome::Stored { insight_id, demoted } => {
                OutcomeView::Stored(insight_id@, text::views(demoted@))
            },
        }
    }
}

/// What came of an update without the language model.
#[derive(Debug)]
pub enum AutoOutcome {
    /// Duplicates were merged; these memories were replaced.
    Merged(Vec<String>),
    /// The database refused to merge.
    MergeFailed(String),
    /// Links were strengthened.
    Strengthened,
}

/// The model of an [`AutoOutcome`].
pub enum AutoView {
    /// Duplicates were merged; these memories were replaced.
    Merged(Seq<Seq<char>>),
    /// The database refused to merge.
    MergeFailed(Seq<char>),
    /// Links were strengthened.
    Strengthened,
}

impl View for AutoOutcome {
    type V = AutoView;

    open spec fn view(&self) -> AutoView {
        match self {
            AutoOutcome::Merged(ids) => AutoView::Merged(text::views(ids@)),
            AutoOutcome::MergeFailed(m) => AutoView::MergeFailed(m@),
            AutoOutcome::Strengthened => AutoView::Strengthened,
        }
    }
}

/// One less, and zero from zero.
pub open spec fn one_less(n: nat) -> nat {
    if n == 0 {
        0
    } else {
        (n - 1) as nat
    }
}

impl RunView {
    /// A run over some clusters, before the first of them.
    pub open spec fn start(found: nat, calls: nat, insights: nat) -> RunView {
        RunView {
            found,
            synthesized: 0,
            auto_updated: 0,
            deferred: 0,
            skipped: 0,
            full: 0,
            incremental: 0,
            insights: Seq::empty(),
            demoted: Seq::empty(),
            errors: Seq::empty(),
            calls_left: calls,
            insights_left: insights,
            gates: Seq::empty(),
        }
    }

    /// The clusters that are dealt with.
    pub open spec fn counted(self) -> nat {
        self.synthesized + self.auto_updated + self.deferred + self.skipped
    }

    /// Whether the counters of a run fit together. A cluster comes to the
    /// synthesis gate before it is counted, and there is one such cluster at most.
    pub open spec fn valid(self) -> bool {
        &&& self.counted() <= self.found
        &&& self.gates.len() <= self.counted() + 1
        &&& self.gates.len() <= self.found
        &&& self.full + self.incremental == self.synthesized
        &&& self.insights.len() == self.synthesized
    }

    /// One more synthesis gate result.
    pub open spec fn gated(self, result: GateResult) -> RunView {
        RunView { gates: self.gates.push(result), ..self }
    }

    /// One more cluster that is left alone.
    pub open spec fn skip(self) -> RunView {
        RunView { skipped: self.skipped + 1, ..self }
    }

    /// One more thing that went wrong.
    pub open spec fn failed(self, e: ErrorView) -> RunView {
        RunView { errors: self.errors.push(e), ..self }
    }

    /// One call of the language model less.
    pub open spec fn called(self) -> RunView {
        RunView { calls_left: one_less(self.calls_left), ..self }
    }

    /// What the synthesis gate decision of a cluster leads to.
    pub open spec fn decided(self, d: gate::DecisionView, llm_available: bool) -> (RunView, Step) {
        match d {
            gate::DecisionView::Synthesize(_) => if self.calls_left == 0 {
                (
                    self.failed(ErrorView::BudgetExhausted(self.found - self.counted())).skip(),
                    Step::Done,
                )
            } else if self.insights_left == 0 || !llm_available {
                (self.skip(), Step::Done)
            } else {
                (self, Step::Generate)
            },
            gate::DecisionView::Merge(..) => (self, Step::AutoUpdate),
            gate::DecisionView::Strengthen(_) => (self, Step::AutoUpdate),
            gate::DecisionView::Defer(_) => (
                RunView { deferred: self.deferred + 1, ..self },
                Step::Done,
            ),
            gate::DecisionView::Skip(_) => (self.skip(), Step::Done),
        }
    }

    /// What came of asking for an insight.
    pub open spec fn concluded(
        self,
        cluster_id: Seq<char>,
        seen_before: bool,
        o: OutcomeView,
    ) -> RunView {
        match o {
            OutcomeView::Unreachable => self.called().failed(
                ErrorView::LlmTimeout(cluster_id),
            ).skip(),
            OutcomeView::Rejected(e) => self.called().failed(e).skip(),
            OutcomeView::StoreFailed(m) => self.called().failed(
                ErrorView::StorageError(cluster_id, m),
            ).skip(),
            OutcomeView::Stored(id, demoted) => {
                let c = self.called();
                RunView {
                    synthesized: c.synthesized + 1,
                    full: c.full + if seen_before {
                        0nat
                    } else {
                        1nat
                    },
                    incremental: c.incremental + if seen_before {
                        1nat
                    } else {
                        0nat
                    },
                    insights: c.insights.push(id),
                    demoted: c.demoted + demoted,
                    insights_left: one_less(c.insights_left),
                    ..c
                }
            },
        }
    }

    /// What came of an update without the language model.
    pub open spec fn updated(self, cluster_id: Seq<char>, o: AutoView) -> RunView {
        let after = match o {
            AutoView::Merged(ids) => RunView { demoted: self.demoted + ids, ..self },
            AutoView::MergeFailed(m) => self.failed(
                ErrorView::StorageError(cluster_id, "MergeDuplicates failed: "@ + m),
            ),
            AutoView::Strengthened => self,
        };
        RunView { auto_updated: after.auto_updated + 1, ..after }
    }
}

/// Appends a list of texts to another.
fn extend_texts(v: &mut Vec<String>, more: Vec<String>)
    ensures
        text::views(final(v)@) == text::views(old(v)@) + text::views(more@),
{
    let ghost start = text::views(v@);
    let ghost all = text::views(more@);
    let mut i: usize = 0;
    assert(start + all.take(0) =~= start);
    while i < more.len()
        invariant
            i <= more@.len(),
            start == text::views(old(v)@),
            all == text::views(more@),
            text::views(v@) == start + all.take(i as int),
        decreases more.len() - i,
    {
        let ghost before = text::views(v@);
        v.push(more[i].clone());
        proof {
            assert(text::views(v@) =~= before.push(more@[i as int]@));
            assert(all.take(i + 1) =~= all.take(i as int).push(all[i as int]));
            assert(start + all.take(i + 1) =~= (start + all.take(i as int)).push(all[i as int]));
        }
        i += 1;
    }
    assert(all.take(i as int) =~= all);
}

impl SynthesisRun {
    /// Starts a run over the clusters that were found.
    pub fn new(clusters_found: usize, settings: &SynthesisSettings) -> (r: SynthesisRun)
        ensures
            r@ == RunView::start(
                clusters_found as nat,
                settings.max_llm_calls_per_run as nat,
                settings.max_insights_per_consolidation as nat,
            ),
            r@.valid(),
            r.report.duration == (Period { secs: 0, nanos: 0 }),
    {
        let r: SynthesisRun = SynthesisRun {
            report: SynthesisReport {
                clusters_found,
                clusters_synthesized: 0,
                clusters_auto_updated: 0,
                clusters_deferred: 0,
                clusters_skipped: 0,
                synthesis_runs_full: 0,
                synthesis_runs_incremental: 0,
                insights_created: Vec::new(),
                sources_demoted: Vec::new(),
                errors: Vec::new(),
                duration: Period { secs: 0, nanos: 0 },
                gate_results: Vec::new(),
            },
            llm_calls_remaining: settings.max_llm_calls_per_run,
            insights_remaining: settings.max_insights_per_consolidation,
        };
        assert(r@.insights =~= Seq::empty());
        assert(r@.demoted =~= Seq::empty());
        assert(r@.errors =~= Seq::empty());
        r
    }

    /// A cluster did not change enough since its last synthesis: it is left
    /// alone.
    pub fn skip_unchanged(&mut self)
        requires
            old(self)@.valid(),
            old(self)@.counted() < old(self)@.found,
        ensures
            final(self)@ == old(self)@.skip(),
            final(self)@.valid(),
    {
        self.report.clusters_skipped += 1;
    }

    /// Keeps the synthesis gate result of a cluster that is not counted yet and
    /// has none so far.
    pub fn record_gate(&mut self, result: GateResult)
        requires
            old(self)@.valid(),
            old(self)@.counted() < old(self)@.found,
            old(self)@.gates.len() <= old(self)@.counted(),
        ensures
            final(self)@ == old(self)@.gated(result),
            final(self)@.valid(),
    {
        self.report.gate_results.push(result);
    }

    fn fail(&mut self, e: SynthesisError)
        ensures
            final(self)@ == old(self)@.failed(e@),
    {
        let ghost before = error_views(self.report.errors@);
        let ghost added = e@;
        self.report.errors.push(e);
        assert(error_views(self.report.errors@) =~= before.push(added));
    }

    /// Goes by the synthesis gate decision of a cluster. A cluster that is to be
    /// synthesized is left alone where a budget is used up or there is no
    /// language model.
    pub fn decide(&mut self, decision: &GateDecision, llm_available: bool) -> (r: Step)
        requires
            old(self)@.valid(),
            old(self)@.counted() < old(self)@.found,
        ensures
            (final(self)@, r) == old(self)@.decided(decision@, llm_available),
            final(self)@.valid(),
    {
        match decision {
            GateDecision::Synthesize { .. } => {
                if self.llm_calls_remaining == 0 {
                    let remaining: usize = self.report.clusters_found
                        - self.report.clusters_synthesized - self.report.clusters_skipped
                        - self.report.clusters_deferred - self.report.clusters_auto_updated;
                    self.fail(SynthesisError::BudgetExhausted { remaining_clusters: remaining });
                    self.report.clusters_skipped += 1;
                    Step::Done
                } else if self.insights_remaining == 0 || !llm_available {
                    self.report.clusters_skipped += 1;
                    Step::Done
                } else {
                    Step::Generate
                }
            },
            GateDecision::AutoUpdate { .. } => Step::AutoUpdate,
            GateDecision::Defer { .. } => {
                self.report.clusters_deferred += 1;
                Step::Done
            },
            GateDecision::Skip { .. } => {
                self.report.clusters_skipped += 1;
                Step::Done
            },
        }
    }

    /// Takes in what came of asking for an insight of a cluster.
    pub fn conclude(&mut self, cluster_id: &str, seen_before: bool, outcome: Outcome)
        requires
            old(self)@.valid(),
            old(self)@.counted() < old(self)@.found,
        ensures
            final(self)@ == old(self)@.concluded(cluster_id@, seen_before, outcome@),
            final(self)@.valid(),
    {
        match outcome {
            Outcome::Unreachable => {
                self.count_call();
                self.fail(SynthesisError::LlmTimeout { cluster_id: cluster_id.to_owned() });
                self.report.clusters_skipped += 1;
            },
            Outcome::Rejected(e) => {
                self.count_call();
                self.fail(e);
                self.report.clusters_skipped += 1;
            },
            Outcome::StoreFailed(message) => {
                self.count_call();
                self.fail(
                    SynthesisError::StorageError { cluster_id: cluster_id.to_owned(), message },
                );
                self.report.clusters_skipped += 1;
            },
            Outcome::Stored { insight_id, demoted } => {
                self.count_call();
                let ghost before = text::views(self.report.insights_created@);
                let ghost added = insight_id@;
                self.report.insights_created.push(insight_id);
                assert(text::views(self.report.insights_created@) =~= before.push(added));
                extend_texts(&mut self.report.sources_demoted, demoted);
                self.report.clusters_synthesized += 1;
                if self.insights_remaining > 0 {
                    self.insights_remaining -= 1;
                }
                if seen_before {
                    self.report.synthesis_runs_incremental += 1;
                } else {
                    self.report.synthesis_runs_full += 1;
                }
            },
        }
    }

    fn count_call(&mut self)
        ensures
            final(self)@ == old(self)@.called(),
            final(self).report == old(self).report,
    {
        if self.llm_calls_remaining > 0 {
            self.llm_calls_remaining -= 1;
        }
    }

    /// Takes in what came of an update without the language model.
    pub fn auto_updated(&mut self, cluster_id: &str, outcome: AutoOutcome)
        requires
            old(self)@.valid(),
            old(self)@.counted() < old(self)@.found,
        ensures
            final(self)@ == old(self)@.updated(cluster_id@, outcome@),
            final(self)@.valid(),
    {
        match outcome {
            AutoOutcome::Merged(ids) => {
                extend_texts(&mut self.report.sources_demoted, ids);
            },
            AutoOutcome::MergeFailed(m) => {
                let mut message: String = "MergeDuplicates failed: ".to_owned();
                message.append(m.as_str());
                self.fail(
                    SynthesisError::StorageError { cluster_id: cluster_id.to_owned(), message },
                );
            },
            AutoOutcome::Strengthened => {},
        }
        self.report.clusters_auto_updated += 1;
    }

    /// Ends the run.
    pub fn finish(self, duration: Period) -> (r: SynthesisReport)
        ensures
            r == (SynthesisReport { duration, ..self.report }),
    {
        let mut report: SynthesisReport = self.report;
        report.duration = duration;
        report
    }
}

/// What happens to one cluster of a run.
pub enum ClusterEvent {
    /// It did not change enough.
    Unchanged,
    /// It came to the synthesis gate: the result, whether there is a language
    /// model, whether the cluster was seen before, what came of an insight where
    /// one was asked for, and what came of an update where one was.
    Gated(GateResult, bool, bool, OutcomeView, AutoView),
}

/// What the run asks for at one more cluster.
pub open spec fn step_at(r: RunView, e: ClusterEvent) -> Step {
    match e {
        ClusterEvent::Unchanged => Step::Done,
        ClusterEvent::Gated(result, llm, _, _, _) => r.gated(result).decided(
            result.decision@,
            llm,
        ).1,
    }
}

/// The run after one more cluster.
pub open spec fn after_cluster(r: RunView, id: Seq<char>, e: ClusterEvent) -> RunView {
    match e {
        ClusterEvent::Unchanged => r.skip(),
        ClusterEvent::Gated(result, llm, seen, o, a) => {
            let (next, step) = r.gated(result).decided(result.decision@, llm);
            match step {
                Step::Done => next,
                Step::Generate => next.concluded(id, seen, o),
                Step::AutoUpdate => next.updated(id, a),
            }
        },
    }
}

/// The run after a list of clusters.
pub open spec fn after_clusters(r: RunView, events: Seq<(Seq<char>, ClusterEvent)>) -> RunView
    decreases events.len(),
{
    if events.len() == 0 {
        r
    } else {
        let e = events.last();
        after_cluster(after_clusters(r, events.drop_last()), e.0, e.1)
    }
}

/// How often the run asks the language model over a list of clusters.
pub open spec fn calls_made(r: RunView, events: Seq<(Seq<char>, ClusterEvent)>) -> nat
    decreases events.len(),
{
    if events.len() == 0 {
        0
    } else {
        let before = after_clusters(r, events.drop_last());
        calls_made(r, events.drop_last()) + if step_at(before, events.last().1) is Generate {
            1nat
        } else {
            0nat
        }
    }
}

/// Every call of the language model costs one of those that were left, whatever
/// came of it: an answer, a refused one or none.
pub proof fn law_every_call_is_charged(r: RunView, events: Seq<(Seq<char>, ClusterEvent)>)
    ensures
        calls_made(r, events) + after_clusters(r, events).calls_left == r.calls_left,
    decreases events.len(),
{
    if events.len() > 0 {
        law_every_call_is_charged(r, events.drop_last());
    }
}

/// A run asks the language model at most as often as its settings allow.
pub proof fn law_calls_within_budget(
    found: nat,
    calls: nat,
    insights: nat,
    events: Seq<(Seq<char>, ClusterEvent)>,
)
    ensures
        calls_made(RunView::start(found, calls, insights), events) <= calls,
{
    law_every_call_is_charged(RunView::start(found, calls, insights), events);
}

/// Whatever happens, every cluster of a run is counted once, the counters fit
/// together, and neither budget is overdrawn: each insight costs one of the
/// insights that were left and one of the calls. There are no more synthesis
/// gate results than clusters that are counted.
pub proof fn law_run_accounts(r: RunView, events: Seq<(Seq<char>, ClusterEvent)>)
    requires
        r.valid(),
        r.gates.len() <= r.counted(),
        r.counted() + events.len() <= r.found,
    ensures
        after_clusters(r, events).valid(),
        after_clusters(r, events).gates.len() <= after_clusters(r, events).counted(),
        after_clusters(r, events).found == r.found,
        after_clusters(r, events).counted() == r.counted() + events.len(),
        after_clusters(r, events).insights.len() + after_clusters(r, events).insights_left
            == r.insights.len() + r.insights_left,
        after_clusters(r, events).insights.len() + after_clusters(r, events).calls_left
            <= r.insights.len() + r.calls_left,
    decreases events.len(),
{
    if events.len() > 0 {
        law_run_accounts(r, events.drop_last());
    }
}

/// A run from its start: at the end all clusters are accounted for, there are no
/// more insights than either budget allows, and no more synthesis gate results
/// than clusters found.
pub proof fn law_run_within_budget(
    found: nat,
    calls: nat,
    insights: nat,
    events: Seq<(Seq<char>, ClusterEvent)>,
)
    requires
        events.len() == found,
    ensures
        ({
            let end = after_clusters(RunView::start(found, calls, insights), events);
            &&& end.counted() == found
            &&& end.insights.len() == end.synthesized
            &&& end.synthesized <= calls
            &&& end.synthesized <= insights
            &&& end.gates.len() <= found
        }),
{
    law_run_accounts(RunView::start(found, calls, insights), events);
}

// ---------------------------------------------------------------------------
// Storing an insight
// ---------------------------------------------------------------------------

/// The memory type under which an insight is stored.
pub open spec fn stored_type(t: InsightType) -> Seq<char> {
    match t {
        InsightType::Pattern => "factual"@,
        InsightType::Rule => "factual"@,
        InsightType::Connection => "relational"@,
        InsightType::Contradiction => "causal"@,
    }
}

/// The metadata of an insight. The confidence comes printed as a JSON number.
pub open spec fn insight_metadata(
    cluster_id: Seq<char>,
    o: SynthesisOutput,
    confidence: Seq<char>,
) -> attributes::Entries {
    seq![
        ("confidence"@, confidence),
        ("insight_type"@, json::json_string(o.insight_type.label())),
        ("is_synthesis"@, json::bool_text(true)),
        ("source_cluster"@, json::json_string(cluster_id)),
        ("source_count"@, text::decimal(o.source_references@.len())),
    ]
}

/// The first memory with an id.
pub open spec fn first_with(members: Seq<MemoryRecord>, id: Seq<char>) -> Option<MemoryRecord>
    decreases members.len(),
{
    if members.len() == 0 {
        None
    } else {
        match first_with(members.drop_last(), id) {
            Some(m) => Some(m),
            None => if members.last().id@ == id {
                Some(members.last())
            } else {
                None
            },
        }
    }
}

/// The importance of the first memory with an id.
pub open spec fn importance_of(members: Seq<MemoryRecord>, id: Seq<char>) -> Option<Score> {
    match first_with(members, id) {
        Some(m) => Some(m.importance),
        None => None,
    }
}

fn find_importance(members: &Vec<MemoryRecord>, id: &str) -> (r: Option<Score>)
    ensures
        r == importance_of(members@, id@),
{
    let mut i: usize = 0;
    while i < members.len()
        invariant
            i <= members@.len(),
            first_with(members@.take(i as int), id@) is None,
        decreases members.len() - i,
    {
        assert(members@.take(i + 1).drop_last() =~= members@.take(i as int));
        if same(members[i].id.as_str(), id) {
            proof {
                lemma_first_stays(members@, i + 1, id@);
            }
            return Some(members[i].importance);
        }
        i += 1;
    }
    assert(members@.take(i as int) =~= members@);
    None
}

proof fn lemma_first_stays(members: Seq<MemoryRecord>, n: int, id: Seq<char>)
    requires
        0 <= n <= members.len(),
        first_with(members.take(n), id) is Some,
    ensures
        first_with(members, id) == first_with(members.take(n), id),
    decreases members.len() - n,
{
    if n < members.len() {
        assert(members.take(n + 1).drop_last() =~= members.take(n));
        lemma_first_stays(members, n + 1, id);
    } else {
        assert(members.take(n) =~= members);
    }
}

/// A short id of eight hexadecimal digits, out of the nanoseconds of the present
/// second and the number of the process.
pub fn generate_id(nanos: u32, process: u32) -> (r: String)
    ensures
        r@ == hashing::hex((nanos ^ process) as int, 8),
        r@.len() == 8,
{
    proof {
        reveal_with_fuel(hashing::hex, 9);
    }
    hex_text((nanos ^ process) as u64, 8)
}

/// A source that loses importance.
#[derive(Clone, Debug, PartialEq, Eq)]
pub struct Demotion {
    /// The source.
    pub source_id: String,
    /// The importance it has.
    pub importance: Score,
}

/// What is written for an insight, in one transaction.
#[derive(Debug)]
pub struct InsightPlan {
    /// The id of the insight.
    pub insight_id: String,
    /// Its text.
    pub content: String,
    /// Its memory type.
    pub memory_type: String,
    /// Its metadata, as JSON text.
    pub metadata: String,
    /// A link to each source.
    pub records: Vec<ProvenanceRecord>,
    /// The sources that lose importance.
    pub demotions: Vec<Demotion>,
}

/// Whether a record is the link of an insight to one of its sources.
pub open spec fn links_source(
    r: ProvenanceRecord,
    id: Seq<char>,
    insight_id: Seq<char>,
    source: Seq<char>,
    cluster: MemoryCluster,
    members: Seq<MemoryRecord>,
    output: SynthesisOutput,
    scores: GateScores,
    now: Timestamp,
) -> bool {
    &&& r.id@ == id
    &&& r.insight_id@ == insight_id
    &&& r.source_id@ == source
    &&& r.cluster_id@ == cluster.id@
    &&& r.synthesis_timestamp == now
    &&& r.gate_decision@ == "SYNTHESIZE"@
    &&& r.gate_scores == Some(scores)
    &&& r.confidence == output.confidence
    &&& r.source_original_importance == importance_of(members, source)
}

/// The demotions for a list of sources: those that are members, with the
/// importance that they have.
pub open spec fn demotions_of(members: Seq<MemoryRecord>, sources: Seq<Seq<char>>) -> Seq<
    (Seq<char>, Score),
>
    decreases sources.len(),
{
    if sources.len() == 0 {
        Seq::empty()
    } else {
        let rest = demotions_of(members, sources.drop_last());
        match importance_of(members, sources.last()) {
            Some(importance) => rest.push((sources.last(), importance)),
            None => rest,
        }
    }
}

/// The model of a list of demotions.
pub open spec fn demotion_views(v: Seq<Demotion>) -> Seq<(Seq<char>, Score)> {
    v.map_values(|d: Demotion| (d.source_id@, d.importance))
}

/// Plans what is written for an insight. The ids are made up by the caller: one
/// for the insight, and one for the link to each source.
pub fn store_insight_atomically(
    cluster: &MemoryCluster,
    members: &Vec<MemoryRecord>,
    output: &SynthesisOutput,
    confidence: &str,
    scores: GateScores,
    now: Timestamp,
    insight_id: String,
    record_ids: &Vec<String>,
) -> (r: InsightPlan)
    requires
        record_ids@.len() == output.source_references@.len(),
    ensures
        r.insight_id@ == insight_id@,
        r.content@ == output.insight_text@,
        r.memory_type@ == stored_type(output.insight_type),
        r.metadata@ == json::json_object(insight_metadata(cluster.id@, *output, confidence@)),
        r.records@.len() == output.source_references@.len(),
        forall|i: int|
            0 <= i < r.records@.len() ==> links_source(
                #[trigger] r.records@[i],
                record_ids@[i]@,
                insight_id@,
                output.source_references@[i]@,
                *cluster,
                members@,
                *output,
                scores,
                now,
            ),
        demotion_views(r.demotions@) == demotions_of(
            members@,
            text::views(output.source_references@),
        ),
{
    let memory_type: &str = match output.insight_type {
        InsightType::Pattern => "factual",
        InsightType::Rule => "factual",
        InsightType::Connection => "relational",
        InsightType::Contradiction => "causal",
    };
    let mut v: Vec<(String, String)> = Vec::new();
    v.push(entry("confidence", confidence.to_owned()));
    v.push(entry("insight_type", text_value(output.insight_type.as_label())));
    v.push(entry("is_synthesis", bool_value(true)));
    v.push(entry("source_cluster", text_value(cluster.id.as_str())));
    v.push(entry("source_count", u64_text(output.source_references.len() as u64)));
    assert(json::entries_view(v@) =~= insight_metadata(cluster.id@, *output, confidence@));
    let metadata: String = object_value(&v);

    let ghost sources = text::views(output.source_references@);
    let mut records: Vec<ProvenanceRecord> = Vec::new();
    let mut demotions: Vec<Demotion> = Vec::new();
    assert(demotion_views(demotions@) =~= Seq::empty());
    let n: usize = output.source_references.len();
    let mut i: usize = 0;
    while i < n
        invariant
            i <= n,
            n == output.source_references@.len(),
            n == record_ids@.len(),
            sources == text::views(output.source_references@),
            records@.len() == i,
            forall|k: int|
                0 <= k < i ==> links_source(
                    #[trigger] records@[k],
                    record_ids@[k]@,
                    insight_id@,
                    output.source_references@[k]@,
                    *cluster,
                    members@,
                    *output,
                    scores,
                    now,
                ),
            demotion_views(demotions@) == demotions_of(members@, sources.take(i as int)),
        decreases n - i,
    {
        let source: &String = &output.source_references[i];
        let importance: Option<Score> = find_importance(members, source.as_str());
        records.push(
            ProvenanceRecord {
                id: record_ids[i].clone(),
                insight_id: insight_id.clone(),
                source_id: source.clone(),
                cluster_id: cluster.id.clone(),
                synthesis_timestamp: now,
                gate_decision: "SYNTHESIZE".to_owned(),
                gate_scores: Some(scores),
                confidence: output.confidence,
                source_original_importance: importance,
            },
        );
        assert(sources.take(i + 1).drop_last() =~= sources.take(i as int));
        match importance {
            Some(importance) => {
                let ghost before = demotion_views(demotions@);
                demotions.push(Demotion { source_id: source.clone(), importance });
                assert(demotion_views(demotions@) =~= before.push((source@, importance)));
            },
            None => {},
        }
        i += 1;
    }
    assert(sources.take(i as int) =~= sources);
    InsightPlan {
        insight_id,
        content: output.insight_text.clone(),
        memory_type: memory_type.to_owned(),
        metadata,
        records,
        demotions,
    }
}

/// The greatest importance among memories, and zero where none is greater.
pub open spec fn greatest_importance(members: Seq<MemoryRecord>) -> Score
    decreases members.len(),
{
    if members.len() == 0 {
        Score { bits: score::ZERO }
    } else {
        let rest = greatest_importance(members.drop_last());
        if rest.below(members.last().importance) {
            members.last().importance
        } else {
            rest
        }
    }
}

/// The importance that the kept memory of a merge is given.
pub fn max_importance(members: &Vec<MemoryRecord>) -> (r: Score)
    ensures
        r == greatest_importance(members@),
{
    let mut best: Score = Score { bits: score::ZERO };
    let mut i: usize = 0;
    while i < members.len()
        invariant
            i <= members@.len(),
            best == greatest_importance(members@.take(i as int)),
        decreases members.len() - i,
    {
        assert(members@.take(i + 1).drop_last() =~= members@.take(i as int));
        if best.lt(&members[i].importance) {
            best = members[i].importance;
        }
        i += 1;
    }
    assert(members@.take(i as int) =~= members@);
    best
}

/// No memory is above the importance that the kept one is given.
pub proof fn law_merge_keeps_greatest(members: Seq<MemoryRecord>, i: int)
    requires
        0 <= i < members.len(),
    ensures
        !greatest_importance(members).nan(),
        !greatest_importance(members).below(members[i].importance),
    decreases members.len(),
{
    lemma_greatest_number(members);
    lemma_greatest_number(members.drop_last());
    if i < members.len() - 1 {
        law_merge_keeps_greatest(members.drop_last(), i);
    }
}

proof fn lemma_greatest_number(members: Seq<MemoryRecord>)
    ensures
        !greatest_importance(members).nan(),
    decreases members.len(),
{
    if members.len() > 0 {
        lemma_greatest_number(members.drop_last());
    }
}

// ---------------------------------------------------------------------------
// What a run is for
// ---------------------------------------------------------------------------

/// A cluster counts as changed where no attempt at it is known, or where a memory
/// is in it and was not, or was and is not.
pub proof fn law_changed_where_members_differ(
    members: Seq<String>,
    state: Option<IncrementalState>,
)
    ensures
        changed_since(members, state) <==> {
            ||| state is None
            ||| (state->0).last_attempt_members@.len() == 0
            ||| exists|t: Seq<char>|
                text::views(members).contains(t) != #[trigger] text::views(
                    (state->0).last_attempt_members@,
                ).contains(t)
        },
{
    if state is Some {
        let a = text::views(members);
        let b = text::views((state->0).last_attempt_members@);
        if a.to_set() != b.to_set() {
            assert(!(a.to_set() =~= b.to_set()));
            let t = choose|t: Seq<char>| a.to_set().contains(t) != b.to_set().contains(t);
            assert(a.contains(t) != b.contains(t));
        }
        if exists|t: Seq<char>| a.contains(t) != #[trigger] b.contains(t) {
            let t = choose|t: Seq<char>| a.contains(t) != #[trigger] b.contains(t);
            assert(a.to_set().contains(t) != b.to_set().contains(t));
        }
    }
}

/// An attempt counts one more attempt, remembers the members and the time, and
/// leaves what is known of the last synthesis as it was.
pub proof fn law_attempt_leaves_synthesis_alone(
    r: IncrementalState,
    before: IncrementalState,
    cluster: MemoryCluster,
    now: Timestamp,
    t: Seq<char>,
)
    requires
        attempt_recorded(r, Some(before), cluster, now),
    ensures
        r.attempt_count == before.attempt_count + 1,
        r.last_attempt_timestamp == now,
        text::views(r.last_attempt_members@).contains(t) <==> text::views(
            cluster.members@,
        ).contains(t),
        r.run_count == before.run_count,
        r.last_run == before.last_run,
        r.last_quality_score == before.last_quality_score,
        r.last_member_snapshot@ == before.last_member_snapshot@,
{
    lemma_set_contains(text::views(r.last_attempt_members@), text::views(cluster.members@), t);
}

/// A synthesis counts one more run, remembers the members, the quality and the
/// time, and leaves what is known of the attempts as it was.
pub proof fn law_synthesis_leaves_attempts_alone(
    r: IncrementalState,
    before: IncrementalState,
    latest: IncrementalState,
    cluster: MemoryCluster,
    now: Timestamp,
    t: Seq<char>,
)
    requires
        synthesis_recorded(r, Some(before), Some(latest), cluster, now),
    ensures
        r.run_count == before.run_count + 1,
        r.last_run == now,
        r.last_quality_score == cluster.quality_score,
        text::views(r.last_member_snapshot@).contains(t) <==> text::views(
            cluster.members@,
        ).contains(t),
        r.attempt_count == latest.attempt_count,
        r.last_attempt_timestamp == latest.last_attempt_timestamp,
{
    lemma_set_contains(text::views(r.last_member_snapshot@), text::views(cluster.members@), t);
}

proof fn lemma_set_contains(r: Seq<Seq<char>>, v: Seq<Seq<char>>, t: Seq<char>)
    requires
        text::is_sorted_set(r, v),
    ensures
        r.contains(t) <==> v.contains(t),
{
    assert(text::holds(r, t) <==> text::holds(v, t));
    assert(text::holds(r, t) <==> r.contains(t));
    assert(text::holds(v, t) <==> v.contains(t));
}

/// The record of an id is the last memory with that id, and there is one where
/// any memory has it.
pub proof fn law_record_has_the_id(memories: Seq<MemoryRecord>, id: Seq<char>, i: int)
    ensures
        0 <= i < memories.len() && memories[i].id@ == id && (forall|k: int|
            i < k < memories.len() ==> (#[trigger] memories[k]).id@ != id) ==> record_of(
            memories,
            id,
        ) == Some(memories[i]),
        record_of(memories, id) is None <==> forall|k: int|
            0 <= k < memories.len() ==> (#[trigger] memories[k]).id@ != id,
        record_of(memories, id) matches Some(m) ==> m.id@ == id && memories.contains(m),
    decreases memories.len(),
{
    if memories.len() > 0 {
        let d = memories.drop_last();
        let n = memories.len() - 1;
        law_record_has_the_id(d, id, i);
        assert(forall|k: int| 0 <= k < d.len() ==> #[trigger] d[k] == memories[k]);
        assert(memories[n] == memories.last());
        if memories.last().id@ != id {
            if record_of(d, id) is Some {
                let k = choose|k: int| 0 <= k < d.len() && (#[trigger] d[k]).id@ == id;
                assert(memories[k].id@ == id);
                let m = record_of(d, id)->0;
                let j = choose|j: int| 0 <= j < d.len() && d[j] == m;
                assert(memories[j] == m);
            } else {
                assert forall|k: int| 0 <= k < memories.len() implies (
                #[trigger] memories[k]).id@ != id by {
                    if k < n {
                        assert(d[k].id@ != id);
                    }
                }
            }
            if 0 <= i < n {
                assert(d[i] == memories[i]);
                if forall|k: int| i < k < memories.len() ==> (#[trigger] memories[k]).id@ != id {
                    assert forall|k: int| i < k < d.len() implies (#[trigger] d[k]).id@ != id by {
                        assert(d[k] == memories[k]);
                    }
                }
            }
        }
    }
}

/// The members of a cluster are resolved one by one and in order: the ids without
/// a memory are left out, and every other one gives the memory with that id.
pub proof fn law_members_are_resolved_in_order(memories: Seq<MemoryRecord>, ids: Seq<Seq<char>>)
    ensures
        resolved(memories, ids).map_values(|m: MemoryRecord| m.id@) == ids.filter(
            |id: Seq<char>|
                exists|k: int| 0 <= k < memories.len() && (#[trigger] memories[k]).id@ == id,
        ),
        forall|i: int|
            0 <= i < resolved(memories, ids).len() ==> memories.contains(
                #[trigger] resolved(memories, ids)[i],
            ),
    decreases ids.len(),
{
    reveal(Seq::filter);
    let name = |m: MemoryRecord| m.id@;
    if ids.len() == 0 {
        assert(resolved(memories, ids).map_values(name) =~= Seq::empty());
    } else {
        let d = ids.drop_last();
        let rest = resolved(memories, d);
        let all = resolved(memories, ids);
        law_members_are_resolved_in_order(memories, d);
        law_record_has_the_id(memories, ids.last(), 0);
        match record_of(memories, ids.last()) {
            Some(m) => {
                assert(all.map_values(name) =~= rest.map_values(name).push(ids.last()));
                let k = choose|k: int| 0 <= k < memories.len() && memories[k] == m;
                assert(memories[k].id@ == ids.last());
            },
            None => {},
        }
        assert forall|i: int| 0 <= i < all.len() implies memories.contains(
            #[trigger] all[i],
        ) by {
            if i < rest.len() {
                assert(all[i] == rest[i]);
            }
        }
    }
}

/// A decision is carried out: what is skipped or deferred is counted as that and
/// nothing else; a merge is left to be done; and a synthesis is begun where there
/// is a call and an insight left and a language model to ask, and otherwise
/// skipped, with an error where it is the calls that are used up.
pub proof fn law_decisions_are_carried_out(
    r: RunView,
    d: gate::DecisionView,
    llm_available: bool,
)
    ensures
        ({
            let (next, step) = r.decided(d, llm_available);
            &&& step is Generate <==> d is Synthesize && r.calls_left > 0 && r.insights_left > 0
                && llm_available
            &&& step is AutoUpdate <==> d is Merge || d is Strengthen
            &&& d is Defer ==> next == (RunView { deferred: r.deferred + 1, ..r })
            &&& d is Skip ==> next == (RunView { skipped: r.skipped + 1, ..r })
            &&& d is Synthesize && step is Done && r.calls_left > 0 ==> next == (RunView {
                skipped: r.skipped + 1,
                ..r
            })
            &&& d is Synthesize && r.calls_left == 0 ==> next == (RunView {
                skipped: r.skipped + 1,
                errors: r.errors.push(
                    ErrorView::BudgetExhausted(
                        r.found - r.synthesized - r.auto_updated - r.deferred - r.skipped,
                    ),
                ),
                ..r
            })
            &&& !(step is Done) ==> next == r
        }),
{
}

/// What comes of asking the language model is reported: an insight that is
/// stored is counted once, as the first of its cluster or as a later one, with
/// its id and the memories that it demoted; anything else is an error of that
/// cluster, and the cluster counts as skipped. Either way one call is used up.
pub proof fn law_outcomes_are_reported(
    r: RunView,
    cluster_id: Seq<char>,
    seen_before: bool,
    o: OutcomeView,
)
    requires
        r.calls_left > 0,
        r.insights_left > 0,
    ensures
        ({
            let next = r.concluded(cluster_id, seen_before, o);
            &&& next.calls_left == r.calls_left - 1
            &&& next.found == r.found && next.auto_updated == r.auto_updated && next.deferred
                == r.deferred && next.gates == r.gates
            &&& match o {
                OutcomeView::Stored(id, demoted) => {
                    &&& next.synthesized == r.synthesized + 1
                    &&& next.skipped == r.skipped
                    &&& next.full == (if seen_before {
                        r.full
                    } else {
                        r.full + 1
                    })
                    &&& next.incremental == (if seen_before {
                        r.incremental + 1
                    } else {
                        r.incremental
                    })
                    &&& next.insights == r.insights.push(id)
                    &&& next.demoted == r.demoted + demoted
                    &&& next.insights_left == r.insights_left - 1
                    &&& next.errors == r.errors
                },
                _ => {
                    &&& next.skipped == r.skipped + 1
                    &&& next.synthesized == r.synthesized && next.full == r.full
                        && next.incremental == r.incremental
                    &&& next.insights == r.insights && next.demoted == r.demoted
                    &&& next.insights_left == r.insights_left
                    &&& next.errors == r.errors.push(
                        match o {
                            OutcomeView::Rejected(e) => e,
                            OutcomeView::StoreFailed(m) => ErrorView::StorageError(cluster_id, m),
                            _ => ErrorView::LlmTimeout(cluster_id),
                        },
                    )
                },
            }
        }),
{
}

/// A cluster that is merged or strengthened is counted as updated once, with the
/// memories that it demoted, or with an error where the merge failed; nothing
/// else changes.
pub proof fn law_updates_are_reported(r: RunView, cluster_id: Seq<char>, o: AutoView)
    ensures
        ({
            let next = r.updated(cluster_id, o);
            &&& next.auto_updated == r.auto_updated + 1
            &&& next.synthesized == r.synthesized && next.skipped == r.skipped && next.deferred
                == r.deferred && next.found == r.found && next.full == r.full
                && next.incremental == r.incremental
            &&& next.insights == r.insights && next.calls_left == r.calls_left
                && next.insights_left == r.insights_left && next.gates == r.gates
            &&& match o {
                AutoView::Merged(ids) => next.demoted == r.demoted + ids && next.errors
                    == r.errors,
                AutoView::MergeFailed(m) => next.demoted == r.demoted && next.errors
                    == r.errors.push(
                    ErrorView::StorageError(cluster_id, "MergeDuplicates failed: "@ + m),
                ),
                AutoView::Strengthened => next.demoted == r.demoted && next.errors == r.errors,
            }
        }),
{
}

/// A run starts with what the settings allow, and with nothing done.
pub proof fn law_runs_start_empty(found: nat, calls: nat, insights: nat)
    ensures
        RunView::start(found, calls, insights).counted() == 0,
        RunView::start(found, calls, insights).found == found,
        RunView::start(found, calls, insights).calls_left == calls,
        RunView::start(found, calls, insights).insights_left == insights,
        RunView::start(found, calls, insights).insights.len() == 0,
        RunView::start(found, calls, insights).demoted.len() == 0,
        RunView::start(found, calls, insights).errors.len() == 0,
{
}

/// The importance of a source is that of the first member with its id; a source
/// that is no member has none.
pub proof fn law_importance_is_the_members(members: Seq<MemoryRecord>, id: Seq<char>, i: int)
    ensures
        0 <= i < members.len() && members[i].id@ == id && (forall|k: int|
            0 <= k < i ==> (#[trigger] members[k]).id@ != id) ==> importance_of(members, id)
            == Some(members[i].importance),
        importance_of(members, id) is None <==> forall|k: int|
            0 <= k < members.len() ==> (#[trigger] members[k]).id@ != id,
    decreases members.len(),
{
    if members.len() > 0 {
        let d = members.drop_last();
        let n = members.len() - 1;
        law_importance_is_the_members(d, id, i);
        assert(forall|k: int| 0 <= k < d.len() ==> #[trigger] d[k] == members[k]);
        assert(members[n] == members.last());
        if importance_of(d, id) is Some {
            let k = choose|k: int| 0 <= k < d.len() && (#[trigger] d[k]).id@ == id;
            assert(members[k].id@ == id);
        } else if members.last().id@ != id {
            assert forall|k: int| 0 <= k < members.len() implies (#[trigger] members[k]).id@
                != id by {
                if k < n {
                    assert(d[k].id@ != id);
                }
            }
        }
        if 0 <= i < members.len() && members[i].id@ == id && (forall|k: int|
            0 <= k < i ==> (#[trigger] members[k]).id@ != id) {
            assert forall|k: int| 0 <= k < i && k < d.len() implies (#[trigger] d[k]).id@ != id by {
                assert(d[k] == members[k]);
            }
            if i < n {
                assert(d[i] == members[i]);
            }
        }
    }
}

/// Every source that is a member is demoted, in order, from the importance that
/// it has; no other source is.
pub proof fn law_every_source_is_demoted(members: Seq<MemoryRecord>, sources: Seq<Seq<char>>)
    ensures
        demotions_of(members, sources).map_values(|d: (Seq<char>, Score)| d.0) == sources.filter(
            |id: Seq<char>|
                exists|k: int| 0 <= k < members.len() && (#[trigger] members[k]).id@ == id,
        ),
        forall|i: int|
            0 <= i < demotions_of(members, sources).len() ==> Some(
                (#[trigger] demotions_of(members, sources)[i]).1,
            ) == importance_of(members, demotions_of(members, sources)[i].0),
    decreases sources.len(),
{
    reveal(Seq::filter);
    let name = |d: (Seq<char>, Score)| d.0;
    if sources.len() == 0 {
        assert(demotions_of(members, sources).map_values(name) =~= Seq::empty());
    } else {
        let rest = demotions_of(members, sources.drop_last());
        let all = demotions_of(members, sources);
        law_every_source_is_demoted(members, sources.drop_last());
        law_importance_is_the_members(members, sources.last(), 0);
        match importance_of(members, sources.last()) {
            Some(_) => {
                assert(all.map_values(name) =~= rest.map_values(name).push(sources.last()));
            },
            None => {},
        }
        assert forall|i: int| 0 <= i < all.len() implies Some((#[trigger] all[i]).1)
            == importance_of(members, all[i].0) by {
            if i < rest.len() {
                assert(all[i] == rest[i]);
            }
        }
    }
}

/// Patterns and rules are stored as facts, connections as relations and
/// contradictions as causes.
pub proof fn law_insights_are_stored_by_type(t: InsightType)
    ensures
        stored_type(t) == if t is Connection {
            crate::substrate::types::MemoryType::Relational.name()
        } else if t is Contradiction {
            crate::substrate::types::MemoryType::Causal.name()
        } else {
            crate::substrate::types::MemoryType::Factual.name()
        },
{
}

/// The metadata of an insight mark it as one, so that it takes no part in
/// discovery, and tell its cluster, its type, its confidence and the number of
/// its sources.
pub proof fn law_insight_metadata_mark_it(
    m: MemoryRecord,
    cluster_id: Seq<char>,
    o: SynthesisOutput,
    confidence: Seq<char>,
    config: crate::synthesis::types::ClusterDiscoveryConfig,
)
    ensures
        json::lookup(insight_metadata(cluster_id, o, confidence), "is_synthesis"@) == Some("true"@),
        json::lookup(insight_metadata(cluster_id, o, confidence), "source_cluster"@) == Some(
            json::json_string(cluster_id),
        ),
        json::lookup(insight_metadata(cluster_id, o, confidence), "insight_type"@) == Some(
            json::json_string(o.insight_type.label()),
        ),
        json::lookup(insight_metadata(cluster_id, o, confidence), "confidence"@) == Some(
            confidence,
        ),
        json::lookup(insight_metadata(cluster_id, o, confidence), "source_count"@) == Some(
            text::decimal(o.source_references@.len()),
        ),
        json::json_level("true"@) == Some(json::JsonView::Bool(true)) && (text::opt_view(
            m.metadata,
        ) matches Some(t) && json::json_level(t) == Some(
            json::JsonView::Object(insight_metadata(cluster_id, o, confidence)),
        )) ==> crate::synthesis::cluster::candidates(seq![m], config, true).len() == 0,
{
    reveal_strlit("confidence");
    reveal_strlit("insight_type");
    reveal_strlit("is_synthesis");
    reveal_strlit("source_cluster");
    reveal_strlit("source_count");
    assert("confidence"@.len() == 10);
    assert("insight_type"@.len() == 12 && "insight_type"@[1] == 'n');
    assert("is_synthesis"@.len() == 12 && "is_synthesis"@[1] == 's');
    assert("source_cluster"@.len() == 14);
    assert("source_count"@.len() == 12 && "source_count"@[1] == 'o');
    let e = insight_metadata(cluster_id, o, confidence);
    assert(e.drop_last() =~= e.take(4));
    assert(e.take(4).drop_last() =~= e.take(3));
    assert(e.take(3).drop_last() =~= e.take(2));
    assert(e.take(2).drop_last() =~= e.take(1));
    reveal_with_fuel(json::lookup, 6);
    assert(seq![m].drop_last() =~= Seq::<MemoryRecord>::empty());
    reveal_with_fuel(crate::synthesis::cluster::participants, 2);
}

/// The greatest importance of some memories is that of one of them, unless none
/// is above zero.
pub proof fn law_greatest_importance_is_a_members(members: Seq<MemoryRecord>)
    ensures
        greatest_importance(members) == (Score { bits: 0 }) || exists|i: int|
            0 <= i < members.len() && (#[trigger] members[i]).importance == greatest_importance(
                members,
            ),
    decreases members.len(),
{
    if members.len() > 0 {
        let d = members.drop_last();
        law_greatest_importance_is_a_members(d);
        if greatest_importance(d).below(members.last().importance) {
            assert(members[members.len() - 1].importance == greatest_importance(members));
        } else if greatest_importance(d) != (Score { bits: 0 }) {
            let i = choose|i: int|
                0 <= i < d.len() && (#[trigger] d[i]).importance == greatest_importance(d);
            assert(members[i] == d[i]);
        }
    }
}

/// What the synthesis gate decided on a cluster stays with the run, behind the
/// decisions before it, whatever comes of the cluster.
pub proof fn law_gate_results_are_kept(r: RunView, id: Seq<char>, e: ClusterEvent)
    ensures
        match e {
            ClusterEvent::Unchanged => after_cluster(r, id, e).gates == r.gates,
            ClusterEvent::Gated(result, _, _, _, _) => after_cluster(r, id, e).gates
                == r.gates.push(result),
        },
{
}

/// A provenance record links the insight to its source, under the cluster and the
/// scores that it came from, with the importance that the source had.
pub proof fn law_records_link_insight_and_source(
    r: ProvenanceRecord,
    id: Seq<char>,
    insight_id: Seq<char>,
    source: Seq<char>,
    cluster: MemoryCluster,
    members: Seq<MemoryRecord>,
    output: SynthesisOutput,
    scores: GateScores,
    now: Timestamp,
    i: int,
)
    requires
        links_source(r, id, insight_id, source, cluster, members, output, scores, now),
    ensures
        r.id@ == id,
        r.insight_id@ == insight_id,
        r.source_id@ == source,
        r.cluster_id@ == cluster.id@,
        r.synthesis_timestamp == now,
        r.gate_decision@ == "SYNTHESIZE"@,
        r.gate_scores == Some(scores),
        r.confidence == output.confidence,
        0 <= i < members.len() && members[i].id@ == source && (forall|k: int|
            0 <= k < i ==> (#[trigger] members[k]).id@ != source)
            ==> r.source_original_importance == Some(members[i].importance),
        (forall|k: int| 0 <= k < members.len() ==> (#[trigger] members[k]).id@ != source)
            ==> r.source_original_importance is None,
{
    lemma_first_with(members, source, i);
}

proof fn lemma_first_with(members: Seq<MemoryRecord>, id: Seq<char>, i: int)
    ensures
        0 <= i < members.len() && members[i].id@ == id && (forall|k: int|
            0 <= k < i ==> (#[trigger] members[k]).id@ != id) ==> first_with(members, id) == Some(
            members[i],
        ),
        (forall|k: int| 0 <= k < members.len() ==> (#[trigger] members[k]).id@ != id)
            ==> first_with(members, id) is None,
    decreases members.len(),
{
    if members.len() > 0 {
        let d = members.drop_last();
        lemma_first_with(d, id, i);
        assert(forall|k: int| 0 <= k < d.len() ==> #[trigger] d[k] == members[k]);
        assert(members.last() == members[members.len() - 1]);
        if i == members.len() - 1 && (forall|k: int|
            0 <= k < i ==> (#[trigger] members[k]).id@ != id) {
            assert forall|k: int| 0 <= k < d.len() implies (#[trigger] d[k]).id@ != id by {
                assert(d[k] == members[k]);
            }
        }
        if forall|k: int| 0 <= k < members.len() ==> (#[trigger] members[k]).id@ != id {
            assert forall|k: int| 0 <= k < d.len() implies (#[trigger] d[k]).id@ != id by {
                assert(d[k] == members[k]);
            }
        }
        if 0 <= i < d.len() && (forall|k: int| 0 <= k < i ==> (#[trigger] members[k]).id@ != id) {
            assert forall|k: int| 0 <= k < i implies (#[trigger] d[k]).id@ != id by {
                assert(d[k] == members[k]);
            }
        }
    }
}

/// The first attempt at a cluster starts its record, without a synthesis; the
/// first synthesis is its first run.
pub proof fn law_first_attempt_starts_the_record(
    r: IncrementalState,
    s: IncrementalState,
    cluster: MemoryCluster,
    now: Timestamp,
    t: Seq<char>,
)
    requires
        attempt_recorded(r, None, cluster, now),
        synthesis_recorded(s, None, None, cluster, now),
    ensures
        r.attempt_count == 1 && r.run_count == 0,
        r.last_attempt_timestamp == now && r.last_run == now,
        r.last_member_snapshot@.len() == 0,
        r.last_quality_score == cluster.quality_score,
        s.attempt_count == 1 && s.run_count == 1,
        s.last_attempt_timestamp == now && s.last_run == now,
        s.last_quality_score == cluster.quality_score,
        text::views(s.last_member_snapshot@).contains(t) <==> text::views(
            cluster.members@,
        ).contains(t),
{
    lemma_set_contains(text::views(s.last_member_snapshot@), text::views(cluster.members@), t);
}

} // verus!
