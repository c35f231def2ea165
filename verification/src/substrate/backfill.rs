//! The backfill drivers, which project the legacy tables into `nodes` and
//! `edges`.
//!
//! A driver reads its legacy rows, asks the database about each, inserts with
//! `INSERT OR IGNORE`, and closes with an audit row. Here stand its decisions:
//! what a legacy row is projected to, under which id, what became of it, and
//! what the audit row says.

use crate::json;
use crate::json::{bool_value, canonical, entry, object_value, optional_value, strings_value, text_value};
use crate::substrate::attributes;
use crate::substrate::attributes::{merge_attributes_existing_wins, project_attributes};
use crate::substrate::identity;
use crate::substrate::identity::{
    backfill_hebbian_links_to_edges_hash_input, memory_entity_hash_input, role_to_kind_predicate,
    uuid_from_hash, EdgeShape,
};
use crate::text;
use crate::text::{contains_text, i64_text, same, sort_dedup, u64_text};
use vstd::prelude::*;
use vstd::string::*;

verus! {

/// The counters of one backfill run, as the audit table keeps them.
#[derive(Debug, Clone)]
pub struct BackfillRun {
    /// The id of the run.
    pub run_id: String,
    /// The legacy table that was read.
    pub legacy_table: String,
    /// Legacy rows looked at.
    pub rows_read: u64,
    /// Rows newly inserted into the unified table.
    pub rows_inserted: u64,
    /// Rows left alone.
    pub rows_skipped_existing: u64,
    /// Rows that could not be translated.
    pub rows_failed: u64,
}

impl BackfillRun {
    /// Whether every row read went into exactly one of the three buckets.
    pub open spec fn balanced(self) -> bool {
        self.rows_read == self.rows_inserted + self.rows_skipped_existing + self.rows_failed
    }

    /// The sum of the buckets, which is the number of rows read.
    pub fn assert_counter_invariant(&self) -> (sum: u64)
        requires
            self.balanced(),
        ensures
            sum == self.rows_read,
    {
        self.rows_inserted + self.rows_skipped_existing + self.rows_failed
    }
}

/// What became of a legacy row.
#[derive(Debug, Clone, Copy, PartialEq, Eq, Structural)]
pub enum RowOutcome {
    /// Its unified row was inserted.
    Inserted,
    /// Its unified row was there already.
    Existing,
    /// A node that it refers to is missing.
    Dangling,
    /// Its id is taken by a row of another kind.
    Mismatched,
}

/// The buckets of a run.
#[derive(Debug, Clone, Copy, PartialEq, Eq, Structural)]
pub struct Tally {
    /// Rows inserted.
    pub inserted: u64,
    /// Rows that were there already.
    pub existing: u64,
    /// Rows that refer to a missing node.
    pub dangling: u64,
    /// Rows whose id is taken by a row of another kind.
    pub mismatched: u64,
}

impl Tally {
    /// The rows counted so far.
    pub open spec fn total(self) -> int {
        self.inserted + self.existing + self.dangling + self.mismatched
    }

    /// The rows counted so far that were not inserted.
    pub open spec fn skipped(self) -> int {
        self.existing + self.dangling + self.mismatched
    }

    /// The tally after `rows` more rows of one outcome.
    pub open spec fn plus(self, outcome: RowOutcome, rows: u64) -> Tally {
        match outcome {
            RowOutcome::Inserted => Tally { inserted: (self.inserted + rows) as u64, ..self },
            RowOutcome::Existing => Tally { existing: (self.existing + rows) as u64, ..self },
            RowOutcome::Dangling => Tally { dangling: (self.dangling + rows) as u64, ..self },
            RowOutcome::Mismatched => Tally {
                mismatched: (self.mismatched + rows) as u64,
                ..self
            },
        }
    }

    /// No rows yet.
    pub open spec fn zero() -> Tally {
        Tally { inserted: 0, existing: 0, dangling: 0, mismatched: 0 }
    }

    /// No rows yet.
    pub fn new() -> (r: Tally)
        ensures
            r == Tally::zero(),
    {
        Tally { inserted: 0, existing: 0, dangling: 0, mismatched: 0 }
    }

    /// Counts `rows` legacy rows that met one outcome.
    pub fn record(&mut self, outcome: RowOutcome, rows: u64)
        requires
            old(self).total() + rows <= u64::MAX,
        ensures
            *final(self) == old(self).plus(outcome, rows),
            final(self).total() == old(self).total() + rows,
    {
        match outcome {
            RowOutcome::Inserted => {
                self.inserted = self.inserted + rows;
            },
            RowOutcome::Existing => {
                self.existing = self.existing + rows;
            },
            RowOutcome::Dangling => {
                self.dangling = self.dangling + rows;
            },
            RowOutcome::Mismatched => {
                self.mismatched = self.mismatched + rows;
            },
        }
    }

    /// The audit counters of a run with this tally: every row that was not
    /// inserted counts as skipped.
    pub fn close(&self, run_id: String, legacy_table: &str) -> (run: BackfillRun)
        requires
            self.total() <= u64::MAX,
        ensures
            run.run_id@ == run_id@,
            run.legacy_table@ == legacy_table@,
            run.rows_read == self.total(),
            run.rows_inserted == self.inserted,
            run.rows_skipped_existing == self.skipped(),
            run.rows_failed == 0,
            run.balanced(),
    {
        let skipped: u64 = self.existing + self.dangling + self.mismatched;
        BackfillRun {
            run_id,
            legacy_table: legacy_table.to_owned(),
            rows_read: self.inserted + skipped,
            rows_inserted: self.inserted,
            rows_skipped_existing: skipped,
            rows_failed: 0,
        }
    }
}

/// The model of what stands under an edge id.
pub open spec fn shape_view(found: Option<(String, String)>) -> Option<EdgeShape> {
    match found {
        Some(f) => Some((f.0@, f.1@)),
        None => None,
    }
}

/// The outcome of an attempted insert: inserted, or refused because of the row
/// that stood under the id.
pub open spec fn insert_outcome(
    inserted: bool,
    found: Option<EdgeShape>,
    wanted: EdgeShape,
) -> RowOutcome {
    if inserted {
        RowOutcome::Inserted
    } else {
        match found {
            Some(shape) => if shape == wanted {
                RowOutcome::Existing
            } else {
                RowOutcome::Mismatched
            },
            None => RowOutcome::Existing,
        }
    }
}

/// Tells what became of a legacy row from the answer to its insert and from the
/// kind and predicate that stood under its id before.
pub fn outcome_of_insert(
    inserted: bool,
    found: &Option<(String, String)>,
    edge_kind: &str,
    predicate: &str,
) -> (r: RowOutcome)
    ensures
        r == insert_outcome(inserted, shape_view(*found), (edge_kind@, predicate@)),
{
    if inserted {
        RowOutcome::Inserted
    } else {
        match found {
            Some(f) => {
                if same(f.0.as_str(), edge_kind) && same(f.1.as_str(), predicate) {
                    RowOutcome::Existing
                } else {
                    RowOutcome::Mismatched
                }
            },
            None => RowOutcome::Existing,
        }
    }
}

// ---------------------------------------------------------------------------
// Runs over a table with unique ids
// ---------------------------------------------------------------------------

/// What became of the legacy rows behind one attempted insert.
pub type Counted = (RowOutcome, u64);

/// The rows behind a list of outcomes.
pub open spec fn weight(outcomes: Seq<Counted>) -> int
    decreases outcomes.len(),
{
    if outcomes.len() == 0 {
        0
    } else {
        weight(outcomes.drop_last()) + outcomes.last().1
    }
}

/// The tally of a list of outcomes.
pub open spec fn tally_of(outcomes: Seq<Counted>) -> Tally
    decreases outcomes.len(),
{
    if outcomes.len() == 0 {
        Tally::zero()
    } else {
        tally_of(outcomes.drop_last()).plus(outcomes.last().0, outcomes.last().1)
    }
}

/// A projected row, as a table with unique ids sees it.
pub struct PlanView {
    /// The id under which it is inserted.
    pub id: Seq<char>,
    /// The nodes that it refers to.
    pub needs: Set<Seq<char>>,
    /// Its kind and predicate.
    pub shape: EdgeShape,
    /// The legacy rows behind it.
    pub rows: u64,
}

/// What a run of `plans` does to a table, where an insert is ignored if its id
/// is taken and skipped if a node is missing: the table after the run, and the
/// outcome of each plan.
pub open spec fn table_run(
    plans: Seq<PlanView>,
    nodes: Set<Seq<char>>,
    table: Map<Seq<char>, EdgeShape>,
) -> (Map<Seq<char>, EdgeShape>, Seq<Counted>)
    decreases plans.len(),
{
    if plans.len() == 0 {
        (table, Seq::empty())
    } else {
        let before = table_run(plans.drop_last(), nodes, table);
        let p = plans.last();
        let fresh = !before.0.contains_key(p.id);
        let found = if fresh {
            None
        } else {
            Some(before.0[p.id])
        };
        if !p.needs.subset_of(nodes) {
            (before.0, before.1.push((RowOutcome::Dangling, p.rows)))
        } else if fresh {
            (before.0.insert(p.id, p.shape), before.1.push((RowOutcome::Inserted, p.rows)))
        } else {
            (before.0, before.1.push((insert_outcome(false, found, p.shape), p.rows)))
        }
    }
}

/// A run keeps every row of the table, and leaves every plan whose nodes are
/// there with a row under its id.
pub proof fn law_run_keeps_and_completes(
    plans: Seq<PlanView>,
    nodes: Set<Seq<char>>,
    table: Map<Seq<char>, EdgeShape>,
)
    ensures
        table.submap_of(table_run(plans, nodes, table).0),
        forall|i: int|
            0 <= i < plans.len() && (#[trigger] plans[i]).needs.subset_of(nodes) ==> table_run(
                plans,
                nodes,
                table,
            ).0.contains_key(plans[i].id),
    decreases plans.len(),
{
    if plans.len() > 0 {
        let d = plans.drop_last();
        law_run_keeps_and_completes(d, nodes, table);
        let after = table_run(plans, nodes, table).0;
        assert forall|i: int|
            0 <= i < plans.len() && (#[trigger] plans[i]).needs.subset_of(
                nodes,
            ) implies after.contains_key(plans[i].id) by {
            if i < d.len() {
                assert(d[i] == plans[i]);
            }
        }
    }
}

proof fn lemma_complete_table_stays(
    plans: Seq<PlanView>,
    nodes: Set<Seq<char>>,
    table: Map<Seq<char>, EdgeShape>,
)
    requires
        forall|i: int|
            0 <= i < plans.len() && (#[trigger] plans[i]).needs.subset_of(nodes)
                ==> table.contains_key(plans[i].id),
    ensures
        table_run(plans, nodes, table).0 == table,
        table_run(plans, nodes, table).1.len() == plans.len(),
        tally_of(table_run(plans, nodes, table).1).inserted == 0,
    decreases plans.len(),
{
    if plans.len() > 0 {
        let d = plans.drop_last();
        assert forall|i: int|
            0 <= i < d.len() && (#[trigger] d[i]).needs.subset_of(
                nodes,
            ) implies table.contains_key(d[i].id) by {
            assert(d[i] == plans[i]);
        }
        lemma_complete_table_stays(d, nodes, table);
        assert(plans.last() == plans[plans.len() - 1]);
        let out = table_run(plans, nodes, table).1;
        assert(out.drop_last() == table_run(d, nodes, table).1);
    }
}

proof fn lemma_run_weight(
    plans: Seq<PlanView>,
    nodes: Set<Seq<char>>,
    table: Map<Seq<char>, EdgeShape>,
    other: Map<Seq<char>, EdgeShape>,
)
    ensures
        table_run(plans, nodes, table).1.len() == plans.len(),
        weight(table_run(plans, nodes, table).1) == weight(table_run(plans, nodes, other).1),
    decreases plans.len(),
{
    if plans.len() > 0 {
        let d = plans.drop_last();
        lemma_run_weight(d, nodes, table, other);
        lemma_run_weight(d, nodes, other, table);
        assert(table_run(plans, nodes, table).1.drop_last() == table_run(d, nodes, table).1);
        assert(table_run(plans, nodes, other).1.drop_last() == table_run(d, nodes, other).1);
    }
}

/// Running a driver a second time inserts nothing, leaves the table as it is,
/// and looks at as many legacy rows as the first time.
pub proof fn law_rerun_inserts_nothing(
    plans: Seq<PlanView>,
    nodes: Set<Seq<char>>,
    table: Map<Seq<char>, EdgeShape>,
)
    ensures
        ({
            let first = table_run(plans, nodes, table);
            let second = table_run(plans, nodes, first.0);
            &&& second.0 == first.0
            &&& tally_of(second.1).inserted == 0
            &&& weight(second.1) == weight(first.1)
        }),
{
    law_run_keeps_and_completes(plans, nodes, table);
    let first = table_run(plans, nodes, table);
    lemma_complete_table_stays(plans, nodes, first.0);
    lemma_run_weight(plans, nodes, table, first.0);
}

proof fn lemma_tally(outcomes: Seq<Counted>)
    requires
        weight(outcomes) <= u64::MAX,
    ensures
        tally_of(outcomes).total() == weight(outcomes),
        weight(outcomes) >= 0,
    decreases outcomes.len(),
{
    if outcomes.len() > 0 {
        lemma_weight_prefix(outcomes, outcomes.len() - 1);
        assert(outcomes.take(outcomes.len() - 1) == outcomes.drop_last());
        lemma_tally(outcomes.drop_last());
    }
}

proof fn lemma_weight_prefix(outcomes: Seq<Counted>, n: int)
    requires
        0 <= n <= outcomes.len(),
    ensures
        0 <= weight(outcomes.take(n)) <= weight(outcomes),
    decreases outcomes.len() - n, n,
{
    if n == outcomes.len() {
        assert(outcomes.take(n) == outcomes);
        if n > 0 {
            lemma_weight_nonnegative(outcomes);
        }
    } else {
        lemma_weight_prefix(outcomes, n + 1);
        assert(outcomes.take(n + 1).drop_last() == outcomes.take(n));
        lemma_weight_nonnegative(outcomes.take(n));
    }
}

proof fn lemma_weight_nonnegative(outcomes: Seq<Counted>)
    ensures
        weight(outcomes) >= 0,
    decreases outcomes.len(),
{
    if outcomes.len() > 0 {
        lemma_weight_nonnegative(outcomes.drop_last());
    }
}

/// Where every attempt stands for one row, there are as many rows as attempts.
proof fn lemma_unit_weight(outcomes: Seq<Counted>)
    requires
        forall|i: int| 0 <= i < outcomes.len() ==> (#[trigger] outcomes[i]).1 == 1,
    ensures
        weight(outcomes) == outcomes.len(),
    decreases outcomes.len(),
{
    if outcomes.len() > 0 {
        let d = outcomes.drop_last();
        assert forall|i: int| 0 <= i < d.len() implies (#[trigger] d[i]).1 == 1 by {
            assert(d[i] == outcomes[i]);
        }
        lemma_unit_weight(d);
        assert(outcomes.last() == outcomes[outcomes.len() - 1]);
    }
}

/// Tallies a list of outcomes.
pub fn tally_outcomes(outcomes: &Vec<Counted>) -> (r: Tally)
    requires
        weight(outcomes@) <= u64::MAX,
    ensures
        r == tally_of(outcomes@),
        r.total() == weight(outcomes@),
{
    let mut t: Tally = Tally::new();
    let mut i: usize = 0;
    assert(outcomes@.take(0) == Seq::<Counted>::empty());
    while i < outcomes.len()
        invariant
            i <= outcomes@.len(),
            weight(outcomes@) <= u64::MAX,
            t == tally_of(outcomes@.take(i as int)),
            t.total() == weight(outcomes@.take(i as int)),
        decreases outcomes.len() - i,
    {
        proof {
            let next = outcomes@.take(i + 1);
            lemma_weight_prefix(outcomes@, i + 1);
            assert(next.drop_last() == outcomes@.take(i as int));
            assert(next.last() == outcomes@[i as int]);
        }
        t.record(outcomes[i].0, outcomes[i].1);
        i += 1;
    }
    assert(outcomes@.take(outcomes@.len() as int) == outcomes@);
    t
}

// ---------------------------------------------------------------------------
// Audit notes
// ---------------------------------------------------------------------------

/// The drivers, each over one of the older tables.
#[derive(Debug, Clone, Copy, PartialEq, Eq, Structural)]
pub enum Driver {
    /// The one over `memories`.
    Memories,
    /// The one over `memory_embeddings`.
    Embeddings,
    /// The one over `entities`.
    Entities,
    /// The one over `entity_relations`.
    Relations,
    /// The one over `memory_entities`.
    Mentions,
    /// The one over `hebbian_links`.
    Coactivation,
    /// The one over `synthesis_provenance`.
    Provenance,
}

impl Driver {
    /// What the driver is called in the audit notes.
    pub open spec fn name(self) -> Seq<char> {
        match self {
            Driver::Memories => "backfill_memories_to_nodes"@,
            Driver::Embeddings => "backfill_embeddings_to_node_embeddings"@,
            Driver::Entities => "backfill_entities_to_nodes"@,
            Driver::Relations => "backfill_entity_relations_to_edges"@,
            Driver::Mentions => "backfill_memory_entities_to_edges"@,
            Driver::Coactivation => "backfill_hebbian_links_to_edges"@,
            Driver::Provenance => "backfill_synthesis_provenance_to_edges"@,
        }
    }

    /// Under which mark the audit notes file its field mapping.
    pub open spec fn mark(self) -> Seq<char> {
        match self {
            Driver::Memories => "v04-unified-substrate §5.3"@,
            Driver::Embeddings => "v04-unified-substrate §5.3 / T20"@,
            Driver::Entities => "v04-unified-substrate §5.3 / T21"@,
            Driver::Relations => "v04-unified-substrate §5.3 / T22"@,
            Driver::Mentions => "v04-unified-substrate §3.3 + §5.3 / T23"@,
            Driver::Coactivation => "v04-unified-substrate §3.3 + §4.3 + §5.3 / T24"@,
            Driver::Provenance => "v04-unified-substrate §5.3 / T25"@,
        }
    }

    /// What the driver is called in the audit notes.
    pub fn as_str(&self) -> (r: &'static str)
        ensures
            r@ == self.name(),
    {
        match self {
            Driver::Memories => "backfill_memories_to_nodes",
            Driver::Embeddings => "backfill_embeddings_to_node_embeddings",
            Driver::Entities => "backfill_entities_to_nodes",
            Driver::Relations => "backfill_entity_relations_to_edges",
            Driver::Mentions => "backfill_memory_entities_to_edges",
            Driver::Coactivation => "backfill_hebbian_links_to_edges",
            Driver::Provenance => "backfill_synthesis_provenance_to_edges",
        }
    }

    /// Under which mark the audit notes file its field mapping.
    pub fn design_ref(&self) -> (r: &'static str)
        ensures
            r@ == self.mark(),
    {
        match self {
            Driver::Memories => "v04-unified-substrate §5.3",
            Driver::Embeddings => "v04-unified-substrate §5.3 / T20",
            Driver::Entities => "v04-unified-substrate §5.3 / T21",
            Driver::Relations => "v04-unified-substrate §5.3 / T22",
            Driver::Mentions => "v04-unified-substrate §3.3 + §5.3 / T23",
            Driver::Coactivation => "v04-unified-substrate §3.3 + §4.3 + §5.3 / T24",
            Driver::Provenance => "v04-unified-substrate §5.3 / T25",
        }
    }
}

/// The entries that every audit note of a run has: the namespace that it is
/// restricted to, and the driver.
pub open spec fn label_entries(namespace: Option<Seq<char>>, d: Driver) -> attributes::Entries {
    seq![
        ("namespace_filter"@, json::optional_text(namespace)),
        ("driver"@, json::json_string(d.name())),
        ("design_ref"@, json::json_string(d.mark())),
    ]
}

fn label_vec(namespace: &Option<String>, d: Driver) -> (r: Vec<(String, String)>)
    ensures
        json::entries_view(r@) == label_entries(text::opt_view(*namespace), d),
{
    let mut v: Vec<(String, String)> = Vec::new();
    v.push(entry("namespace_filter", optional_value(namespace)));
    v.push(entry("driver", text_value(d.as_str())));
    v.push(entry("design_ref", text_value(d.design_ref())));
    assert(json::entries_view(v@) =~= label_entries(text::opt_view(*namespace), d));
    v
}

/// The audit notes with which a run opens.
pub fn opening_notes(namespace: &Option<String>, d: Driver) -> (r: String)
    ensures
        r@ == json::json_object(label_entries(text::opt_view(*namespace), d)),
{
    let v: Vec<(String, String)> = label_vec(namespace, d);
    object_value(&v)
}

/// A closed run: its counters, and its audit notes.
#[derive(Debug)]
pub struct ClosedRun {
    /// The audit counters.
    pub run: BackfillRun,
    /// The audit notes, as JSON text.
    pub notes: String,
}

impl ClosedRun {
    /// Whether this closes a run over `outcomes` with the given extra notes.
    pub open spec fn closes(
        self,
        run_id: Seq<char>,
        table: Seq<char>,
        tally: Tally,
        notes: attributes::Entries,
    ) -> bool {
        &&& self.run.run_id@ == run_id
        &&& self.run.legacy_table@ == table
        &&& self.run.rows_read == tally.total()
        &&& self.run.rows_inserted == tally.inserted
        &&& self.run.rows_skipped_existing == tally.skipped()
        &&& self.run.rows_failed == 0
        &&& self.run.balanced()
        &&& self.notes@ == json::json_object(notes)
    }
}

// ---------------------------------------------------------------------------
// memories into nodes
// ---------------------------------------------------------------------------

/// The outcomes of plain inserts, one row each.
pub open spec fn plain_outcomes(inserted: Seq<bool>) -> Seq<Counted> {
    inserted.map_values(
        |b: bool|
            (
                if b {
                    RowOutcome::Inserted
                } else {
                    RowOutcome::Existing
                },
                1u64,
            ),
    )
}

/// Closes a run over `memories`: every row was inserted, or its node was there.
pub fn backfill_memories_to_nodes(run_id: String, inserted: &Vec<bool>) -> (run: BackfillRun)
    ensures
        run.run_id@ == run_id@,
        run.legacy_table@ == "memories"@,
        run.rows_read == inserted@.len(),
        run.rows_inserted == tally_of(plain_outcomes(inserted@)).inserted,
        run.rows_skipped_existing == inserted@.len() - run.rows_inserted,
        run.rows_failed == 0,
        run.balanced(),
{
    let mut outcomes: Vec<Counted> = Vec::new();
    let mut i: usize = 0;
    while i < inserted.len()
        invariant
            i <= inserted@.len(),
            outcomes@ == plain_outcomes(inserted@).take(i as int),
        decreases inserted.len() - i,
    {
        if inserted[i] {
            outcomes.push((RowOutcome::Inserted, 1));
        } else {
            outcomes.push((RowOutcome::Existing, 1));
        }
        assert(plain_outcomes(inserted@).take(i + 1) == plain_outcomes(inserted@).take(
            i as int,
        ).push(plain_outcomes(inserted@)[i as int]));
        i += 1;
    }
    proof {
        assert(plain_outcomes(inserted@).take(inserted@.len() as int) == plain_outcomes(inserted@));
        lemma_unit_weight(outcomes@);
    }
    let t: Tally = tally_outcomes(&outcomes);
    t.close(run_id, "memories")
}

// ---------------------------------------------------------------------------
// memory_embeddings into node_embeddings
// ---------------------------------------------------------------------------

/// The instant that an RFC 3339 text names, in seconds since the Unix epoch and
/// nanoseconds, or nothing where it names none.
pub uninterp spec fn rfc3339_instant(text: Seq<char>) -> Option<(i64, u32)>;

/// `chrono::DateTime::parse_from_rfc3339`, with `timestamp` and
/// `timestamp_subsec_nanos` of what it reads; nothing where it refuses the text.
#[verifier::external_body]
fn parse_instant(text: &str) -> (r: Option<(i64, u32)>)
    ensures
        r == rfc3339_instant(text@),
{
    let parsed = chrono::DateTime::parse_from_rfc3339(text).ok();
    parsed.map(|d| (d.timestamp(), d.timestamp_subsec_nanos()))
}

/// The instant of a legacy row whose time is kept as RFC 3339 text; nothing
/// where the text names none, and the row gets the time of the run.
pub fn legacy_instant(text: &str) -> (r: Option<(i64, u32)>)
    ensures
        r == rfc3339_instant(text@),
{
    parse_instant(text)
}

/// What the database said about one embedding row.
#[derive(Debug, Clone, Copy, PartialEq, Eq, Structural)]
pub struct EmbeddingAnswer {
    /// Whether the node of the memory is there.
    pub node_exists: bool,
    /// Whether the time of the row could be read; read only where the node is
    /// there.
    pub time_read: bool,
    /// Whether the row was inserted.
    pub inserted: bool,
}

/// The outcome of an embedding row: without its node it is left for a later run.
pub open spec fn embedding_outcome(a: EmbeddingAnswer) -> RowOutcome {
    if !a.node_exists {
        RowOutcome::Dangling
    } else if a.inserted {
        RowOutcome::Inserted
    } else {
        RowOutcome::Existing
    }
}

/// The outcomes of embedding rows.
pub open spec fn embedding_outcomes(answers: Seq<EmbeddingAnswer>) -> Seq<Counted> {
    answers.map_values(|a: EmbeddingAnswer| (embedding_outcome(a), 1u64))
}

/// The rows whose node is there and whose time could not be read.
pub open spec fn unread_times(answers: Seq<EmbeddingAnswer>) -> nat
    decreases answers.len(),
{
    if answers.len() == 0 {
        0
    } else {
        unread_times(answers.drop_last()) + (if answers.last().node_exists
            && !answers.last().time_read {
            1nat
        } else {
            0nat
        })
    }
}

/// The audit notes of a run over `memory_embeddings`.
pub open spec fn embedding_notes(
    namespace: Option<Seq<char>>,
    answers: Seq<EmbeddingAnswer>,
) -> attributes::Entries {
    label_entries(namespace, Driver::Embeddings) + seq![
        (
            "rows_skipped_missing_node"@,
            text::decimal(tally_of(embedding_outcomes(answers)).dangling as nat),
        ),
        ("rows_failed_parse_used_now"@, text::decimal(unread_times(answers))),
    ]
}

/// Closes a run over `memory_embeddings`.
pub fn backfill_embeddings_to_node_embeddings(
    namespace: &Option<String>,
    run_id: String,
    answers: &Vec<EmbeddingAnswer>,
) -> (r: ClosedRun)
    ensures
        r.closes(
            run_id@,
            "memory_embeddings"@,
            tally_of(embedding_outcomes(answers@)),
            embedding_notes(text::opt_view(*namespace), answers@),
        ),
        r.run.rows_read == answers@.len(),
{
    let mut outcomes: Vec<Counted> = Vec::new();
    let mut unread: u64 = 0;
    let mut i: usize = 0;
    assert(answers@.take(0) == Seq::<EmbeddingAnswer>::empty());
    while i < answers.len()
        invariant
            i <= answers@.len(),
            outcomes@ == embedding_outcomes(answers@).take(i as int),
            unread == unread_times(answers@.take(i as int)),
            unread <= i,
        decreases answers.len() - i,
    {
        let a: EmbeddingAnswer = answers[i];
        if !a.node_exists {
            outcomes.push((RowOutcome::Dangling, 1));
        } else {
            if !a.time_read {
                unread += 1;
            }
            if a.inserted {
                outcomes.push((RowOutcome::Inserted, 1));
            } else {
                outcomes.push((RowOutcome::Existing, 1));
            }
        }
        proof {
            let all = embedding_outcomes(answers@);
            assert(all.take(i + 1) == all.take(i as int).push(all[i as int]));
            assert(answers@.take(i + 1).drop_last() == answers@.take(i as int));
            assert(answers@.take(i + 1).last() == answers@[i as int]);
        }
        i += 1;
    }
    proof {
        let all = embedding_outcomes(answers@);
        assert(all.take(answers@.len() as int) == all);
        assert(answers@.take(answers@.len() as int) == answers@);
        lemma_unit_weight(outcomes@);
    }
    let t: Tally = tally_outcomes(&outcomes);
    let mut notes: Vec<(String, String)> = label_vec(namespace, Driver::Embeddings);
    notes.push(entry("rows_skipped_missing_node", u64_text(t.dangling)));
    notes.push(entry("rows_failed_parse_used_now", u64_text(unread)));
    assert(json::entries_view(notes@) =~= embedding_notes(text::opt_view(*namespace), answers@));
    ClosedRun { run: t.close(run_id, "memory_embeddings"), notes: object_value(&notes) }
}

// ---------------------------------------------------------------------------
// Rows whose attributes are merged where the row is there
// ---------------------------------------------------------------------------

/// What the database said about one row of a driver that merges attributes.
#[derive(Debug)]
pub struct MergeAnswer {
    /// Whether the metadata of the row was no JSON object.
    pub malformed: bool,
    /// Whether the nodes that the row refers to are there.
    pub endpoints_ok: bool,
    /// Whether the row was inserted.
    pub inserted: bool,
    /// The kind of the row that stands under its id; asked only where the insert
    /// was ignored.
    pub existing_kind: Option<String>,
}

/// The model of a [`MergeAnswer`].
pub struct MergeAnswerView {
    /// Whether the metadata of the row was no JSON object.
    pub malformed: bool,
    /// Whether the nodes that the row refers to are there.
    pub endpoints_ok: bool,
    /// Whether the row was inserted.
    pub inserted: bool,
    /// The kind of the row that stands under its id.
    pub existing_kind: Option<Seq<char>>,
}

impl View for MergeAnswer {
    type V = MergeAnswerView;

    open spec fn view(&self) -> MergeAnswerView {
        MergeAnswerView {
            malformed: self.malformed,
            endpoints_ok: self.endpoints_ok,
            inserted: self.inserted,
            existing_kind: text::opt_view(self.existing_kind),
        }
    }
}

/// The models of a list of answers.
pub open spec fn merge_answers(v: Seq<MergeAnswer>) -> Seq<MergeAnswerView> {
    v.map_values(|a: MergeAnswer| a@)
}

impl MergeAnswerView {
    /// The outcome of the row.
    pub open spec fn outcome(self) -> RowOutcome {
        if !self.endpoints_ok {
            RowOutcome::Dangling
        } else if self.inserted {
            RowOutcome::Inserted
        } else {
            RowOutcome::Existing
        }
    }

    /// Whether the insert was ignored because of a row of the same kind, into
    /// which the attributes are merged.
    pub open spec fn merged(self, kind: Seq<char>) -> bool {
        self.endpoints_ok && !self.inserted && self.existing_kind == Some(kind)
    }

    /// Whether the insert was ignored because of a row of another kind, which is
    /// left alone.
    pub open spec fn foreign(self, kind: Seq<char>) -> bool {
        self.endpoints_ok && !self.inserted && self.existing_kind is Some && self.existing_kind
            != Some(kind)
    }

    /// Whether the metadata was looked at and found to be no object.
    pub open spec fn unreadable(self) -> bool {
        self.endpoints_ok && self.malformed
    }
}

/// The counts of a merging run beside its tally.
#[derive(Debug, Clone, Copy, PartialEq, Eq, Structural)]
pub struct MergeCounts {
    /// Rows whose attributes were merged.
    pub merged: u64,
    /// Rows whose metadata was no object.
    pub malformed: u64,
    /// Rows whose id belongs to a row of another kind.
    pub foreign: u64,
}

/// The outcomes of rows with merged attributes.
pub open spec fn merge_outcomes(answers: Seq<MergeAnswerView>) -> Seq<Counted> {
    answers.map_values(|a: MergeAnswerView| (a.outcome(), 1u64))
}

/// One where `b` holds.
pub open spec fn one_if(b: bool) -> int {
    if b {
        1
    } else {
        0
    }
}

/// The counts of a merging run.
pub open spec fn merge_counts(answers: Seq<MergeAnswerView>, kind: Seq<char>) -> MergeCounts
    decreases answers.len(),
{
    if answers.len() == 0 {
        MergeCounts { merged: 0, malformed: 0, foreign: 0 }
    } else {
        let before = merge_counts(answers.drop_last(), kind);
        let a = answers.last();
        MergeCounts {
            merged: (before.merged + one_if(a.merged(kind))) as u64,
            malformed: (before.malformed + one_if(a.unreadable())) as u64,
            foreign: (before.foreign + one_if(a.foreign(kind))) as u64,
        }
    }
}

/// What to do with a row that stands under the id of an ignored insert: where it
/// is of the same kind, the attributes to store in it.
pub fn merge_into_existing(
    existing: &Option<(String, String)>,
    kind: &str,
    projected: &str,
) -> (r: Option<String>)
    ensures
        r is Some <==> (existing matches Some(e) && e.0@ == kind@),
        r matches Some(m) ==> m@ == attributes::merged_attributes((existing->0).1@, projected@),
{
    match existing {
        Some(e) => {
            if same(e.0.as_str(), kind) {
                Some(merge_attributes_existing_wins(e.1.as_str(), projected))
            } else {
                None
            }
        },
        None => None,
    }
}

fn count_merges(answers: &Vec<MergeAnswer>, kind: &str) -> (r: (Tally, MergeCounts))
    ensures
        r.0 == tally_of(merge_outcomes(merge_answers(answers@))),
        r.0.total() == answers@.len(),
        r.0.total() <= u64::MAX,
        r.1 == merge_counts(merge_answers(answers@), kind@),
{
    let mut outcomes: Vec<Counted> = Vec::new();
    let mut c: MergeCounts = MergeCounts { merged: 0, malformed: 0, foreign: 0 };
    let mut i: usize = 0;
    let ghost av = merge_answers(answers@);
    assert(av.take(0) == Seq::<MergeAnswerView>::empty());
    while i < answers.len()
        invariant
            i <= answers@.len(),
            av == merge_answers(answers@),
            outcomes@ == merge_outcomes(av).take(i as int),
            c == merge_counts(av.take(i as int), kind@),
            c.merged <= i,
            c.malformed <= i,
            c.foreign <= i,
        decreases answers.len() - i,
    {
        let a: &MergeAnswer = &answers[i];
        if !a.endpoints_ok {
            outcomes.push((RowOutcome::Dangling, 1));
        } else {
            if a.malformed {
                c.malformed = c.malformed + 1;
            }
            if a.inserted {
                outcomes.push((RowOutcome::Inserted, 1));
            } else {
                outcomes.push((RowOutcome::Existing, 1));
                match &a.existing_kind {
                    Some(k) => {
                        if same(k.as_str(), kind) {
                            c.merged = c.merged + 1;
                        } else {
                            c.foreign = c.foreign + 1;
                        }
                    },
                    None => {},
                }
            }
        }
        proof {
            let all = merge_outcomes(av);
            assert(av[i as int] == a@);
            assert(all.take(i + 1) == all.take(i as int).push(all[i as int]));
            assert(av.take(i + 1).drop_last() == av.take(i as int));
            assert(av.take(i + 1).last() == av[i as int]);
        }
        i += 1;
    }
    proof {
        let all = merge_outcomes(av);
        assert(all.take(answers@.len() as int) == all);
        assert(av.take(answers@.len() as int) == av);
        lemma_unit_weight(outcomes@);
    }
    (tally_outcomes(&outcomes), c)
}

/// The attributes that an entity projects: its type column first.
pub open spec fn entity_attributes(
    entity_type: Seq<char>,
    metadata: Option<Seq<char>>,
) -> attributes::Entries {
    attributes::projected(seq![("entity_type"@, json::json_string(entity_type))], metadata)
}

/// Projects the attributes of an entity row, and tells whether its metadata was
/// no JSON object. What is printed reads back, where it reads at all, as the
/// projected attributes, with the type column under its key.
pub fn project_entity(entity_type: &str, metadata: &Option<String>) -> (r: (String, bool))
    ensures
        r.0@ == json::json_object(entity_attributes(entity_type@, text::opt_view(*metadata))),
        r.1 == attributes::malformed(text::opt_view(*metadata)),
        ({
            let all = entity_attributes(entity_type@, text::opt_view(*metadata));
            &&& json::json_level(r.0@) matches Some(level) ==> level == json::JsonView::Object(all)
                && json::is_canonical(r.0@)
            &&& json::lookup(all, "entity_type"@) == Some(json::json_string(entity_type@))
            &&& json::json_level(json::json_string(entity_type@)) == Some(
                json::JsonView::Text(entity_type@),
            )
        }),
{
    let mut seed: Vec<(String, String)> = Vec::new();
    seed.push(entry("entity_type", text_value(entity_type)));
    proof {
        let s = json::entries_view(seed@);
        assert(s =~= seq![("entity_type"@, json::json_string(entity_type@))]);
        assert(attributes::ascending(s) && attributes::printed(s));
        assert(json::lookup(s, "entity_type"@) == Some(s.last().1));
    }
    project_attributes(seed, metadata)
}

/// The audit notes of a run over `entities`.
pub open spec fn entity_notes(namespace: Option<Seq<char>>, answers: Seq<MergeAnswerView>) -> attributes::Entries {
    let c = merge_counts(answers, "entity"@);
    label_entries(namespace, Driver::Entities) + seq![
        ("rows_metadata_merged"@, text::decimal(c.merged as nat)),
        ("rows_malformed_metadata"@, text::decimal(c.malformed as nat)),
        ("rows_kind_mismatch"@, text::decimal(c.foreign as nat)),
    ]
}

/// Closes a run over `entities`. An entity refers to no node, so every answer
/// has its endpoints.
pub fn backfill_entities_to_nodes(
    namespace: &Option<String>,
    run_id: String,
    answers: &Vec<MergeAnswer>,
) -> (r: ClosedRun)
    ensures
        r.closes(
            run_id@,
            "entities"@,
            tally_of(merge_outcomes(merge_answers(answers@))),
            entity_notes(text::opt_view(*namespace), merge_answers(answers@)),
        ),
        r.run.rows_read == answers@.len(),
{
    let (t, c) = count_merges(answers, "entity");
    let mut notes: Vec<(String, String)> = label_vec(namespace, Driver::Entities);
    notes.push(entry("rows_metadata_merged", u64_text(c.merged)));
    notes.push(entry("rows_malformed_metadata", u64_text(c.malformed)));
    notes.push(entry("rows_kind_mismatch", u64_text(c.foreign)));
    assert(json::entries_view(notes@) =~= entity_notes(text::opt_view(*namespace), merge_answers(answers@)));
    ClosedRun { run: t.close(run_id, "entities"), notes: object_value(&notes) }
}

/// The seed of the attributes of a relation: its source column, where it has
/// one.
pub open spec fn relation_seed(source: Option<Seq<char>>) -> attributes::Entries {
    match source {
        Some(s) => seq![("source"@, json::json_string(s))],
        None => Seq::empty(),
    }
}

/// The attributes that a relation projects.
pub open spec fn relation_attributes(
    source: Option<Seq<char>>,
    metadata: Option<Seq<char>>,
) -> attributes::Entries {
    attributes::projected(relation_seed(source), metadata)
}

/// Projects the attributes of a relation row, and tells whether its metadata was
/// no JSON object.
pub fn project_relation(source: &Option<String>, metadata: &Option<String>) -> (r: (String, bool))
    ensures
        r.0@ == json::json_object(
            relation_attributes(text::opt_view(*source), text::opt_view(*metadata)),
        ),
        r.1 == attributes::malformed(text::opt_view(*metadata)),
{
    let mut seed: Vec<(String, String)> = Vec::new();
    match source {
        Some(s) => {
            seed.push(entry("source", text_value(s.as_str())));
        },
        None => {},
    }
    assert(json::entries_view(seed@) =~= relation_seed(text::opt_view(*source)));
    project_attributes(seed, metadata)
}

/// The audit notes of a run over `entity_relations`.
pub open spec fn relation_notes(
    namespace: Option<Seq<char>>,
    answers: Seq<MergeAnswerView>,
) -> attributes::Entries {
    let c = merge_counts(answers, "structural"@);
    let t = tally_of(merge_outcomes(answers));
    label_entries(namespace, Driver::Relations) + seq![
        ("rows_metadata_merged"@, text::decimal(c.merged as nat)),
        ("rows_malformed_metadata"@, text::decimal(c.malformed as nat)),
        ("rows_skipped_dangling_endpoint"@, text::decimal(t.dangling as nat)),
        ("rows_existing_kind_mismatch"@, text::decimal(c.foreign as nat)),
    ]
}

/// Closes a run over `entity_relations`. Rows without their endpoints count as
/// skipped, and are told apart in the notes.
pub fn backfill_entity_relations_to_edges(
    namespace: &Option<String>,
    run_id: String,
    answers: &Vec<MergeAnswer>,
) -> (r: ClosedRun)
    ensures
        r.closes(
            run_id@,
            "entity_relations"@,
            tally_of(merge_outcomes(merge_answers(answers@))),
            relation_notes(text::opt_view(*namespace), merge_answers(answers@)),
        ),
        r.run.rows_read == answers@.len(),
{
    let (t, c) = count_merges(answers, "structural");
    let mut notes: Vec<(String, String)> = label_vec(namespace, Driver::Relations);
    notes.push(entry("rows_metadata_merged", u64_text(c.merged)));
    notes.push(entry("rows_malformed_metadata", u64_text(c.malformed)));
    notes.push(entry("rows_skipped_dangling_endpoint", u64_text(t.dangling)));
    notes.push(entry("rows_existing_kind_mismatch", u64_text(c.foreign)));
    assert(json::entries_view(notes@) =~= relation_notes(text::opt_view(*namespace), merge_answers(answers@)));
    ClosedRun { run: t.close(run_id, "entity_relations"), notes: object_value(&notes) }
}

// ---------------------------------------------------------------------------
// Edges under deterministic ids
// ---------------------------------------------------------------------------

/// What the database said about one projected edge.
#[derive(Debug)]
pub struct EdgeAnswer {
    /// Whether both endpoints are nodes.
    pub endpoints_ok: bool,
    /// The kind and predicate that stood under the id before the insert.
    pub found: Option<(String, String)>,
    /// Whether the edge was inserted.
    pub inserted: bool,
}

impl EdgeAnswer {
    /// The outcome for an edge of the given kind and predicate.
    pub open spec fn outcome(self, wanted: EdgeShape) -> RowOutcome {
        if !self.endpoints_ok {
            RowOutcome::Dangling
        } else {
            insert_outcome(self.inserted, shape_view(self.found), wanted)
        }
    }

    /// The outcome for an edge of the given kind and predicate.
    pub fn outcome_for(&self, edge_kind: &str, predicate: &str) -> (r: RowOutcome)
        ensures
            r == self.outcome((edge_kind@, predicate@)),
    {
        if !self.endpoints_ok {
            RowOutcome::Dangling
        } else {
            outcome_of_insert(self.inserted, &self.found, edge_kind, predicate)
        }
    }
}

/// A projected edge.
#[derive(Debug)]
pub struct EdgePlan {
    /// Its id.
    pub id: String,
    /// The node it starts from.
    pub source_id: String,
    /// The node it points to.
    pub target_id: String,
    /// Its kind.
    pub edge_kind: String,
    /// Its predicate.
    pub predicate: String,
    /// Its attributes, as JSON text.
    pub attributes: String,
    /// The legacy rows behind it.
    pub rows: u64,
}

impl View for EdgePlan {
    type V = PlanView;

    open spec fn view(&self) -> PlanView {
        PlanView {
            id: self.id@,
            needs: set![self.source_id@, self.target_id@],
            shape: (self.edge_kind@, self.predicate@),
            rows: self.rows,
        }
    }
}

/// A row that links a memory to an entity.
#[derive(Debug)]
pub struct MemoryEntityRow {
    /// The memory.
    pub memory_id: String,
    /// The entity.
    pub entity_id: String,
    /// The role of the entity in the memory.
    pub role: String,
}

/// The attributes of a memory-entity edge: the raw role, where it was folded.
pub open spec fn link_attributes(role: Seq<char>) -> Seq<char> {
    if identity::role_shape(role).1 {
        json::json_object(seq![("legacy_role"@, json::json_string(role))])
    } else {
        "{}"@
    }
}

/// Projects a memory-entity link: the memory is the source and the entity the
/// target, whatever the role.
pub fn plan_memory_entity(row: &MemoryEntityRow) -> (r: EdgePlan)
    ensures
        r.id@ == identity::hash_id(
            identity::memory_entity_identity(row.memory_id@, row.entity_id@, row.role@),
        ),
        r.source_id@ == row.memory_id@,
        r.target_id@ == row.entity_id@,
        (r.edge_kind@, r.predicate@) == identity::role_shape(row.role@).0,
        r.attributes@ == link_attributes(row.role@),
        r.rows == 1,
        r@ == link_plan(*row),
{
    let (kind, predicate, normalized) = role_to_kind_predicate(row.role.as_str());
    let hash_input: String = memory_entity_hash_input(
        row.memory_id.as_str(),
        row.entity_id.as_str(),
        row.role.as_str(),
    );
    let attributes: String = if normalized {
        let mut v: Vec<(String, String)> = Vec::new();
        v.push(entry("legacy_role", text_value(row.role.as_str())));
        assert(json::entries_view(v@) =~= seq![("legacy_role"@, json::json_string(row.role@))]);
        object_value(&v)
    } else {
        "{}".to_owned()
    };
    EdgePlan {
        id: uuid_from_hash(hash_input.as_str()),
        source_id: row.memory_id.clone(),
        target_id: row.entity_id.clone(),
        edge_kind: kind.to_owned(),
        predicate: predicate.to_owned(),
        attributes,
        rows: 1,
    }
}

/// The roles of a list of links.
pub open spec fn roles_of(rows: Seq<MemoryEntityRow>) -> Seq<Seq<char>> {
    rows.map_values(|r: MemoryEntityRow| r.role@)
}

/// The rows whose role was folded onto a mention.
pub open spec fn folded_rows(roles: Seq<Seq<char>>) -> nat
    decreases roles.len(),
{
    if roles.len() == 0 {
        0
    } else {
        folded_rows(roles.drop_last()) + (if identity::role_shape(roles.last()).1 {
            1nat
        } else {
            0nat
        })
    }
}

/// The folded roles, each once, in the order in which they first occur.
pub open spec fn folded_roles(roles: Seq<Seq<char>>) -> Seq<Seq<char>>
    decreases roles.len(),
{
    if roles.len() == 0 {
        Seq::empty()
    } else {
        let before = folded_roles(roles.drop_last());
        if identity::role_shape(roles.last()).1 && !text::holds(before, roles.last()) {
            before.push(roles.last())
        } else {
            before
        }
    }
}

/// How many folded roles the audit notes list.
pub const ROLE_SAMPLES: usize = 10;

/// The folded roles that the audit notes list.
pub open spec fn role_samples(roles: Seq<Seq<char>>) -> Seq<Seq<char>> {
    let all = folded_roles(roles);
    if all.len() <= ROLE_SAMPLES {
        all
    } else {
        all.take(ROLE_SAMPLES as int)
    }
}

/// The outcomes of memory-entity links.
pub open spec fn link_outcomes(rows: Seq<MemoryEntityRow>, answers: Seq<EdgeAnswer>) -> Seq<Counted>
    recommends
        rows.len() == answers.len(),
{
    Seq::new(
        rows.len(),
        |i: int| (answers[i].outcome(identity::role_shape(rows[i].role@).0), 1u64),
    )
}

/// The audit notes of a run over `memory_entities`.
pub open spec fn link_notes(
    namespace: Option<Seq<char>>,
    rows: Seq<MemoryEntityRow>,
    answers: Seq<EdgeAnswer>,
) -> attributes::Entries {
    let t = tally_of(link_outcomes(rows, answers));
    let roles = roles_of(rows);
    label_entries(namespace, Driver::Mentions) + seq![
        ("rows_skipped_dangling_endpoint"@, text::decimal(t.dangling as nat)),
        ("rows_skipped_mismatched_kind"@, text::decimal(t.mismatched as nat)),
        ("rows_normalized_legacy_role"@, text::decimal(folded_rows(roles))),
        (
            "unknown_role_samples"@,
            json::json_array(json::string_texts(role_samples(roles))),
        ),
        (
            "unknown_role_samples_truncated"@,
            json::bool_text(folded_roles(roles).len() > ROLE_SAMPLES),
        ),
        ("unknown_role_distinct_count"@, text::decimal(folded_roles(roles).len())),
    ]
}

/// Closes a run over `memory_entities`.
pub fn backfill_memory_entities_to_edges(
    namespace: &Option<String>,
    run_id: String,
    rows: &Vec<MemoryEntityRow>,
    answers: &Vec<EdgeAnswer>,
) -> (r: ClosedRun)
    requires
        rows@.len() == answers@.len(),
    ensures
        r.closes(
            run_id@,
            "memory_entities"@,
            tally_of(link_outcomes(rows@, answers@)),
            link_notes(text::opt_view(*namespace), rows@, answers@),
        ),
        r.run.rows_read == rows@.len(),
{
    let mut outcomes: Vec<Counted> = Vec::new();
    let mut folded: u64 = 0;
    let mut distinct: Vec<String> = Vec::new();
    let mut samples: Vec<String> = Vec::new();
    let mut truncated: bool = false;
    let mut i: usize = 0;
    let ghost roles = roles_of(rows@);
    let ghost all = link_outcomes(rows@, answers@);
    assert(roles.take(0) == Seq::<Seq<char>>::empty());
    while i < rows.len()
        invariant
            i <= rows@.len(),
            rows@.len() == answers@.len(),
            roles == roles_of(rows@),
            all == link_outcomes(rows@, answers@),
            outcomes@ == all.take(i as int),
            folded == folded_rows(roles.take(i as int)),
            folded <= i,
            text::views(distinct@) == folded_roles(roles.take(i as int)),
            distinct@.len() <= i,
            text::views(samples@) == role_samples(roles.take(i as int)),
            truncated == (distinct@.len() > ROLE_SAMPLES),
        decreases rows.len() - i,
    {
        let role: &str = rows[i].role.as_str();
        let (kind, predicate, normalized) = role_to_kind_predicate(role);
        proof {
            assert(roles[i as int] == role@);
            assert(roles.take(i + 1).drop_last() == roles.take(i as int));
            assert(roles.take(i + 1).last() == roles[i as int]);
            assert(all.take(i + 1) == all.take(i as int).push(all[i as int]));
        }
        if normalized {
            folded += 1;
            if !contains_text(&distinct, role) {
                let ghost before = text::views(distinct@);
                distinct.push(role.to_owned());
                assert(text::views(distinct@) =~= before.push(role@));
                if samples.len() < ROLE_SAMPLES {
                    let ghost listed = text::views(samples@);
                    samples.push(role.to_owned());
                    assert(text::views(samples@) =~= listed.push(role@));
                    assert(listed == before);
                } else {
                    truncated = true;
                    assert(before.push(role@).take(ROLE_SAMPLES as int) =~= before.take(
                        ROLE_SAMPLES as int,
                    ));
                    assert(before.take(before.len() as int) == before);
                }
            }
        }
        outcomes.push((answers[i].outcome_for(kind, predicate), 1));
        i += 1;
    }
    proof {
        assert(all.take(rows@.len() as int) == all);
        assert(roles.take(rows@.len() as int) == roles);
        lemma_unit_weight(outcomes@);
    }
    let t: Tally = tally_outcomes(&outcomes);
    let mut notes: Vec<(String, String)> = label_vec(namespace, Driver::Mentions);
    notes.push(entry("rows_skipped_dangling_endpoint", u64_text(t.dangling)));
    notes.push(entry("rows_skipped_mismatched_kind", u64_text(t.mismatched)));
    notes.push(entry("rows_normalized_legacy_role", u64_text(folded)));
    notes.push(entry("unknown_role_samples", strings_value(&samples)));
    notes.push(entry("unknown_role_samples_truncated", bool_value(truncated)));
    notes.push(entry("unknown_role_distinct_count", u64_text(distinct.len() as u64)));
    assert(json::entries_view(notes@) =~= link_notes(text::opt_view(*namespace), rows@, answers@));
    ClosedRun { run: t.close(run_id, "memory_entities"), notes: object_value(&notes) }
}

// ---------------------------------------------------------------------------
// hebbian_links into edges
// ---------------------------------------------------------------------------

/// The co-activation links of one pair, namespace and signal source, both
/// directions taken together.
#[derive(Debug)]
pub struct HebbianGroup {
    /// The smaller endpoint.
    pub lo: String,
    /// The larger endpoint.
    pub hi: String,
    /// The namespace.
    pub namespace: String,
    /// The signal source.
    pub signal_source: String,
    /// The sum of the co-activation counts.
    pub coactivation_count: i64,
    /// The sum of the forward counts.
    pub temporal_forward: i64,
    /// The sum of the backward counts.
    pub temporal_backward: i64,
    /// The distinct directions, between commas.
    pub directions: String,
    /// The distinct signal details, between commas.
    pub details: String,
    /// The legacy rows in the group.
    pub rows: u64,
}

/// The distinct values of a list between commas, in ascending order.
pub open spec fn group_values(csv: Seq<char>) -> Seq<Seq<char>> {
    text::sorted_set(text::pieces(csv, ','))
}

/// How distinct values are packed into an attribute: a single one as a string,
/// several as an array, none as the fallback.
pub open spec fn packed(values: Seq<Seq<char>>, fallback: Seq<char>) -> Seq<char> {
    if values.len() == 0 {
        json::json_string(fallback)
    } else if values.len() == 1 {
        json::json_string(values[0])
    } else {
        json::json_array(json::string_texts(values))
    }
}

/// Packs the distinct values of a list between commas.
fn pack_values(csv: &str, fallback: &str) -> (r: String)
    ensures
        r@ == packed(group_values(csv@), fallback@),
{
    let values: Vec<String> = sort_dedup(text::split_pieces(csv, ','));
    assert(text::views(values@).len() == values@.len());
    if values.len() == 0 {
        text_value(fallback)
    } else if values.len() == 1 {
        assert(text::views(values@)[0] == values@[0]@);
        text_value(values[0].as_str())
    } else {
        strings_value(&values)
    }
}

/// The attributes of a co-activation edge.
pub open spec fn hebbian_attributes(g: HebbianGroup) -> attributes::Entries {
    seq![
        ("signal_source"@, json::json_string(g.signal_source@)),
        ("signal_detail"@, packed(group_values(g.details@), ""@)),
        ("coactivation_count"@, text::signed_decimal(g.coactivation_count as int)),
        ("temporal_forward"@, text::signed_decimal(g.temporal_forward as int)),
        ("temporal_backward"@, text::signed_decimal(g.temporal_backward as int)),
        ("direction"@, packed(group_values(g.directions@), "bidirectional"@)),
    ]
}

/// Projects a group of co-activation links to one edge.
pub fn plan_hebbian_group(g: &HebbianGroup) -> (r: EdgePlan)
    ensures
        r.id@ == identity::hash_id(
            identity::hebbian_identity(g.lo@, g.hi@, g.namespace@, g.signal_source@),
        ),
        r.source_id@ == g.lo@,
        r.target_id@ == g.hi@,
        (r.edge_kind@, r.predicate@) == ("associative"@, "co_activated"@),
        r.attributes@ == json::json_object(hebbian_attributes(*g)),
        r.rows == g.rows,
{
    let hash_input: String = backfill_hebbian_links_to_edges_hash_input(
        g.lo.as_str(),
        g.hi.as_str(),
        g.namespace.as_str(),
        g.signal_source.as_str(),
    );
    let mut v: Vec<(String, String)> = Vec::new();
    v.push(entry("signal_source", text_value(g.signal_source.as_str())));
    v.push(entry("signal_detail", pack_values(g.details.as_str(), "")));
    v.push(entry("coactivation_count", i64_text(g.coactivation_count)));
    v.push(entry("temporal_forward", i64_text(g.temporal_forward)));
    v.push(entry("temporal_backward", i64_text(g.temporal_backward)));
    v.push(entry("direction", pack_values(g.directions.as_str(), "bidirectional")));
    assert(json::entries_view(v@) =~= hebbian_attributes(*g));
    EdgePlan {
        id: uuid_from_hash(hash_input.as_str()),
        source_id: g.lo.clone(),
        target_id: g.hi.clone(),
        edge_kind: "associative".to_owned(),
        predicate: "co_activated".to_owned(),
        attributes: object_value(&v),
        rows: g.rows,
    }
}

/// The outcomes of groups of co-activation links, each with its legacy rows.
pub open spec fn group_outcomes(groups: Seq<HebbianGroup>, answers: Seq<EdgeAnswer>) -> Seq<Counted>
    recommends
        groups.len() == answers.len(),
{
    Seq::new(
        groups.len(),
        |i: int| (answers[i].outcome(("associative"@, "co_activated"@)), groups[i].rows),
    )
}

/// The legacy rows in a list of groups.
pub open spec fn group_rows(groups: Seq<HebbianGroup>) -> int
    decreases groups.len(),
{
    if groups.len() == 0 {
        0
    } else {
        group_rows(groups.drop_last()) + groups.last().rows
    }
}

proof fn lemma_group_weight(groups: Seq<HebbianGroup>, answers: Seq<EdgeAnswer>)
    requires
        groups.len() == answers.len(),
    ensures
        weight(group_outcomes(groups, answers)) == group_rows(groups),
    decreases groups.len(),
{
    if groups.len() > 0 {
        lemma_group_weight(groups.drop_last(), answers.drop_last());
        assert(group_outcomes(groups, answers).drop_last() =~= group_outcomes(
            groups.drop_last(),
            answers.drop_last(),
        ));
    }
}

/// The audit notes of a run over `hebbian_links`.
pub open spec fn hebbian_notes(
    namespace: Option<Seq<char>>,
    merged_collision_pairs: u64,
    groups: Seq<HebbianGroup>,
    answers: Seq<EdgeAnswer>,
) -> attributes::Entries {
    let t = tally_of(group_outcomes(groups, answers));
    label_entries(namespace, Driver::Coactivation) + seq![
        ("groups_processed"@, text::decimal(groups.len())),
        ("merged_collision_pairs"@, text::decimal(merged_collision_pairs as nat)),
        ("rows_skipped_dangling_endpoint"@, text::decimal(t.dangling as nat)),
        ("rows_skipped_mismatched_kind"@, text::decimal(t.mismatched as nat)),
    ]
}

/// Closes a run over `hebbian_links`. Each group counts with its legacy rows, so
/// that the counters add up to the rows of the legacy table.
pub fn backfill_hebbian_links_to_edges(
    namespace: &Option<String>,
    run_id: String,
    rows_read: u64,
    merged_collision_pairs: u64,
    groups: &Vec<HebbianGroup>,
    answers: &Vec<EdgeAnswer>,
) -> (r: ClosedRun)
    requires
        groups@.len() == answers@.len(),
        rows_read == group_rows(groups@),
    ensures
        r.closes(
            run_id@,
            "hebbian_links"@,
            tally_of(group_outcomes(groups@, answers@)),
            hebbian_notes(text::opt_view(*namespace), merged_collision_pairs, groups@, answers@),
        ),
        r.run.rows_read == rows_read,
{
    let mut outcomes: Vec<Counted> = Vec::new();
    let mut i: usize = 0;
    let ghost all = group_outcomes(groups@, answers@);
    while i < groups.len()
        invariant
            i <= groups@.len(),
            groups@.len() == answers@.len(),
            all == group_outcomes(groups@, answers@),
            outcomes@ == all.take(i as int),
        decreases groups.len() - i,
    {
        outcomes.push((answers[i].outcome_for("associative", "co_activated"), groups[i].rows));
        assert(all.take(i + 1) == all.take(i as int).push(all[i as int]));
        i += 1;
    }
    proof {
        assert(all.take(groups@.len() as int) == all);
        lemma_group_weight(groups@, answers@);
    }
    let t: Tally = tally_outcomes(&outcomes);
    let mut notes: Vec<(String, String)> = label_vec(namespace, Driver::Coactivation);
    notes.push(entry("groups_processed", u64_text(groups.len() as u64)));
    notes.push(entry("merged_collision_pairs", u64_text(merged_collision_pairs)));
    notes.push(entry("rows_skipped_dangling_endpoint", u64_text(t.dangling)));
    notes.push(entry("rows_skipped_mismatched_kind", u64_text(t.mismatched)));
    assert(json::entries_view(notes@) =~= hebbian_notes(
        text::opt_view(*namespace),
        merged_collision_pairs,
        groups@,
        answers@,
    ));
    ClosedRun { run: t.close(run_id, "hebbian_links"), notes: object_value(&notes) }
}

/// The rows of the groups of a list, where they fit a counter.
pub fn count_group_rows(groups: &Vec<HebbianGroup>) -> (r: Option<u64>)
    ensures
        r matches Some(n) ==> n == group_rows(groups@),
        r is None ==> group_rows(groups@) > u64::MAX,
{
    let mut n: u64 = 0;
    let mut i: usize = 0;
    assert(groups@.take(0) == Seq::<HebbianGroup>::empty());
    while i < groups.len()
        invariant
            i <= groups@.len(),
            n == group_rows(groups@.take(i as int)),
        decreases groups.len() - i,
    {
        proof {
            assert(groups@.take(i + 1).drop_last() == groups@.take(i as int));
            assert(groups@.take(i + 1).last() == groups@[i as int]);
        }
        match n.checked_add(groups[i].rows) {
            Some(m) => {
                n = m;
            },
            None => {
                proof {
                    lemma_group_rows_prefix(groups@, i + 1);
                }
                return None;
            },
        }
        i += 1;
    }
    assert(groups@.take(groups@.len() as int) == groups@);
    Some(n)
}

proof fn lemma_group_rows_prefix(groups: Seq<HebbianGroup>, n: int)
    requires
        0 <= n <= groups.len(),
    ensures
        group_rows(groups.take(n)) <= group_rows(groups),
    decreases groups.len() - n,
{
    if n == groups.len() {
        assert(groups.take(n) == groups);
    } else {
        lemma_group_rows_prefix(groups, n + 1);
        assert(groups.take(n + 1).drop_last() == groups.take(n));
    }
}

// ---------------------------------------------------------------------------
// synthesis_provenance into edges
// ---------------------------------------------------------------------------

/// A row that links an insight to one of its sources.
#[derive(Debug)]
pub struct ProvenanceRow {
    /// The id of the row, which is the id of the edge.
    pub id: String,
    /// The insight.
    pub insight_id: String,
    /// The source that it was derived from.
    pub source_id: String,
    /// The cluster that it came from.
    pub cluster_id: String,
    /// When it was synthesized, in RFC 3339.
    pub synthesis_timestamp: String,
    /// The decision of the synthesis gate.
    pub gate_decision: String,
    /// The scores of the synthesis gate, as JSON text.
    pub gate_scores: Option<String>,
    /// The importance of the source before, as JSON text.
    pub source_original_importance: Option<String>,
}

/// A JSON text as it is read and printed, or as a string where it is none.
pub open spec fn read_or_quoted(t: Seq<char>) -> Seq<char> {
    match json::json_canonical(t) {
        Some(c) => c,
        None => json::json_string(t),
    }
}

/// A JSON text as it is read and printed, or as a string where it is none.
pub fn read_or_quote(t: &str) -> (r: String)
    ensures
        r@ == read_or_quoted(t@),
{
    match canonical(t) {
        Some(c) => c,
        None => text_value(t),
    }
}

/// The entry of the synthesis gate scores: none where there are none, or an empty text.
pub open spec fn score_entries(scores: Option<Seq<char>>) -> attributes::Entries {
    match scores {
        Some(t) => if t.len() > 0 {
            seq![("gate_scores"@, read_or_quoted(t))]
        } else {
            Seq::empty()
        },
        None => Seq::empty(),
    }
}

/// The entry of the original importance, where it is known.
pub open spec fn importance_entries(importance: Option<Seq<char>>) -> attributes::Entries {
    match importance {
        Some(t) => seq![("source_original_importance"@, t)],
        None => Seq::empty(),
    }
}

/// The attributes of a provenance edge.
pub open spec fn provenance_attributes(p: ProvenanceRow) -> attributes::Entries {
    seq![
        ("gate_decision"@, json::json_string(p.gate_decision@)),
        ("cluster_id"@, json::json_string(p.cluster_id@)),
        ("synthesis_timestamp"@, json::json_string(p.synthesis_timestamp@)),
    ] + score_entries(text::opt_view(p.gate_scores)) + importance_entries(
        text::opt_view(p.source_original_importance),
    )
}

/// Projects a provenance row: the edge keeps the id of the row and points from
/// the insight to its source.
pub fn plan_provenance(p: &ProvenanceRow) -> (r: EdgePlan)
    ensures
        r.id@ == p.id@,
        r.source_id@ == p.insight_id@,
        r.target_id@ == p.source_id@,
        (r.edge_kind@, r.predicate@) == ("provenance"@, "derived_from"@),
        r.attributes@ == json::json_object(provenance_attributes(*p)),
        r.rows == 1,
{
    let mut v: Vec<(String, String)> = Vec::new();
    v.push(entry("gate_decision", text_value(p.gate_decision.as_str())));
    v.push(entry("cluster_id", text_value(p.cluster_id.as_str())));
    v.push(entry("synthesis_timestamp", text_value(p.synthesis_timestamp.as_str())));
    match &p.gate_scores {
        Some(t) => {
            if !t.as_str().is_empty() {
                v.push(entry("gate_scores", read_or_quote(t.as_str())));
            }
        },
        None => {},
    }
    match &p.source_original_importance {
        Some(t) => {
            v.push(entry("source_original_importance", t.clone()));
        },
        None => {},
    }
    assert(json::entries_view(v@) =~= provenance_attributes(*p));
    EdgePlan {
        id: p.id.clone(),
        source_id: p.insight_id.clone(),
        target_id: p.source_id.clone(),
        edge_kind: "provenance".to_owned(),
        predicate: "derived_from".to_owned(),
        attributes: object_value(&v),
        rows: 1,
    }
}

/// The outcomes of provenance rows.
pub open spec fn provenance_outcomes(answers: Seq<EdgeAnswer>) -> Seq<Counted> {
    answers.map_values(|a: EdgeAnswer| (a.outcome(("provenance"@, "derived_from"@)), 1u64))
}

/// What the audit notes say of the confidence of provenance edges.
pub const CONFIDENCE_POLICY: &'static str =
    "legacy.confidence pass-through (FINDING-3 reference impl)";

/// The audit notes of a run over `synthesis_provenance`.
pub open spec fn provenance_notes(
    namespace: Option<Seq<char>>,
    answers: Seq<EdgeAnswer>,
) -> attributes::Entries {
    let t = tally_of(provenance_outcomes(answers));
    label_entries(namespace, Driver::Provenance) + seq![
        ("rows_skipped_dangling_endpoint"@, text::decimal(t.dangling as nat)),
        ("rows_skipped_mismatched_kind"@, text::decimal(t.mismatched as nat)),
        ("confidence_policy"@, json::json_string(CONFIDENCE_POLICY@)),
    ]
}

/// Closes a run over `synthesis_provenance`.
pub fn backfill_synthesis_provenance_to_edges(
    namespace: &Option<String>,
    run_id: String,
    rows_read: u64,
    answers: &Vec<EdgeAnswer>,
) -> (r: ClosedRun)
    requires
        rows_read == answers@.len(),
    ensures
        r.closes(
            run_id@,
            "synthesis_provenance"@,
            tally_of(provenance_outcomes(answers@)),
            provenance_notes(text::opt_view(*namespace), answers@),
        ),
        r.run.rows_read == rows_read,
{
    let mut outcomes: Vec<Counted> = Vec::new();
    let mut i: usize = 0;
    let ghost all = provenance_outcomes(answers@);
    while i < answers.len()
        invariant
            i <= answers@.len(),
            all == provenance_outcomes(answers@),
            outcomes@ == all.take(i as int),
        decreases answers.len() - i,
    {
        outcomes.push((answers[i].outcome_for("provenance", "derived_from"), 1));
        assert(all.take(i + 1) == all.take(i as int).push(all[i as int]));
        i += 1;
    }
    proof {
        assert(all.take(answers@.len() as int) == all);
        lemma_unit_weight(outcomes@);
    }
    let t: Tally = tally_outcomes(&outcomes);
    let mut notes: Vec<(String, String)> = label_vec(namespace, Driver::Provenance);
    notes.push(entry("rows_skipped_dangling_endpoint", u64_text(t.dangling)));
    notes.push(entry("rows_skipped_mismatched_kind", u64_text(t.mismatched)));
    notes.push(entry("confidence_policy", text_value(CONFIDENCE_POLICY)));
    assert(json::entries_view(notes@) =~= provenance_notes(text::opt_view(*namespace), answers@));
    ClosedRun { run: t.close(run_id, "synthesis_provenance"), notes: object_value(&notes) }
}

/// Whether an answer is the one that a table with unique ids gives for a plan.
pub open spec fn answered_by_table(
    a: EdgeAnswer,
    p: PlanView,
    nodes: Set<Seq<char>>,
    table: Map<Seq<char>, EdgeShape>,
) -> bool {
    &&& a.endpoints_ok == p.needs.subset_of(nodes)
    &&& a.inserted == (a.endpoints_ok && !table.contains_key(p.id))
    &&& shape_view(a.found) == (if table.contains_key(p.id) {
        Some(table[p.id])
    } else {
        None
    })
}

/// The outcome that a driver counts for a plan is the one of the run of a table
/// with unique ids, where the answers are those of the table at each step.
pub proof fn law_outcomes_follow_table(
    plans: Seq<PlanView>,
    answers: Seq<EdgeAnswer>,
    nodes: Set<Seq<char>>,
    table: Map<Seq<char>, EdgeShape>,
)
    requires
        plans.len() == answers.len(),
        forall|i: int|
            0 <= i < plans.len() ==> answered_by_table(
                #[trigger] answers[i],
                plans[i],
                nodes,
                table_run(plans.take(i), nodes, table).0,
            ),
    ensures
        table_run(plans, nodes, table).1 == Seq::new(
            plans.len(),
            |i: int| (answers[i].outcome(plans[i].shape), plans[i].rows),
        ),
    decreases plans.len(),
{
    let counted = Seq::new(
        plans.len(),
        |i: int| (answers[i].outcome(plans[i].shape), plans[i].rows),
    );
    if plans.len() > 0 {
        let n = plans.len() - 1;
        let d = plans.drop_last();
        let ad = answers.drop_last();
        assert forall|i: int| 0 <= i < d.len() implies answered_by_table(
            #[trigger] ad[i],
            d[i],
            nodes,
            table_run(d.take(i), nodes, table).0,
        ) by {
            assert(d.take(i) == plans.take(i));
            assert(ad[i] == answers[i]);
        }
        law_outcomes_follow_table(d, ad, nodes, table);
        assert(plans.take(n) == d);
        assert(answered_by_table(answers[n], plans[n], nodes, table_run(d, nodes, table).0));
        assert(counted.drop_last() =~= Seq::new(
            d.len(),
            |i: int| (ad[i].outcome(d[i].shape), d[i].rows),
        ));
        assert(counted =~= counted.drop_last().push(counted.last()));
    }
    assert(table_run(plans, nodes, table).1 =~= counted);
}

/// How a table with unique ids sees the edge of a memory-entity link.
pub open spec fn link_plan(row: MemoryEntityRow) -> PlanView {
    PlanView {
        id: identity::hash_id(
            identity::memory_entity_identity(row.memory_id@, row.entity_id@, row.role@),
        ),
        needs: set![row.memory_id@, row.entity_id@],
        shape: identity::role_shape(row.role@).0,
        rows: 1,
    }
}

/// How a table with unique ids sees the edges of memory-entity links.
pub open spec fn link_plans(rows: Seq<MemoryEntityRow>) -> Seq<PlanView> {
    rows.map_values(|row: MemoryEntityRow| link_plan(row))
}

/// A run over an empty table, where all nodes are there and no two ids are the
/// same.
proof fn lemma_fresh_run(plans: Seq<PlanView>, nodes: Set<Seq<char>>)
    requires
        plans.len() <= u64::MAX,
        forall|i: int|
            0 <= i < plans.len() ==> (#[trigger] plans[i]).needs.subset_of(nodes) && plans[i].rows
                == 1,
        forall|i: int, j: int|
            0 <= i < j < plans.len() ==> (#[trigger] plans[i]).id != (#[trigger] plans[j]).id,
    ensures
        ({
            let end = table_run(plans, nodes, Map::empty());
            &&& end.1.len() == plans.len()
            &&& tally_of(end.1).inserted == plans.len()
            &&& weight(end.1) == plans.len()
            &&& forall|i: int|
                0 <= i < plans.len() ==> end.0.contains_key((#[trigger] plans[i]).id)
                    && end.0[plans[i].id] == plans[i].shape
            &&& forall|id: Seq<char>| #[trigger]
                end.0.contains_key(id) ==> exists|i: int|
                    0 <= i < plans.len() && (#[trigger] plans[i]).id == id
        }),
    decreases plans.len(),
{
    if plans.len() > 0 {
        let d = plans.drop_last();
        let last = plans.last();
        assert forall|i: int| 0 <= i < d.len() implies (#[trigger] d[i]).needs.subset_of(nodes)
            && d[i].rows == 1 by {
            assert(d[i] == plans[i]);
        }
        assert forall|i: int, j: int| 0 <= i < j < d.len() implies (#[trigger] d[i]).id != (
        #[trigger] d[j]).id by {
            assert(d[i] == plans[i] && d[j] == plans[j]);
        }
        lemma_fresh_run(d, nodes);
        let before = table_run(d, nodes, Map::empty());
        let end = table_run(plans, nodes, Map::empty());
        assert(last == plans[plans.len() - 1]);
        if before.0.contains_key(last.id) {
            let i = choose|i: int| 0 <= i < d.len() && (#[trigger] d[i]).id == last.id;
            assert(d[i] == plans[i]);
            assert(false);
        }
        assert(end.0 == before.0.insert(last.id, last.shape));
        assert(end.1.drop_last() =~= before.1);
        assert forall|i: int| 0 <= i < plans.len() implies end.0.contains_key(
            (#[trigger] plans[i]).id,
        ) && end.0[plans[i].id] == plans[i].shape by {
            if i < d.len() {
                assert(d[i] == plans[i]);
            }
        }
        assert forall|id: Seq<char>| #[trigger] end.0.contains_key(id) implies exists|i: int|
            0 <= i < plans.len() && (#[trigger] plans[i]).id == id by {
            if id != last.id {
                assert(before.0.contains_key(id));
                let i = choose|i: int| 0 <= i < d.len() && (#[trigger] d[i]).id == id;
                assert(plans[i] == d[i]);
            }
        }
    }
}

/// A run over a table that holds every plan under its id and shape finds all of
/// them there.
proof fn lemma_settled_run(
    plans: Seq<PlanView>,
    nodes: Set<Seq<char>>,
    table: Map<Seq<char>, EdgeShape>,
)
    requires
        plans.len() <= u64::MAX,
        forall|i: int|
            0 <= i < plans.len() ==> (#[trigger] plans[i]).needs.subset_of(nodes) && plans[i].rows
                == 1 && table.contains_key(plans[i].id) && table[plans[i].id] == plans[i].shape,
    ensures
        table_run(plans, nodes, table).0 == table,
        tally_of(table_run(plans, nodes, table).1) == (Tally {
            inserted: 0,
            existing: plans.len() as u64,
            dangling: 0,
            mismatched: 0,
        }),
    decreases plans.len(),
{
    if plans.len() > 0 {
        let d = plans.drop_last();
        assert forall|i: int| 0 <= i < d.len() implies (#[trigger] d[i]).needs.subset_of(nodes)
            && d[i].rows == 1 && table.contains_key(d[i].id) && table[d[i].id] == d[i].shape by {
            assert(d[i] == plans[i]);
        }
        lemma_settled_run(d, nodes, table);
        assert(plans.last() == plans[plans.len() - 1]);
        assert(table_run(plans, nodes, table).1.drop_last() =~= table_run(d, nodes, table).1);
    }
}

/// Two runs over memory-entity links, with no edges before the first and all
/// nodes there. The first inserts an edge for every link, under its derived id
/// and with the kind and predicate of its role, and no other; the second inserts
/// none, counts every link as there, and leaves the edges as they are. The derived
/// ids of different links have to differ.
pub proof fn law_links_are_run_once(rows: Seq<MemoryEntityRow>, nodes: Set<Seq<char>>)
    requires
        rows.len() <= u64::MAX,
        forall|i: int|
            0 <= i < rows.len() ==> nodes.contains((#[trigger] rows[i]).memory_id@)
                && nodes.contains(rows[i].entity_id@),
        forall|i: int, j: int|
            0 <= i < j < rows.len() ==> link_plan(#[trigger] rows[i]).id != link_plan(
                #[trigger] rows[j],
            ).id,
    ensures
        ({
            let first = table_run(link_plans(rows), nodes, Map::empty());
            let second = table_run(link_plans(rows), nodes, first.0);
            &&& tally_of(first.1).inserted == rows.len()
            &&& weight(first.1) == rows.len()
            &&& second.0 == first.0
            &&& tally_of(second.1).inserted == 0
            &&& tally_of(second.1).existing == rows.len()
            &&& weight(second.1) == rows.len()
            &&& forall|i: int|
                0 <= i < rows.len() ==> first.0.contains_key(link_plan(#[trigger] rows[i]).id)
                    && first.0[link_plan(rows[i]).id] == identity::role_shape(rows[i].role@).0
            &&& forall|id: Seq<char>| #[trigger]
                first.0.contains_key(id) ==> exists|i: int|
                    0 <= i < rows.len() && link_plan(#[trigger] rows[i]).id == id
        }),
{
    let plans = link_plans(rows);
    assert forall|i: int| 0 <= i < plans.len() implies (#[trigger] plans[i]).needs.subset_of(nodes)
        && plans[i].rows == 1 by {
        assert(plans[i] == link_plan(rows[i]));
    }
    assert forall|i: int, j: int| 0 <= i < j < plans.len() implies (#[trigger] plans[i]).id != (
    #[trigger] plans[j]).id by {
        assert(plans[i] == link_plan(rows[i]) && plans[j] == link_plan(rows[j]));
    }
    lemma_fresh_run(plans, nodes);
    let first = table_run(plans, nodes, Map::empty());
    lemma_settled_run(plans, nodes, first.0);
    law_rerun_inserts_nothing(plans, nodes, Map::empty());
    assert forall|i: int| 0 <= i < rows.len() implies first.0.contains_key(
        link_plan(#[trigger] rows[i]).id,
    ) && first.0[link_plan(rows[i]).id] == identity::role_shape(rows[i].role@).0 by {
        assert(plans[i] == link_plan(rows[i]));
    }
    assert forall|id: Seq<char>| #[trigger] first.0.contains_key(id) implies exists|i: int|
        0 <= i < rows.len() && link_plan(#[trigger] rows[i]).id == id by {
        let i = choose|i: int| 0 <= i < plans.len() && (#[trigger] plans[i]).id == id;
        assert(plans[i] == link_plan(rows[i]));
        assert(link_plan(rows[i]).id == id);
    }
}

/// What a tally says of an outcome is the number of rows that had it, and the
/// rows of all outcomes make up the total.
pub proof fn law_tally_counts_rows(outcomes: Seq<Counted>)
    requires
        weight(outcomes) <= u64::MAX,
    ensures
        tally_of(outcomes).inserted == weight(
            outcomes.filter(|c: Counted| c.0 == RowOutcome::Inserted),
        ),
        tally_of(outcomes).existing == weight(
            outcomes.filter(|c: Counted| c.0 == RowOutcome::Existing),
        ),
        tally_of(outcomes).dangling == weight(
            outcomes.filter(|c: Counted| c.0 == RowOutcome::Dangling),
        ),
        tally_of(outcomes).mismatched == weight(
            outcomes.filter(|c: Counted| c.0 == RowOutcome::Mismatched),
        ),
        tally_of(outcomes).skipped() == weight(outcomes) - tally_of(outcomes).inserted,
    decreases outcomes.len(),
{
    reveal(Seq::filter);
    lemma_weight_nonnegative(outcomes);
    if outcomes.len() > 0 {
        let d = outcomes.drop_last();
        lemma_weight_nonnegative(d);
        law_tally_counts_rows(d);
        lemma_tally(d);
        let f1 = d.filter(|c: Counted| c.0 == RowOutcome::Inserted);
        let f2 = d.filter(|c: Counted| c.0 == RowOutcome::Existing);
        let f3 = d.filter(|c: Counted| c.0 == RowOutcome::Dangling);
        let f4 = d.filter(|c: Counted| c.0 == RowOutcome::Mismatched);
        law_weight_adds_rows(f1, outcomes.last());
        law_weight_adds_rows(f2, outcomes.last());
        law_weight_adds_rows(f3, outcomes.last());
        law_weight_adds_rows(f4, outcomes.last());
    }
}

/// Every outcome counts for as many rows as it stands for.
pub proof fn law_weight_adds_rows(outcomes: Seq<Counted>, c: Counted)
    ensures
        weight(Seq::empty()) == 0,
        weight(outcomes.push(c)) == weight(outcomes) + c.1,
{
    assert(outcomes.push(c).drop_last() =~= outcomes);
}

/// Counting one row for each answer counts the answers with an outcome.
proof fn lemma_counts_answers<A>(answers: Seq<A>, f: spec_fn(A) -> RowOutcome)
    requires
        answers.len() <= u64::MAX,
    ensures
        ({
            let t = tally_of(answers.map_values(|a: A| (f(a), 1u64)));
            &&& t.inserted == answers.filter(|a: A| f(a) == RowOutcome::Inserted).len()
            &&& t.existing == answers.filter(|a: A| f(a) == RowOutcome::Existing).len()
            &&& t.dangling == answers.filter(|a: A| f(a) == RowOutcome::Dangling).len()
            &&& t.mismatched == answers.filter(|a: A| f(a) == RowOutcome::Mismatched).len()
        }),
        answers.filter(|a: A| f(a) == RowOutcome::Inserted).len() <= answers.len(),
        answers.filter(|a: A| f(a) == RowOutcome::Existing).len() <= answers.len(),
        answers.filter(|a: A| f(a) == RowOutcome::Dangling).len() <= answers.len(),
        answers.filter(|a: A| f(a) == RowOutcome::Mismatched).len() <= answers.len(),
    decreases answers.len(),
{
    reveal(Seq::filter);
    let all = answers.map_values(|a: A| (f(a), 1u64));
    if answers.len() > 0 {
        let d = answers.drop_last();
        lemma_counts_answers(d, f);
        assert(all.drop_last() =~= d.map_values(|a: A| (f(a), 1u64)));
        assert(all.last() == (f(answers.last()), 1u64));
    } else {
        assert(all =~= Seq::empty());
    }
}

/// Of the memories, those that were inserted are counted as inserted and the
/// others as skipped.
pub proof fn law_inserted_memories_are_counted(inserted: Seq<bool>)
    requires
        inserted.len() <= u64::MAX,
    ensures
        tally_of(plain_outcomes(inserted)).inserted == inserted.filter(|b: bool| b).len(),
        tally_of(plain_outcomes(inserted)).skipped() == inserted.filter(|b: bool| !b).len(),
{
    let f = |b: bool|
        if b {
            RowOutcome::Inserted
        } else {
            RowOutcome::Existing
        };
    lemma_counts_answers(inserted, f);
    assert(plain_outcomes(inserted) =~= inserted.map_values(|b: bool| (f(b), 1u64)));
    assert((|b: bool| f(b) == RowOutcome::Inserted) =~= (|b: bool| b));
    assert((|b: bool| f(b) == RowOutcome::Existing) =~= (|b: bool| !b));
    assert((|b: bool| f(b) == RowOutcome::Dangling) =~= (|b: bool| false));
    assert((|b: bool| f(b) == RowOutcome::Mismatched) =~= (|b: bool| false));
    lemma_none_kept(inserted);
}

proof fn lemma_none_kept<A>(v: Seq<A>)
    ensures
        v.filter(|a: A| false).len() == 0,
    decreases v.len(),
{
    reveal(Seq::filter);
    if v.len() > 0 {
        lemma_none_kept(v.drop_last());
    }
}

/// Of the embeddings, those whose memory has no node are left out, those that
/// were inserted are counted as such, and the others were there already; and a
/// time that could not be read counts only for an embedding that is kept.
pub proof fn law_embeddings_are_counted(answers: Seq<EmbeddingAnswer>)
    requires
        answers.len() <= u64::MAX,
    ensures
        ({
            let t = tally_of(embedding_outcomes(answers));
            &&& t.inserted == answers.filter(
                |a: EmbeddingAnswer| a.node_exists && a.inserted,
            ).len()
            &&& t.existing == answers.filter(
                |a: EmbeddingAnswer| a.node_exists && !a.inserted,
            ).len()
            &&& t.dangling == answers.filter(|a: EmbeddingAnswer| !a.node_exists).len()
            &&& t.mismatched == 0
        }),
        unread_times(answers) == answers.filter(
            |a: EmbeddingAnswer| a.node_exists && !a.time_read,
        ).len(),
{
    let f = |a: EmbeddingAnswer| embedding_outcome(a);
    lemma_counts_answers(answers, f);
    assert(embedding_outcomes(answers) =~= answers.map_values(
        |a: EmbeddingAnswer| (f(a), 1u64),
    ));
    assert((|a: EmbeddingAnswer| f(a) == RowOutcome::Inserted) =~= (|a: EmbeddingAnswer|
        a.node_exists && a.inserted));
    assert((|a: EmbeddingAnswer| f(a) == RowOutcome::Existing) =~= (|a: EmbeddingAnswer|
        a.node_exists && !a.inserted));
    assert((|a: EmbeddingAnswer| f(a) == RowOutcome::Dangling) =~= (|a: EmbeddingAnswer|
        !a.node_exists));
    assert((|a: EmbeddingAnswer| f(a) == RowOutcome::Mismatched) =~= (|a: EmbeddingAnswer| false));
    lemma_none_kept(answers);
    lemma_unread_times(answers);
}

proof fn lemma_unread_times(answers: Seq<EmbeddingAnswer>)
    ensures
        unread_times(answers) == answers.filter(
            |a: EmbeddingAnswer| a.node_exists && !a.time_read,
        ).len(),
    decreases answers.len(),
{
    reveal(Seq::filter);
    if answers.len() > 0 {
        lemma_unread_times(answers.drop_last());
    }
}

/// Of the rows that may be merged into what is there, those that lack an end are
/// left out, those that were inserted are counted as such, and the others were
/// there already: merged where what is there is of their kind, and counted as
/// foreign where it is of another. Metadata that could not be read count only
/// for a row that is kept.
pub proof fn law_merges_are_counted(answers: Seq<MergeAnswerView>, kind: Seq<char>)
    requires
        answers.len() <= u64::MAX,
    ensures
        ({
            let t = tally_of(merge_outcomes(answers));
            &&& t.inserted == answers.filter(
                |a: MergeAnswerView| a.endpoints_ok && a.inserted,
            ).len()
            &&& t.existing == answers.filter(
                |a: MergeAnswerView| a.endpoints_ok && !a.inserted,
            ).len()
            &&& t.dangling == answers.filter(|a: MergeAnswerView| !a.endpoints_ok).len()
            &&& t.mismatched == 0
        }),
        ({
            let c = merge_counts(answers, kind);
            &&& c.merged == answers.filter(
                |a: MergeAnswerView|
                    a.endpoints_ok && !a.inserted && a.existing_kind == Some(kind),
            ).len()
            &&& c.malformed == answers.filter(
                |a: MergeAnswerView| a.endpoints_ok && a.malformed,
            ).len()
            &&& c.foreign == answers.filter(
                |a: MergeAnswerView|
                    a.endpoints_ok && !a.inserted && (a.existing_kind matches Some(k)
                        && k != kind),
            ).len()
        }),
{
    let f = |a: MergeAnswerView| a.outcome();
    lemma_counts_answers(answers, f);
    assert(merge_outcomes(answers) =~= answers.map_values(|a: MergeAnswerView| (f(a), 1u64)));
    assert((|a: MergeAnswerView| f(a) == RowOutcome::Inserted) =~= (|a: MergeAnswerView|
        a.endpoints_ok && a.inserted));
    assert((|a: MergeAnswerView| f(a) == RowOutcome::Existing) =~= (|a: MergeAnswerView|
        a.endpoints_ok && !a.inserted));
    assert((|a: MergeAnswerView| f(a) == RowOutcome::Dangling) =~= (|a: MergeAnswerView|
        !a.endpoints_ok));
    assert((|a: MergeAnswerView| f(a) == RowOutcome::Mismatched) =~= (|a: MergeAnswerView| false));
    lemma_none_kept(answers);
    lemma_merge_counts(answers, kind);
}

proof fn lemma_merge_counts(answers: Seq<MergeAnswerView>, kind: Seq<char>)
    requires
        answers.len() <= u64::MAX,
    ensures
        ({
            let c = merge_counts(answers, kind);
            &&& c.merged == answers.filter(
                |a: MergeAnswerView|
                    a.endpoints_ok && !a.inserted && a.existing_kind == Some(kind),
            ).len()
            &&& c.malformed == answers.filter(
                |a: MergeAnswerView| a.endpoints_ok && a.malformed,
            ).len()
            &&& c.foreign == answers.filter(
                |a: MergeAnswerView|
                    a.endpoints_ok && !a.inserted && (a.existing_kind matches Some(k)
                        && k != kind),
            ).len()
        }),
        merge_counts(answers, kind).merged <= answers.len(),
        merge_counts(answers, kind).malformed <= answers.len(),
        merge_counts(answers, kind).foreign <= answers.len(),
    decreases answers.len(),
{
    reveal(Seq::filter);
    if answers.len() > 0 {
        lemma_merge_counts(answers.drop_last(), kind);
    }
}

/// An edge that was written counts as inserted. One that was not was there
/// already, unless what stands under its id has another shape.
pub proof fn law_edges_are_judged_by_shape(a: EdgeAnswer, wanted: EdgeShape)
    ensures
        a.outcome(wanted) == RowOutcome::Dangling <==> !a.endpoints_ok,
        a.outcome(wanted) == RowOutcome::Inserted <==> a.endpoints_ok && a.inserted,
        a.outcome(wanted) == RowOutcome::Mismatched <==> a.endpoints_ok && !a.inserted && (
        a.found matches Some(f) && (f.0@, f.1@) != wanted),
{
}

/// A role that is not known is folded into a mention: such rows are counted one
/// by one, and such roles once each.
pub proof fn law_unknown_roles_are_folded(roles: Seq<Seq<char>>)
    ensures
        folded_rows(roles) == roles.filter(
            |r: Seq<char>|
                r.len() > 0 && r != "mention"@ && r != "subject"@ && r != "object"@,
        ).len(),
        folded_roles(roles).no_duplicates(),
        forall|r: Seq<char>| #[trigger]
            folded_roles(roles).contains(r) <==> roles.contains(r) && r.len() > 0 && r
                != "mention"@ && r != "subject"@ && r != "object"@,
        role_samples(roles).len() == (if folded_roles(roles).len() < 10 {
            folded_roles(roles).len()
        } else {
            10
        }),
        forall|i: int|
            0 <= i < role_samples(roles).len() ==> #[trigger] role_samples(roles)[i]
                == folded_roles(roles)[i],
    decreases roles.len(),
{
    reveal(Seq::filter);
    let unknown = |r: Seq<char>|
        r.len() > 0 && r != "mention"@ && r != "subject"@ && r != "object"@;
    if roles.len() > 0 {
        let d = roles.drop_last();
        let last = roles.last();
        law_unknown_roles_are_folded(d);
        identity::law_roles_decide_the_link(last);
        assert(identity::role_shape(last).1 == unknown(last));
        let before = folded_roles(d);
        let all = folded_roles(roles);
        assert(roles[roles.len() - 1] == last);
        assert forall|r: Seq<char>| roles.contains(r) <==> (d.contains(r) || r == last) by {
            if d.contains(r) {
                let i = choose|i: int| 0 <= i < d.len() && d[i] == r;
                assert(roles[i] == r);
            }
            if roles.contains(r) && r != last {
                let i = choose|i: int| 0 <= i < roles.len() && roles[i] == r;
                assert(d[i] == r);
            }
        }
        assert(text::holds(before, last) <==> before.contains(last));
        if unknown(last) && !before.contains(last) {
            assert forall|r: Seq<char>| #[trigger]
                all.contains(r) <==> (before.contains(r) || r == last) by {
                if before.contains(r) {
                    let i = choose|i: int| 0 <= i < before.len() && before[i] == r;
                    assert(all[i] == r);
                }
                if all.contains(r) && r != last {
                    let i = choose|i: int| 0 <= i < all.len() && all[i] == r;
                    assert(before[i] == r);
                }
                assert(all[before.len() as int] == last);
            }
        }
    }
}

/// The link of a known role has no attributes; that of an unknown role keeps it.
pub proof fn law_link_keeps_unknown_role(role: Seq<char>)
    ensures
        role == "subject"@ || role == "object"@ || role == "mention"@ || role.len() == 0
            ==> link_attributes(role) == "{}"@,
        role != "subject"@ && role != "object"@ && role != "mention"@ && role.len() > 0
            ==> link_attributes(role) == json::json_object(
            seq![("legacy_role"@, json::json_string(role))],
        ),
{
    assert(role.len() == 0 ==> role =~= Seq::<char>::empty());
    identity::law_roles_decide_the_link(role);
}

/// Groups stand for as many rows as each of them together.
pub proof fn law_group_rows_add_up(groups: Seq<HebbianGroup>, g: HebbianGroup)
    ensures
        group_rows(Seq::empty()) == 0,
        group_rows(groups.push(g)) == group_rows(groups) + g.rows,
{
    assert(groups.push(g).drop_last() =~= groups);
}

/// The notes on the embeddings count those without a node, and those whose time
/// could not be read.
pub proof fn law_embedding_notes_count(namespace: Option<Seq<char>>, answers: Seq<EmbeddingAnswer>)
    requires
        answers.len() <= u64::MAX,
    ensures
        json::lookup(embedding_notes(namespace, answers), "namespace_filter"@) == Some(
            match namespace {
                Some(n) => json::json_string(n),
                None => "null"@,
            },
        ),
        json::lookup(embedding_notes(namespace, answers), "rows_skipped_missing_node"@) == Some(
            text::decimal(answers.filter(|a: EmbeddingAnswer| !a.node_exists).len()),
        ),
        json::lookup(embedding_notes(namespace, answers), "rows_failed_parse_used_now"@) == Some(
            text::decimal(
                answers.filter(|a: EmbeddingAnswer| a.node_exists && !a.time_read).len(),
            ),
        ),
{
    reveal_strlit("namespace_filter");
    reveal_strlit("driver");
    reveal_strlit("design_ref");
    reveal_strlit("rows_skipped_missing_node");
    reveal_strlit("rows_failed_parse_used_now");
    assert("namespace_filter"@.len() == 16);
    assert("driver"@.len() == 6);
    assert("design_ref"@.len() == 10);
    assert("rows_skipped_missing_node"@.len() == 25);
    assert("rows_failed_parse_used_now"@.len() == 26);
    let e = embedding_notes(namespace, answers);
    json::law_last_entry_counts(e, "namespace_filter"@, 0);
    json::law_last_entry_counts(e, "rows_skipped_missing_node"@, 3);
    json::law_last_entry_counts(e, "rows_failed_parse_used_now"@, 4);
    law_embeddings_are_counted(answers);
}

/// The notes on the entities count those merged into a node, those whose metadata
/// could not be read, and those whose id belongs to a node of another kind.
pub proof fn law_entity_notes_count(namespace: Option<Seq<char>>, answers: Seq<MergeAnswerView>)
    requires
        answers.len() <= u64::MAX,
    ensures
        json::lookup(entity_notes(namespace, answers), "namespace_filter"@) == Some(
            match namespace {
                Some(n) => json::json_string(n),
                None => "null"@,
            },
        ),
        json::lookup(entity_notes(namespace, answers), "rows_metadata_merged"@) == Some(
            text::decimal(
                answers.filter(
                    |a: MergeAnswerView|
                        a.endpoints_ok && !a.inserted && a.existing_kind == Some("entity"@),
                ).len(),
            ),
        ),
        json::lookup(entity_notes(namespace, answers), "rows_malformed_metadata"@) == Some(
            text::decimal(
                answers.filter(|a: MergeAnswerView| a.endpoints_ok && a.malformed).len(),
            ),
        ),
        json::lookup(entity_notes(namespace, answers), "rows_kind_mismatch"@) == Some(
            text::decimal(
                answers.filter(
                    |a: MergeAnswerView|
                        a.endpoints_ok && !a.inserted && (a.existing_kind matches Some(k)
                            && k != "entity"@),
                ).len(),
            ),
        ),
{
    reveal_strlit("namespace_filter");
    reveal_strlit("driver");
    reveal_strlit("design_ref");
    reveal_strlit("rows_metadata_merged");
    reveal_strlit("rows_malformed_metadata");
    reveal_strlit("rows_kind_mismatch");
    assert("namespace_filter"@.len() == 16);
    assert("driver"@.len() == 6);
    assert("design_ref"@.len() == 10);
    assert("rows_metadata_merged"@.len() == 20);
    assert("rows_malformed_metadata"@.len() == 23);
    assert("rows_kind_mismatch"@.len() == 18);
    let e = entity_notes(namespace, answers);
    json::law_last_entry_counts(e, "namespace_filter"@, 0);
    json::law_last_entry_counts(e, "rows_metadata_merged"@, 3);
    json::law_last_entry_counts(e, "rows_malformed_metadata"@, 4);
    json::law_last_entry_counts(e, "rows_kind_mismatch"@, 5);
    law_merges_are_counted(answers, "entity"@);
    let kind = "entity"@;
    assert((|a: MergeAnswerView|
        a.endpoints_ok && !a.inserted && a.existing_kind == Some(kind)) =~= (|a: MergeAnswerView|
        a.endpoints_ok && !a.inserted && a.existing_kind == Some("entity"@)));
    assert((|a: MergeAnswerView|
        a.endpoints_ok && !a.inserted && (a.existing_kind matches Some(k) && k != kind)) =~= (|
        a: MergeAnswerView,
    |
        a.endpoints_ok && !a.inserted && (a.existing_kind matches Some(k) && k != "entity"@)));
}

/// The notes on the relations count those merged into an edge, those whose
/// metadata could not be read, those that lack an end, and those whose id belongs
/// to an edge of another kind.
pub proof fn law_relation_notes_count(namespace: Option<Seq<char>>, answers: Seq<MergeAnswerView>)
    requires
        answers.len() <= u64::MAX,
    ensures
        json::lookup(relation_notes(namespace, answers), "namespace_filter"@) == Some(
            match namespace {
                Some(n) => json::json_string(n),
                None => "null"@,
            },
        ),
        json::lookup(relation_notes(namespace, answers), "rows_metadata_merged"@) == Some(
            text::decimal(
                answers.filter(
                    |a: MergeAnswerView|
                        a.endpoints_ok && !a.inserted && a.existing_kind == Some("structural"@),
                ).len(),
            ),
        ),
        json::lookup(relation_notes(namespace, answers), "rows_malformed_metadata"@) == Some(
            text::decimal(
                answers.filter(|a: MergeAnswerView| a.endpoints_ok && a.malformed).len(),
            ),
        ),
        json::lookup(relation_notes(namespace, answers), "rows_skipped_dangling_endpoint"@) == Some(
            text::decimal(answers.filter(|a: MergeAnswerView| !a.endpoints_ok).len()),
        ),
        json::lookup(relation_notes(namespace, answers), "rows_existing_kind_mismatch"@) == Some(
            text::decimal(
                answers.filter(
                    |a: MergeAnswerView|
                        a.endpoints_ok && !a.inserted && (a.existing_kind matches Some(k)
                            && k != "structural"@),
                ).len(),
            ),
        ),
{
    reveal_strlit("namespace_filter");
    reveal_strlit("driver");
    reveal_strlit("design_ref");
    reveal_strlit("rows_metadata_merged");
    reveal_strlit("rows_malformed_metadata");
    reveal_strlit("rows_skipped_dangling_endpoint");
    reveal_strlit("rows_existing_kind_mismatch");
    assert("namespace_filter"@.len() == 16);
    assert("driver"@.len() == 6);
    assert("design_ref"@.len() == 10);
    assert("rows_metadata_merged"@.len() == 20);
    assert("rows_malformed_metadata"@.len() == 23);
    assert("rows_skipped_dangling_endpoint"@.len() == 30);
    assert("rows_existing_kind_mismatch"@.len() == 27);
    let e = relation_notes(namespace, answers);
    json::law_last_entry_counts(e, "namespace_filter"@, 0);
    json::law_last_entry_counts(e, "rows_metadata_merged"@, 3);
    json::law_last_entry_counts(e, "rows_malformed_metadata"@, 4);
    json::law_last_entry_counts(e, "rows_skipped_dangling_endpoint"@, 5);
    json::law_last_entry_counts(e, "rows_existing_kind_mismatch"@, 6);
    law_merges_are_counted(answers, "structural"@);
    let kind = "structural"@;
    assert((|a: MergeAnswerView|
        a.endpoints_ok && !a.inserted && a.existing_kind == Some(kind)) =~= (|a: MergeAnswerView|
        a.endpoints_ok && !a.inserted && a.existing_kind == Some("structural"@)));
    assert((|a: MergeAnswerView|
        a.endpoints_ok && !a.inserted && (a.existing_kind matches Some(k) && k != kind)) =~= (|
        a: MergeAnswerView,
    |
        a.endpoints_ok && !a.inserted && (a.existing_kind matches Some(k) && k != "structural"@)));
}

/// The notes on the links of memories count those that lack an end and those of
/// another shape, and tell of the roles that are not known.
pub proof fn law_link_notes_count(
    namespace: Option<Seq<char>>,
    rows: Seq<MemoryEntityRow>,
    answers: Seq<EdgeAnswer>,
)
    ensures
        json::lookup(link_notes(namespace, rows, answers), "namespace_filter"@) == Some(
            match namespace {
                Some(n) => json::json_string(n),
                None => "null"@,
            },
        ),
        json::lookup(link_notes(namespace, rows, answers), "rows_skipped_dangling_endpoint"@) == Some(
            text::decimal(tally_of(link_outcomes(rows, answers)).dangling as nat),
        ),
        json::lookup(link_notes(namespace, rows, answers), "rows_skipped_mismatched_kind"@) == Some(
            text::decimal(tally_of(link_outcomes(rows, answers)).mismatched as nat),
        ),
        json::lookup(link_notes(namespace, rows, answers), "rows_normalized_legacy_role"@) == Some(
            text::decimal(folded_rows(roles_of(rows))),
        ),
        json::lookup(link_notes(namespace, rows, answers), "unknown_role_samples"@) == Some(
            json::json_array(json::string_texts(role_samples(roles_of(rows)))),
        ),
        json::lookup(link_notes(namespace, rows, answers), "unknown_role_samples_truncated"@) == Some(
            if folded_roles(roles_of(rows)).len() > 10 {
                "true"@
            } else {
                "false"@
            },
        ),
        json::lookup(link_notes(namespace, rows, answers), "unknown_role_distinct_count"@) == Some(
            text::decimal(folded_roles(roles_of(rows)).len()),
        ),
{
    reveal_strlit("namespace_filter");
    reveal_strlit("driver");
    reveal_strlit("design_ref");
    reveal_strlit("rows_skipped_dangling_endpoint");
    reveal_strlit("rows_skipped_mismatched_kind");
    reveal_strlit("rows_normalized_legacy_role");
    reveal_strlit("unknown_role_samples");
    reveal_strlit("unknown_role_samples_truncated");
    reveal_strlit("unknown_role_distinct_count");
    assert("namespace_filter"@.len() == 16);
    assert("driver"@.len() == 6);
    assert("design_ref"@.len() == 10);
    assert("rows_skipped_dangling_endpoint"@.len() == 30);
    assert("rows_skipped_mismatched_kind"@.len() == 28);
    assert("rows_normalized_legacy_role"@.len() == 27);
    assert("unknown_role_samples"@.len() == 20);
    assert("unknown_role_samples_truncated"@.len() == 30);
    assert("unknown_role_distinct_count"@.len() == 27);
    assert("rows_skipped_dangling_endpoint"@[0] == 'r' && "unknown_role_samples_truncated"@[0] == 'u');
    assert("rows_normalized_legacy_role"@[0] == 'r' && "unknown_role_distinct_count"@[0] == 'u');
    let e = link_notes(namespace, rows, answers);
    json::law_last_entry_counts(e, "namespace_filter"@, 0);
    json::law_last_entry_counts(e, "rows_skipped_dangling_endpoint"@, 3);
    json::law_last_entry_counts(e, "rows_skipped_mismatched_kind"@, 4);
    json::law_last_entry_counts(e, "rows_normalized_legacy_role"@, 5);
    json::law_last_entry_counts(e, "unknown_role_samples"@, 6);
    json::law_last_entry_counts(e, "unknown_role_samples_truncated"@, 7);
    json::law_last_entry_counts(e, "unknown_role_distinct_count"@, 8);
}

/// The notes on the groups of links count the groups, the pairs that were merged,
/// and the rows left out.
pub proof fn law_group_notes_count(
    namespace: Option<Seq<char>>,
    merged: u64,
    groups: Seq<HebbianGroup>,
    answers: Seq<EdgeAnswer>,
)
    ensures
        json::lookup(hebbian_notes(namespace, merged, groups, answers), "namespace_filter"@) == Some(
            match namespace {
                Some(n) => json::json_string(n),
                None => "null"@,
            },
        ),
        json::lookup(hebbian_notes(namespace, merged, groups, answers), "groups_processed"@) == Some(
            text::decimal(groups.len()),
        ),
        json::lookup(hebbian_notes(namespace, merged, groups, answers), "merged_collision_pairs"@) == Some(
            text::decimal(merged as nat),
        ),
        json::lookup(hebbian_notes(namespace, merged, groups, answers), "rows_skipped_dangling_endpoint"@) == Some(
            text::decimal(tally_of(group_outcomes(groups, answers)).dangling as nat),
        ),
        json::lookup(hebbian_notes(namespace, merged, groups, answers), "rows_skipped_mismatched_kind"@) == Some(
            text::decimal(tally_of(group_outcomes(groups, answers)).mismatched as nat),
        ),
{
    reveal_strlit("namespace_filter");
    reveal_strlit("driver");
    reveal_strlit("design_ref");
    reveal_strlit("groups_processed");
    reveal_strlit("merged_collision_pairs");
    reveal_strlit("rows_skipped_dangling_endpoint");
    reveal_strlit("rows_skipped_mismatched_kind");
    assert("namespace_filter"@.len() == 16);
    assert("driver"@.len() == 6);
    assert("design_ref"@.len() == 10);
    assert("groups_processed"@.len() == 16);
    assert("merged_collision_pairs"@.len() == 22);
    assert("rows_skipped_dangling_endpoint"@.len() == 30);
    assert("rows_skipped_mismatched_kind"@.len() == 28);
    assert("namespace_filter"@[0] == 'n' && "groups_processed"@[0] == 'g');
    let e = hebbian_notes(namespace, merged, groups, answers);
    json::law_last_entry_counts(e, "namespace_filter"@, 0);
    json::law_last_entry_counts(e, "groups_processed"@, 3);
    json::law_last_entry_counts(e, "merged_collision_pairs"@, 4);
    json::law_last_entry_counts(e, "rows_skipped_dangling_endpoint"@, 5);
    json::law_last_entry_counts(e, "rows_skipped_mismatched_kind"@, 6);
}

/// The notes on the provenance records count those that lack an end and those of
/// another shape.
pub proof fn law_provenance_notes_count(namespace: Option<Seq<char>>, answers: Seq<EdgeAnswer>)
    requires
        answers.len() <= u64::MAX,
    ensures
        json::lookup(provenance_notes(namespace, answers), "namespace_filter"@) == Some(
            match namespace {
                Some(n) => json::json_string(n),
                None => "null"@,
            },
        ),
        json::lookup(provenance_notes(namespace, answers), "rows_skipped_dangling_endpoint"@) == Some(
            text::decimal(
                answers.filter(|a: EdgeAnswer| !a.endpoints_ok).len(),
            ),
        ),
        json::lookup(provenance_notes(namespace, answers), "rows_skipped_mismatched_kind"@) == Some(
            text::decimal(
                answers.filter(
                    |a: EdgeAnswer|
                        a.endpoints_ok && !a.inserted && (a.found matches Some(f) && (f.0@, f.1@)
                            != ("provenance"@, "derived_from"@)),
                ).len(),
            ),
        ),
{
    reveal_strlit("namespace_filter");
    reveal_strlit("driver");
    reveal_strlit("design_ref");
    reveal_strlit("rows_skipped_dangling_endpoint");
    reveal_strlit("rows_skipped_mismatched_kind");
    reveal_strlit("confidence_policy");
    assert("namespace_filter"@.len() == 16);
    assert("driver"@.len() == 6);
    assert("design_ref"@.len() == 10);
    assert("rows_skipped_dangling_endpoint"@.len() == 30);
    assert("rows_skipped_mismatched_kind"@.len() == 28);
    assert("confidence_policy"@.len() == 17);
    let e = provenance_notes(namespace, answers);
    json::law_last_entry_counts(e, "namespace_filter"@, 0);
    json::law_last_entry_counts(e, "rows_skipped_dangling_endpoint"@, 3);
    json::law_last_entry_counts(e, "rows_skipped_mismatched_kind"@, 4);
    json::law_last_entry_counts(e, "confidence_policy"@, 5);
    let f = |a: EdgeAnswer| a.outcome(("provenance"@, "derived_from"@));
    lemma_counts_answers(answers, f);
    assert(provenance_outcomes(answers) =~= answers.map_values(|a: EdgeAnswer| (f(a), 1u64)));
    assert((|a: EdgeAnswer| f(a) == RowOutcome::Dangling) =~= (|a: EdgeAnswer| !a.endpoints_ok));
    assert((|a: EdgeAnswer| f(a) == RowOutcome::Mismatched) =~= (|a: EdgeAnswer|
        a.endpoints_ok && !a.inserted && (a.found matches Some(f) && (f.0@, f.1@) != (
            "provenance"@,
            "derived_from"@,
        ))));
}

/// The attributes of a co-activation edge keep the signal and the sums of its
/// group, and the details and directions that its rows have, each once.
pub proof fn law_group_attributes_tell_the_group(g: HebbianGroup)
    ensures
        json::lookup(hebbian_attributes(g), "signal_source"@) == Some(
            json::json_string(g.signal_source@),
        ),
        json::lookup(hebbian_attributes(g), "signal_detail"@) == Some(
            packed(text::sorted_set(text::pieces(g.details@, ',')), ""@),
        ),
        json::lookup(hebbian_attributes(g), "coactivation_count"@) == Some(
            text::signed_decimal(g.coactivation_count as int),
        ),
        json::lookup(hebbian_attributes(g), "temporal_forward"@) == Some(
            text::signed_decimal(g.temporal_forward as int),
        ),
        json::lookup(hebbian_attributes(g), "temporal_backward"@) == Some(
            text::signed_decimal(g.temporal_backward as int),
        ),
        json::lookup(hebbian_attributes(g), "direction"@) == Some(
            packed(text::sorted_set(text::pieces(g.directions@, ',')), "bidirectional"@),
        ),
{
    reveal_strlit("signal_source");
    reveal_strlit("signal_detail");
    reveal_strlit("coactivation_count");
    reveal_strlit("temporal_forward");
    reveal_strlit("temporal_backward");
    reveal_strlit("direction");
    assert("signal_source"@.len() == 13);
    assert("signal_detail"@.len() == 13);
    assert("coactivation_count"@.len() == 18);
    assert("temporal_forward"@.len() == 16);
    assert("temporal_backward"@.len() == 17);
    assert("direction"@.len() == 9);
    assert("signal_source"@[7] == 's' && "signal_detail"@[7] == 'd');
    let e = hebbian_attributes(g);
    json::law_last_entry_counts(e, "signal_source"@, 0);
    json::law_last_entry_counts(e, "signal_detail"@, 1);
    json::law_last_entry_counts(e, "coactivation_count"@, 2);
    json::law_last_entry_counts(e, "temporal_forward"@, 3);
    json::law_last_entry_counts(e, "temporal_backward"@, 4);
    json::law_last_entry_counts(e, "direction"@, 5);
}

/// One value is kept as a text, several as a list of texts, and where there is
/// none a text stands in.
pub proof fn law_single_values_are_not_listed(v: Seq<char>, w: Seq<char>, fallback: Seq<char>)
    ensures
        packed(Seq::empty(), fallback) == json::json_string(fallback),
        packed(seq![v], fallback) == json::json_string(v),
        packed(seq![v, w], fallback) == json::json_array(
            seq![json::json_string(v), json::json_string(w)],
        ),
{
    assert(json::string_texts(seq![v, w]) =~= seq![json::json_string(v), json::json_string(w)]);
}

/// The attributes of a provenance edge keep the decision, the cluster and the
/// time of the record; the scores where there are some, and the importance where
/// it is known.
pub proof fn law_provenance_attributes_keep_the_record(p: ProvenanceRow)
    ensures
        json::lookup(provenance_attributes(p), "gate_decision"@) == Some(
            json::json_string(p.gate_decision@),
        ),
        json::lookup(provenance_attributes(p), "cluster_id"@) == Some(
            json::json_string(p.cluster_id@),
        ),
        json::lookup(provenance_attributes(p), "synthesis_timestamp"@) == Some(
            json::json_string(p.synthesis_timestamp@),
        ),
        json::lookup(provenance_attributes(p), "gate_scores"@) == (match p.gate_scores {
            Some(t) => if t@.len() == 0 {
                None
            } else {
                Some(
                    match json::json_canonical(t@) {
                        Some(c) => c,
                        None => json::json_string(t@),
                    },
                )
            },
            None => None,
        }),
        json::lookup(provenance_attributes(p), "source_original_importance"@) == (
        match p.source_original_importance {
            Some(t) => Some(t@),
            None => None,
        }),
{
    reveal_strlit("gate_decision");
    reveal_strlit("cluster_id");
    reveal_strlit("synthesis_timestamp");
    reveal_strlit("gate_scores");
    reveal_strlit("source_original_importance");
    assert("gate_decision"@.len() == 13);
    assert("cluster_id"@.len() == 10);
    assert("synthesis_timestamp"@.len() == 19);
    assert("gate_scores"@.len() == 11);
    assert("source_original_importance"@.len() == 26);
    let e = provenance_attributes(p);
    json::law_last_entry_counts(e, "gate_decision"@, 0);
    json::law_last_entry_counts(e, "cluster_id"@, 1);
    json::law_last_entry_counts(e, "synthesis_timestamp"@, 2);
    json::law_last_entry_counts(e, "gate_scores"@, 3);
    json::law_last_entry_counts(e, "source_original_importance"@, e.len() - 1);
}

/// A closed run counts its rows: all that had an outcome as read, those that were
/// inserted as such, and the others as skipped.
pub proof fn law_closed_runs_count_rows(
    r: ClosedRun,
    run_id: Seq<char>,
    table: Seq<char>,
    outcomes: Seq<Counted>,
    notes: attributes::Entries,
)
    requires
        weight(outcomes) <= u64::MAX,
        r.closes(run_id, table, tally_of(outcomes), notes),
    ensures
        r.run.run_id@ == run_id,
        r.run.legacy_table@ == table,
        r.run.rows_read == weight(outcomes),
        r.run.rows_inserted == weight(
            outcomes.filter(|c: Counted| c.0 == RowOutcome::Inserted),
        ),
        r.run.rows_skipped_existing == r.run.rows_read - r.run.rows_inserted,
        r.run.rows_failed == 0,
        r.notes@ == json::json_object(notes),
{
    law_tally_counts_rows(outcomes);
    lemma_tally(outcomes);
}

/// The attributes of a relation keep its source, and beside it the metadata.
pub proof fn law_relations_keep_their_source(
    source: Option<Seq<char>>,
    metadata: Option<Seq<char>>,
    key: Seq<char>,
)
    requires
        metadata matches Some(t) ==> (json::json_level(t) matches Some(json::JsonView::Object(m))
            ==> attributes::ascending(m)),
    ensures
        source matches Some(s) ==> json::lookup(
            relation_attributes(source, metadata),
            "source"@,
        ) == Some(json::json_string(s)),
        (source is None || key != "source"@) && (metadata matches Some(t) && json::json_level(t)
            matches Some(json::JsonView::Object(m))) ==> json::lookup(
            relation_attributes(source, metadata),
            key,
        ) == json::lookup((json::json_level(metadata->0)->0)->Object_0, key),
        metadata is None && source is None ==> relation_attributes(source, metadata).len() == 0,
{
    let seed = relation_seed(source);
    reveal_with_fuel(json::lookup, 2);
    match source {
        Some(s) => {
            assert(seed.drop_last() =~= Seq::<(Seq<char>, Seq<char>)>::empty());
        },
        None => {},
    }
    assert(attributes::ascending(seed)) by {
        assert(json::keys_of(seed).len() <= 1);
    }
    attributes::law_metadata_are_taken_over_or_reported(seed, metadata, key);
    match metadata {
        Some(t) => match json::json_level(t) {
            Some(json::JsonView::Object(m)) => {
                attributes::law_existing_wins(seed, m, "source"@);
            },
            _ => {},
        },
        None => {},
    }
}

} // verus!
