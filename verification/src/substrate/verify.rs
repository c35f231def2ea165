//! The parity verifier: what it counts, which rows it samples, and when its
//! report is clean.
//!
//! The checks read the database; here stand the queries that depend on a driver
//! and on the namespace, the judgements on what came back, and the report.

use crate::substrate::backfill::BackfillRun;
use crate::text;
use crate::text::join;
use rand::seq::SliceRandom;
use rand::SeedableRng;
use vstd::prelude::*;
use vstd::string::*;

verus! {

// ---------------------------------------------------------------------------
// Options and report
// ---------------------------------------------------------------------------

/// Options of the verifier.
#[derive(Debug, Clone)]
pub struct VerifyOpts {
    /// The namespace that the counts are restricted to.
    pub namespace: Option<String>,
    /// Rows sampled per driver; 0 turns the content check off.
    pub spot_check_sample_size: usize,
    /// The seed of the sample.
    pub spot_check_seed: u64,
    /// Whether the drivers are run again.
    pub check_idempotency: bool,
}

impl Default for VerifyOpts {
    /// Ten rows per driver with seed 0, every namespace, no second run.
    fn default() -> (r: Self)
        ensures
            r.namespace is None,
            r.spot_check_sample_size == 10,
            r.spot_check_seed == 0,
            !r.check_idempotency,
    {
        VerifyOpts {
            namespace: None,
            spot_check_sample_size: 10,
            spot_check_seed: 0,
            check_idempotency: false,
        }
    }
}

/// The row counts of one driver.
#[derive(Debug, Clone)]
pub struct DriverCounts {
    /// The legacy table.
    pub legacy_table: String,
    /// The unified table.
    pub unified_table: String,
    /// Rows in the legacy table.
    pub legacy_rows: u64,
    /// Rows that the driver produces in the unified table.
    pub unified_rows: u64,
    /// Whether the driver folds several legacy rows into one.
    pub merge_semantics: bool,
    /// Legacy rows less unified rows.
    pub delta: i64,
    /// Whether the counts fit.
    pub ok: bool,
    /// Whether the legacy count honours the namespace.
    pub legacy_ns_filter_applied: bool,
}

/// An edge whose endpoint is no node.
#[derive(Debug, Clone)]
pub struct FkViolation {
    /// The edge.
    pub edge_id: String,
    /// Its kind.
    pub edge_kind: String,
    /// The dangling side: `source` or `target`.
    pub side: &'static str,
    /// The missing node.
    pub missing_node_id: String,
}

/// A finished run whose counters do not add up.
#[derive(Debug, Clone)]
pub struct AuditViolation {
    /// The run.
    pub run_id: String,
    /// The legacy table of the run.
    pub legacy_table: String,
    /// Rows read.
    pub rows_read: u64,
    /// Rows inserted.
    pub rows_inserted: u64,
    /// Rows skipped.
    pub rows_skipped_existing: u64,
    /// Rows failed.
    pub rows_failed: u64,
    /// The sum of the last three.
    pub computed_sum: u64,
}

/// A field in which a legacy row and its projection disagree.
#[derive(Debug, Clone)]
pub struct ContentMismatch {
    /// The legacy table.
    pub legacy_table: String,
    /// The row.
    pub row_id: String,
    /// The field.
    pub field: String,
    /// The value on the legacy side.
    pub legacy: String,
    /// The value on the unified side.
    pub unified: String,
}

/// A driver that inserted rows when it was run again.
#[derive(Debug, Clone)]
pub struct IdempotencyViolation {
    /// The legacy table.
    pub legacy_table: String,
    /// Rows inserted by the second run.
    pub rows_inserted_on_rerun: u64,
    /// Rows read by the second run.
    pub rows_read_on_rerun: u64,
}

/// The result of a verification.
#[derive(Debug, Clone)]
pub struct VerificationReport {
    /// Counts per driver.
    pub counts: Vec<DriverCounts>,
    /// Runs whose counters do not add up.
    pub audit_violations: Vec<AuditViolation>,
    /// Drivers that inserted rows when run again.
    pub idempotency_violations: Vec<IdempotencyViolation>,
    /// Fields that disagree.
    pub content_mismatches: Vec<ContentMismatch>,
    /// Dangling edges.
    pub fk_violations: Vec<FkViolation>,
    /// Whether every check passed.
    pub ok: bool,
}

impl VerificationReport {
    /// Whether nothing in the report speaks against the projection.
    pub open spec fn clean(self) -> bool {
        &&& forall|i: int| 0 <= i < self.counts@.len() ==> (#[trigger] self.counts@[i]).ok
        &&& self.audit_violations@.len() == 0
        &&& self.content_mismatches@.len() == 0
        &&& self.idempotency_violations@.len() == 0
        &&& self.fk_violations@.len() == 0
    }

    /// Whether all of a report but its verdict is that of another.
    pub open spec fn same_findings(self, other: VerificationReport) -> bool {
        &&& self.counts == other.counts
        &&& self.audit_violations == other.audit_violations
        &&& self.content_mismatches == other.content_mismatches
        &&& self.idempotency_violations == other.idempotency_violations
        &&& self.fk_violations == other.fk_violations
    }

    /// Sets the verdict from what the report holds.
    pub fn recompute_ok(&mut self)
        ensures
            final(self).same_findings(*old(self)),
            final(self).ok == old(self).clean(),
    {
        let mut counts_ok: bool = true;
        let mut i: usize = 0;
        while i < self.counts.len()
            invariant
                i <= self.counts@.len(),
                self.same_findings(*old(self)),
                counts_ok == (forall|k: int|
                    0 <= k < i ==> (#[trigger] self.counts@[k]).ok),
            decreases self.counts.len() - i,
        {
            if !self.counts[i].ok {
                counts_ok = false;
            }
            i += 1;
        }
        self.ok = counts_ok && self.audit_violations.len() == 0 && self.content_mismatches.len()
            == 0 && self.idempotency_violations.len() == 0 && self.fk_violations.len() == 0;
    }
}

/// Puts the findings of the reading checks into a report. None of them runs a
/// driver again.
pub fn verify_phase_c_parity(
    counts: Vec<DriverCounts>,
    audit_violations: Vec<AuditViolation>,
    content_mismatches: Vec<ContentMismatch>,
    fk_violations: Vec<FkViolation>,
) -> (r: VerificationReport)
    ensures
        r.counts == counts,
        r.audit_violations == audit_violations,
        r.content_mismatches == content_mismatches,
        r.fk_violations == fk_violations,
        r.idempotency_violations@.len() == 0,
        r.ok == r.clean(),
{
    let mut report: VerificationReport = VerificationReport {
        counts,
        audit_violations,
        idempotency_violations: Vec::new(),
        content_mismatches,
        fk_violations,
        ok: false,
    };
    report.recompute_ok();
    report
}

/// The runs that inserted rows.
pub open spec fn inserting(runs: Seq<BackfillRun>) -> Seq<BackfillRun> {
    runs.filter(|r: BackfillRun| r.rows_inserted > 0)
}

/// What a violation says of a run.
pub open spec fn tells_of_rerun(v: IdempotencyViolation, r: BackfillRun) -> bool {
    &&& v.legacy_table@ == r.legacy_table@
    &&& v.rows_inserted_on_rerun == r.rows_inserted
    &&& v.rows_read_on_rerun == r.rows_read
}

/// The drivers whose second run inserted rows, in the order of the runs.
pub fn check_idempotency(runs: &Vec<BackfillRun>) -> (r: Vec<IdempotencyViolation>)
    ensures
        r@.len() == inserting(runs@).len(),
        forall|i: int|
            0 <= i < r@.len() ==> tells_of_rerun(#[trigger] r@[i], inserting(runs@)[i]),
{
    let mut out: Vec<IdempotencyViolation> = Vec::new();
    let mut i: usize = 0;
    assert(inserting(runs@.take(0)) =~= Seq::<BackfillRun>::empty());
    while i < runs.len()
        invariant
            i <= runs@.len(),
            out@.len() == inserting(runs@.take(i as int)).len(),
            forall|k: int|
                0 <= k < out@.len() ==> tells_of_rerun(
                    #[trigger] out@[k],
                    inserting(runs@.take(i as int))[k],
                ),
        decreases runs.len() - i,
    {
        proof {
            let f = |r: BackfillRun| r.rows_inserted > 0;
            assert(runs@.take(i + 1) =~= runs@.take(i as int).push(runs@[i as int]));
            runs@.take(i as int).lemma_filter_push(runs@[i as int], f);
        }
        if runs[i].rows_inserted > 0 {
            out.push(
                IdempotencyViolation {
                    legacy_table: runs[i].legacy_table.clone(),
                    rows_inserted_on_rerun: runs[i].rows_inserted,
                    rows_read_on_rerun: runs[i].rows_read,
                },
            );
        }
        i += 1;
    }
    assert(runs@.take(runs@.len() as int) =~= runs@);
    out
}

/// Adds the findings of a second run of the drivers to a report.
pub fn verify_phase_c_parity_mut(report: VerificationReport, runs: &Vec<BackfillRun>) -> (r:
    VerificationReport)
    ensures
        r.counts == report.counts,
        r.audit_violations == report.audit_violations,
        r.content_mismatches == report.content_mismatches,
        r.fk_violations == report.fk_violations,
        r.idempotency_violations@.len() == inserting(runs@).len(),
        forall|i: int|
            0 <= i < r.idempotency_violations@.len() ==> tells_of_rerun(
                #[trigger] r.idempotency_violations@[i],
                inserting(runs@)[i],
            ),
        r.ok == r.clean(),
{
    let mut out: VerificationReport = report;
    out.idempotency_violations = check_idempotency(runs);
    out.recompute_ok();
    out
}

// ---------------------------------------------------------------------------
// Count parity
// ---------------------------------------------------------------------------

/// Which unified rows belong to a driver.
#[derive(Debug)]
pub enum Fingerprint {
    /// Nodes of one kind.
    NodeKind {
        /// The kind.
        value: &'static str,
    },
    /// Every node embedding.
    PlainTable,
    /// Edges of one kind with one of some predicates.
    EdgeKindPredicateIn {
        /// The kind.
        kind: &'static str,
        /// The predicates.
        predicates: Vec<String>,
    },
    /// Edges of one kind with none of some predicates.
    EdgeKindMinusPredicates {
        /// The kind.
        kind: &'static str,
        /// The predicates.
        exclude: Vec<String>,
    },
    /// The edges of two fingerprints.
    Union(Box<Fingerprint>, Box<Fingerprint>),
}

/// The model of a [`Fingerprint`].
pub enum FingerprintView {
    /// Nodes of one kind.
    NodeKind(Seq<char>),
    /// Every node embedding.
    PlainTable,
    /// Edges of one kind with one of some predicates.
    PredicateIn(Seq<char>, Seq<Seq<char>>),
    /// Edges of one kind with none of some predicates.
    MinusPredicates(Seq<char>, Seq<Seq<char>>),
    /// The edges of two fingerprints.
    Union(Box<FingerprintView>, Box<FingerprintView>),
}

impl Fingerprint {
    /// The model of the fingerprint.
    pub open spec fn model(self) -> FingerprintView
        decreases self,
    {
        match self {
            Fingerprint::NodeKind { value } => FingerprintView::NodeKind(value@),
            Fingerprint::PlainTable => FingerprintView::PlainTable,
            Fingerprint::EdgeKindPredicateIn { kind, predicates } => FingerprintView::PredicateIn(
                kind@,
                text::views(predicates@),
            ),
            Fingerprint::EdgeKindMinusPredicates {
                kind,
                exclude,
            } => FingerprintView::MinusPredicates(kind@, text::views(exclude@)),
            Fingerprint::Union(a, b) => FingerprintView::Union(
                Box::new(a.model()),
                Box::new(b.model()),
            ),
        }
    }
}

/// What the verifier knows of a driver.
#[derive(Debug)]
pub struct DriverSpec {
    /// The legacy table.
    pub legacy_table: &'static str,
    /// The unified table.
    pub unified_table: &'static str,
    /// Its rows in the unified table.
    pub fingerprint: Fingerprint,
    /// Whether it folds several legacy rows into one.
    pub merge_semantics: bool,
    /// Whether the legacy table has a namespace column.
    pub legacy_has_namespace: bool,
}

/// The model of a [`DriverSpec`].
pub struct DriverSpecView {
    /// The legacy table.
    pub legacy_table: Seq<char>,
    /// The unified table.
    pub unified_table: Seq<char>,
    /// Its rows in the unified table.
    pub fingerprint: FingerprintView,
    /// Whether it folds several legacy rows into one.
    pub merge_semantics: bool,
    /// Whether the legacy table has a namespace column.
    pub legacy_has_namespace: bool,
}

impl View for DriverSpec {
    type V = DriverSpecView;

    open spec fn view(&self) -> DriverSpecView {
        DriverSpecView {
            legacy_table: self.legacy_table@,
            unified_table: self.unified_table@,
            fingerprint: self.fingerprint.model(),
            merge_semantics: self.merge_semantics,
            legacy_has_namespace: self.legacy_has_namespace,
        }
    }
}

/// The predicates of edges that link a memory to an entity in a role.
pub open spec fn role_predicates() -> Seq<Seq<char>> {
    seq!["subject_of"@, "object_of"@]
}

/// The predicates of edges that link a memory to an entity in a role.
pub fn role_predicate_list() -> (r: Vec<String>)
    ensures
        text::views(r@) == role_predicates(),
{
    let mut v: Vec<String> = Vec::new();
    v.push("subject_of".to_owned());
    v.push("object_of".to_owned());
    assert(text::views(v@) =~= role_predicates());
    v
}

fn one_predicate(p: &str) -> (r: Vec<String>)
    ensures
        text::views(r@) == seq![p@],
{
    let mut v: Vec<String> = Vec::new();
    v.push(p.to_owned());
    assert(text::views(v@) =~= seq![p@]);
    v
}

/// The model of the driver at position `i`.
pub open spec fn driver_at(i: int) -> DriverSpecView {
    if i == 0 {
        DriverSpecView {
            legacy_table: "memories"@,
            unified_table: "nodes"@,
            fingerprint: FingerprintView::NodeKind("memory"@),
            merge_semantics: false,
            legacy_has_namespace: true,
        }
    } else if i == 1 {
        DriverSpecView {
            legacy_table: "memory_embeddings"@,
            unified_table: "node_embeddings"@,
            fingerprint: FingerprintView::PlainTable,
            merge_semantics: false,
            legacy_has_namespace: false,
        }
    } else if i == 2 {
        DriverSpecView {
            legacy_table: "entities"@,
            unified_table: "nodes"@,
            fingerprint: FingerprintView::NodeKind("entity"@),
            merge_semantics: false,
            legacy_has_namespace: true,
        }
    } else if i == 3 {
        DriverSpecView {
            legacy_table: "entity_relations"@,
            unified_table: "edges"@,
            fingerprint: FingerprintView::MinusPredicates("structural"@, role_predicates()),
            merge_semantics: true,
            legacy_has_namespace: true,
        }
    } else if i == 4 {
        DriverSpecView {
            legacy_table: "memory_entities"@,
            unified_table: "edges"@,
            fingerprint: FingerprintView::Union(
                Box::new(FingerprintView::PredicateIn("provenance"@, seq!["mentions"@])),
                Box::new(FingerprintView::PredicateIn("structural"@, role_predicates())),
            ),
            merge_semantics: true,
            legacy_has_namespace: false,
        }
    } else if i == 5 {
        DriverSpecView {
            legacy_table: "hebbian_links"@,
            unified_table: "edges"@,
            fingerprint: FingerprintView::PredicateIn("associative"@, seq!["co_activated"@]),
            merge_semantics: true,
            legacy_has_namespace: true,
        }
    } else {
        DriverSpecView {
            legacy_table: "synthesis_provenance"@,
            unified_table: "edges"@,
            fingerprint: FingerprintView::PredicateIn("provenance"@, seq!["derived_from"@]),
            merge_semantics: false,
            legacy_has_namespace: false,
        }
    }
}

/// What tells a row of the unified tables to be a driver's.
pub enum UnifiedRow {
    /// A node, by its kind.
    Node(Seq<char>),
    /// A node embedding.
    Embedding,
    /// An edge, by its kind and its predicate.
    Edge(Seq<char>, Seq<char>),
}

/// Whether a row belongs to a fingerprint.
pub open spec fn belongs(row: UnifiedRow, f: FingerprintView) -> bool
    decreases f,
{
    match f {
        FingerprintView::NodeKind(value) => row == UnifiedRow::Node(value),
        FingerprintView::PlainTable => row is Embedding,
        FingerprintView::PredicateIn(
            kind,
            predicates,
        ) => row matches UnifiedRow::Edge(k, p) && k == kind && text::holds(predicates, p),
        FingerprintView::MinusPredicates(
            kind,
            exclude,
        ) => row matches UnifiedRow::Edge(k, p) && k == kind && !text::holds(exclude, p),
        FingerprintView::Union(a, b) => belongs(row, *a) || belongs(row, *b),
    }
}

/// No row of the unified tables belongs to the fingerprints of two drivers: what
/// one driver wrote is never counted as another's.
pub proof fn law_fingerprints_are_disjoint(row: UnifiedRow, i: int, j: int)
    requires
        0 <= i < 7,
        0 <= j < 7,
        belongs(row, driver_at(i).fingerprint),
        belongs(row, driver_at(j).fingerprint),
    ensures
        i == j,
{
    reveal_strlit("memory");
    reveal_strlit("entity");
    reveal_strlit("structural");
    reveal_strlit("provenance");
    reveal_strlit("associative");
    reveal_strlit("mentions");
    reveal_strlit("derived_from");
    assert("memory"@[0] != "entity"@[0]);
    assert("structural"@[0] != "provenance"@[0]);
    assert("structural"@.len() != "associative"@.len());
    assert("provenance"@.len() != "associative"@.len());
    assert("mentions"@.len() != "derived_from"@.len());
    reveal_with_fuel(belongs, 2);
}

/// The seven drivers, in the order in which they are verified.
pub fn driver_specs() -> (r: Vec<DriverSpec>)
    ensures
        r@.len() == 7,
        forall|i: int| 0 <= i < 7 ==> (#[trigger] r@[i])@ == driver_at(i),
{
    let mut v: Vec<DriverSpec> = Vec::new();
    v.push(
        DriverSpec {
            legacy_table: "memories",
            unified_table: "nodes",
            fingerprint: Fingerprint::NodeKind { value: "memory" },
            merge_semantics: false,
            legacy_has_namespace: true,
        },
    );
    v.push(
        DriverSpec {
            legacy_table: "memory_embeddings",
            unified_table: "node_embeddings",
            fingerprint: Fingerprint::PlainTable,
            merge_semantics: false,
            legacy_has_namespace: false,
        },
    );
    v.push(
        DriverSpec {
            legacy_table: "entities",
            unified_table: "nodes",
            fingerprint: Fingerprint::NodeKind { value: "entity" },
            merge_semantics: false,
            legacy_has_namespace: true,
        },
    );
    v.push(
        DriverSpec {
            legacy_table: "entity_relations",
            unified_table: "edges",
            fingerprint: Fingerprint::EdgeKindMinusPredicates {
                kind: "structural",
                exclude: role_predicate_list(),
            },
            merge_semantics: true,
            legacy_has_namespace: true,
        },
    );
    let mentions: Fingerprint = Fingerprint::EdgeKindPredicateIn {
        kind: "provenance",
        predicates: one_predicate("mentions"),
    };
    let roles: Fingerprint = Fingerprint::EdgeKindPredicateIn {
        kind: "structural",
        predicates: role_predicate_list(),
    };
    proof {
        reveal_with_fuel(Fingerprint::model, 2);
    }
    v.push(
        DriverSpec {
            legacy_table: "memory_entities",
            unified_table: "edges",
            fingerprint: Fingerprint::Union(Box::new(mentions), Box::new(roles)),
            merge_semantics: true,
            legacy_has_namespace: false,
        },
    );
    v.push(
        DriverSpec {
            legacy_table: "hebbian_links",
            unified_table: "edges",
            fingerprint: Fingerprint::EdgeKindPredicateIn {
                kind: "associative",
                predicates: one_predicate("co_activated"),
            },
            merge_semantics: true,
            legacy_has_namespace: true,
        },
    );
    v.push(
        DriverSpec {
            legacy_table: "synthesis_provenance",
            unified_table: "edges",
            fingerprint: Fingerprint::EdgeKindPredicateIn {
                kind: "provenance",
                predicates: one_predicate("derived_from"),
            },
            merge_semantics: false,
            legacy_has_namespace: false,
        },
    );
    v
}

/// Whether the legacy count of a driver honours the namespace asked for.
pub open spec fn filter_applied(with_namespace: bool, legacy_has_namespace: bool) -> bool {
    !with_namespace || legacy_has_namespace
}

/// Whether the counts of a driver fit: where the legacy side could not be
/// filtered they say nothing; a merging driver may have fewer unified rows; any
/// other must have as many.
pub open spec fn counts_fit(
    applied: bool,
    merge_semantics: bool,
    legacy_rows: u64,
    unified_rows: u64,
) -> bool {
    if !applied {
        true
    } else if merge_semantics {
        legacy_rows >= unified_rows
    } else {
        legacy_rows == unified_rows
    }
}

/// Judges the counts of a driver.
pub fn driver_count(
    spec: &DriverSpec,
    with_namespace: bool,
    legacy_rows: u64,
    unified_rows: u64,
) -> (r: DriverCounts)
    requires
        legacy_rows <= i64::MAX,
        unified_rows <= i64::MAX,
    ensures
        r.legacy_table@ == spec@.legacy_table,
        r.unified_table@ == spec@.unified_table,
        r.legacy_rows == legacy_rows,
        r.unified_rows == unified_rows,
        r.merge_semantics == spec@.merge_semantics,
        r.delta == legacy_rows - unified_rows,
        r.legacy_ns_filter_applied == filter_applied(with_namespace, spec@.legacy_has_namespace),
        r.ok == counts_fit(
            r.legacy_ns_filter_applied,
            spec@.merge_semantics,
            legacy_rows,
            unified_rows,
        ),
{
    let delta: i64 = legacy_rows as i64 - unified_rows as i64;
    let applied: bool = !with_namespace || spec.legacy_has_namespace;
    let ok: bool = if !applied {
        true
    } else if spec.merge_semantics {
        delta >= 0
    } else {
        delta == 0
    };
    DriverCounts {
        legacy_table: spec.legacy_table.to_owned(),
        unified_table: spec.unified_table.to_owned(),
        legacy_rows,
        unified_rows,
        merge_semantics: spec.merge_semantics,
        delta,
        ok,
        legacy_ns_filter_applied: applied,
    }
}

// ---------------------------------------------------------------------------
// Queries
// ---------------------------------------------------------------------------

/// A query with its text parameters.
#[derive(Debug)]
pub struct Query {
    /// The SQL text.
    pub sql: String,
    /// The parameters, in order.
    pub params: Vec<String>,
}

/// The model of a [`Query`].
pub type QueryView = (Seq<char>, Seq<Seq<char>>);

impl View for Query {
    type V = QueryView;

    open spec fn view(&self) -> QueryView {
        (self.sql@, text::views(self.params@))
    }
}

/// `n` question marks between commas.
pub open spec fn placeholders(n: nat) -> Seq<char> {
    text::joined(Seq::new(n, |i: int| "?"@), ","@)
}

fn placeholder_list(n: usize) -> (r: String)
    ensures
        r@ == placeholders(n as nat),
{
    let mut v: Vec<String> = Vec::new();
    let mut i: usize = 0;
    while i < n
        invariant
            i <= n,
            v@.len() == i,
            forall|k: int| 0 <= k < i ==> (#[trigger] v@[k])@ == "?"@,
        decreases n - i,
    {
        v.push("?".to_owned());
        i += 1;
    }
    assert(text::views(v@) =~= Seq::new(n as nat, |i: int| "?"@));
    join(&v, ",")
}

/// The condition on the predicate: with an empty list it holds always, negated,
/// and never otherwise.
pub open spec fn predicate_clause(n: nat, negate: bool) -> Seq<char> {
    if n == 0 {
        if negate {
            ""@
        } else {
            "AND 1 = 0"@
        }
    } else if negate {
        "AND predicate NOT IN ("@ + placeholders(n) + ")"@
    } else {
        "AND predicate IN ("@ + placeholders(n) + ")"@
    }
}

/// The condition on the namespace.
pub open spec fn namespace_clause(with_namespace: bool) -> Seq<char> {
    if with_namespace {
        " AND namespace = ?"@
    } else {
        ""@
    }
}

/// A list with one more text where there is one.
pub open spec fn with_optional(v: Seq<Seq<char>>, t: Option<Seq<char>>) -> Seq<Seq<char>> {
    match t {
        Some(s) => v.push(s),
        None => v,
    }
}

/// The query for the edges of one kind with one, or none, of some predicates.
pub open spec fn edge_query(
    kind: Seq<char>,
    predicates: Seq<Seq<char>>,
    negate: bool,
    ns: Option<Seq<char>>,
) -> QueryView {
    (
        "SELECT COUNT(*) FROM edges WHERE edge_kind = ? "@ + predicate_clause(
            predicates.len(),
            negate,
        ) + namespace_clause(ns is Some),
        with_optional(seq![kind] + predicates, ns),
    )
}

/// The query for the edges of one kind with one, or none, of some predicates.
pub fn count_edges_predicate_in(
    kind: &str,
    predicates: &Vec<String>,
    negate: bool,
    ns: &Option<String>,
) -> (r: Query)
    ensures
        r@ == edge_query(kind@, text::views(predicates@), negate, text::opt_view(*ns)),
{
    let mut sql: String = "SELECT COUNT(*) FROM edges WHERE edge_kind = ? ".to_owned();
    let n: usize = predicates.len();
    let mut clause: String = String::new();
    if n == 0 {
        if negate {
            clause.append("");
            assert(clause@ =~= ""@);
        } else {
            clause.append("AND 1 = 0");
            assert(clause@ =~= "AND 1 = 0"@);
        }
    } else {
        if negate {
            clause.append("AND predicate NOT IN (");
        } else {
            clause.append("AND predicate IN (");
        }
        clause.append(placeholder_list(n).as_str());
        clause.append(")");
        assert(clause@ =~= predicate_clause(n as nat, negate));
    }
    sql.append(clause.as_str());
    let mut params: Vec<String> = Vec::new();
    params.push(kind.to_owned());
    let mut i: usize = 0;
    while i < predicates.len()
        invariant
            i <= predicates@.len(),
            params@.len() == i + 1,
            params@[0]@ == kind@,
            forall|k: int| 0 <= k < i ==> #[trigger] params@[k + 1] == predicates@[k],
        decreases predicates.len() - i,
    {
        params.push(predicates[i].clone());
        i += 1;
    }
    proof {
        let built = text::views(params@);
        let wanted = seq![kind@] + text::views(predicates@);
        assert forall|k: int| 0 <= k < wanted.len() implies built[k] == wanted[k] by {
            if k > 0 {
                assert(params@[(k - 1) + 1] == predicates@[k - 1]);
            }
        }
        assert(built =~= wanted);
    }
    match ns {
        Some(s) => {
            sql.append(" AND namespace = ?");
            params.push(s.clone());
            assert(text::views(params@) =~= (seq![kind@] + text::views(predicates@)).push(s@));
        },
        None => {
            sql.append("");
        },
    }
    Query { sql, params }
}

/// A text with each quote doubled, as SQL quotes it.
pub open spec fn quoted(s: Seq<char>) -> Seq<char>
    decreases s.len(),
{
    if s.len() == 0 {
        Seq::empty()
    } else if s.last() == '\'' {
        quoted(s.drop_last()) + seq!['\'', '\'']
    } else {
        quoted(s.drop_last()).push(s.last())
    }
}

fn quote(s: &str) -> (r: String)
    ensures
        r@ == quoted(s@),
{
    let sc: Vec<char> = text::chars_of(s);
    let mut out: String = String::new();
    let mut i: usize = 0;
    assert(s@.take(0) == Seq::<char>::empty());
    while i < sc.len()
        invariant
            sc@ == s@,
            i <= sc@.len(),
            out@ == quoted(s@.take(i as int)),
        decreases sc.len() - i,
    {
        proof {
            assert(s@.take(i + 1).drop_last() == s@.take(i as int));
            assert(s@.take(i + 1).last() == s@[i as int]);
        }
        let ghost before = out@;
        if sc[i] == '\'' {
            out.push('\'');
            out.push('\'');
            assert(out@ =~= before + seq!['\'', '\'']);
        } else {
            out.push(sc[i]);
        }
        i += 1;
    }
    assert(s@.take(s@.len() as int) == s@);
    out
}

/// A text in SQL quotes.
pub open spec fn sql_literal(s: Seq<char>) -> Seq<char> {
    seq!['\''] + quoted(s) + seq!['\'']
}

/// The condition of one side of a union.
pub open spec fn leaf_clause(f: FingerprintView) -> Seq<char>
    recommends
        f is PredicateIn,
{
    let predicates = f->PredicateIn_1.map_values(|p: Seq<char>| sql_literal(p));
    "(edge_kind = '"@ + quoted(f->PredicateIn_0) + "' AND predicate IN ("@ + text::joined(
        predicates,
        ","@,
    ) + "))"@
}

fn leaf(fp: &Fingerprint) -> (r: String)
    requires
        fp.model() is PredicateIn,
    ensures
        r@ == leaf_clause(fp.model()),
{
    match fp {
        Fingerprint::EdgeKindPredicateIn { kind, predicates } => {
            let mut items: Vec<String> = Vec::new();
            let ghost all = text::views(predicates@).map_values(|p: Seq<char>| sql_literal(p));
            let mut i: usize = 0;
            while i < predicates.len()
                invariant
                    i <= predicates@.len(),
                    all == text::views(predicates@).map_values(|p: Seq<char>| sql_literal(p)),
                    text::views(items@) == all.take(i as int),
                decreases predicates.len() - i,
            {
                let mut item: String = String::new();
                item.push('\'');
                item.append(quote(predicates[i].as_str()).as_str());
                item.push('\'');
                assert(item@ =~= sql_literal(predicates@[i as int]@));
                let ghost before = text::views(items@);
                let ghost added = item@;
                items.push(item);
                proof {
                    assert(text::views(items@) =~= before.push(added));
                    assert(text::views(predicates@)[i as int] == predicates@[i as int]@);
                    assert(all[i as int] == added);
                    assert(all.take(i + 1) =~= all.take(i as int).push(all[i as int]));
                }
                i += 1;
            }
            assert(all.take(predicates@.len() as int) == all);
            let mut out: String = "(edge_kind = '".to_owned();
            out.append(quote(kind).as_str());
            out.append("' AND predicate IN (");
            out.append(join(&items, ",").as_str());
            out.append("))");
            out
        },
        _ => String::new(),
    }
}

/// The query for the edges of two fingerprints, each edge once.
pub open spec fn union_query(
    a: FingerprintView,
    b: FingerprintView,
    with_namespace: bool,
) -> Seq<char> {
    "SELECT COUNT(DISTINCT id) FROM edges WHERE ("@ + leaf_clause(a) + " OR "@ + leaf_clause(b)
        + ")"@ + namespace_clause(with_namespace)
}

/// The query for the edges of two fingerprints, each edge once. Both sides name
/// a kind with a list of predicates.
pub fn build_union_sql(a: &Fingerprint, b: &Fingerprint, with_ns: bool) -> (r: String)
    requires
        a.model() is PredicateIn,
        b.model() is PredicateIn,
    ensures
        r@ == union_query(a.model(), b.model(), with_ns),
{
    let mut out: String = "SELECT COUNT(DISTINCT id) FROM edges WHERE (".to_owned();
    out.append(leaf(a).as_str());
    out.append(" OR ");
    out.append(leaf(b).as_str());
    out.append(")");
    if with_ns {
        out.append(" AND namespace = ?");
    } else {
        out.append("");
    }
    out
}

/// The query that counts the unified rows of a fingerprint.
pub open spec fn unified_query(f: FingerprintView, ns: Option<Seq<char>>) -> QueryView {
    match f {
        FingerprintView::NodeKind(value) => (
            if ns is Some {
                "SELECT COUNT(*) FROM nodes WHERE node_kind = ? AND namespace = ?"@
            } else {
                "SELECT COUNT(*) FROM nodes WHERE node_kind = ?"@
            },
            with_optional(seq![value], ns),
        ),
        FingerprintView::PlainTable => (
            "SELECT COUNT(*) FROM node_embeddings"@,
            Seq::empty(),
        ),
        FingerprintView::PredicateIn(kind, predicates) => edge_query(kind, predicates, false, ns),
        FingerprintView::MinusPredicates(kind, exclude) => edge_query(kind, exclude, true, ns),
        FingerprintView::Union(a, b) => (
            union_query(*a, *b, ns is Some),
            with_optional(Seq::empty(), ns),
        ),
    }
}

/// The query that counts the unified rows of a fingerprint. Embeddings have no
/// namespace, so theirs is not filtered.
pub fn count_unified(fp: &Fingerprint, ns: &Option<String>) -> (r: Query)
    requires
        fp.model() matches FingerprintView::Union(a, b) ==> *a is PredicateIn && *b is PredicateIn,
    ensures
        r@ == unified_query(fp.model(), text::opt_view(*ns)),
{
    match fp {
        Fingerprint::NodeKind { value } => {
            let mut params: Vec<String> = Vec::new();
            params.push((*value).to_owned());
            assert(text::views(params@) =~= seq![value@]);
            match ns {
                Some(s) => {
                    params.push(s.clone());
                    assert(text::views(params@) =~= seq![value@].push(s@));
                    Query {
                        sql: "SELECT COUNT(*) FROM nodes WHERE node_kind = ? AND namespace = ?".to_owned(),
                        params,
                    }
                },
                None => Query {
                    sql: "SELECT COUNT(*) FROM nodes WHERE node_kind = ?".to_owned(),
                    params,
                },
            }
        },
        Fingerprint::PlainTable => {
            let params: Vec<String> = Vec::new();
            assert(text::views(params@) =~= Seq::<Seq<char>>::empty());
            Query { sql: "SELECT COUNT(*) FROM node_embeddings".to_owned(), params }
        },
        Fingerprint::EdgeKindPredicateIn { kind, predicates } => {
            count_edges_predicate_in(kind, predicates, false, ns)
        },
        Fingerprint::EdgeKindMinusPredicates { kind, exclude } => {
            count_edges_predicate_in(kind, exclude, true, ns)
        },
        Fingerprint::Union(a, b) => {
            let mut params: Vec<String> = Vec::new();
            assert(text::views(params@) =~= Seq::<Seq<char>>::empty());
            match ns {
                Some(s) => {
                    params.push(s.clone());
                    assert(text::views(params@) =~= Seq::<Seq<char>>::empty().push(s@));
                },
                None => {},
            }
            Query { sql: build_union_sql(a, b, ns.is_some()), params }
        },
    }
}

/// The query that counts the rows of a legacy table: filtered by namespace where
/// one is asked for and the table has one.
pub open spec fn table_query(
    table: Seq<char>,
    ns: Option<Seq<char>>,
    has_namespace: bool,
) -> QueryView {
    if ns is Some && has_namespace {
        ("SELECT COUNT(*) FROM "@ + table + " WHERE namespace = ?"@, seq![ns->0])
    } else {
        ("SELECT COUNT(*) FROM "@ + table, Seq::empty())
    }
}

/// The query that counts the rows of a legacy table.
pub fn count_table(table: &str, ns: &Option<String>, has_namespace: bool) -> (r: Query)
    ensures
        r@ == table_query(table@, text::opt_view(*ns), has_namespace),
{
    let mut sql: String = "SELECT COUNT(*) FROM ".to_owned();
    sql.append(table);
    let mut params: Vec<String> = Vec::new();
    assert(text::views(params@) =~= Seq::<Seq<char>>::empty());
    match ns {
        Some(s) => {
            if has_namespace {
                sql.append(" WHERE namespace = ?");
                params.push(s.clone());
                assert(text::views(params@) =~= seq![s@]);
            }
        },
        None => {},
    }
    Query { sql, params }
}

// ---------------------------------------------------------------------------
// Audit rows and dangling edges
// ---------------------------------------------------------------------------

/// The query that lists the ids of a legacy table, of one namespace where one
/// is asked for.
pub open spec fn id_query(table: Seq<char>, ns: Option<Seq<char>>) -> QueryView {
    match ns {
        Some(n) => ("SELECT id FROM "@ + table + " WHERE namespace = ?"@, seq![n]),
        None => ("SELECT id FROM "@ + table, Seq::empty()),
    }
}

/// The query that lists the ids from which a sample is drawn.
pub fn sample_legacy_ids(table: &str, ns: &Option<String>) -> (r: Query)
    ensures
        r@ == id_query(table@, text::opt_view(*ns)),
{
    let mut sql: String = "SELECT id FROM ".to_owned();
    sql.append(table);
    let mut params: Vec<String> = Vec::new();
    assert(text::views(params@) =~= Seq::<Seq<char>>::empty());
    match ns {
        Some(s) => {
            sql.append(" WHERE namespace = ?");
            params.push(s.clone());
            assert(text::views(params@) =~= seq![s@]);
        },
        None => {},
    }
    Query { sql, params }
}

/// Where the namespace of a row is found: a table, the column that refers to
/// it, and its namespace column.
#[derive(Debug)]
pub struct NamespaceJoin {
    /// The table.
    pub table: String,
    /// The column that holds its id.
    pub foreign_key: String,
    /// Its namespace column.
    pub column: String,
}

/// The query that lists the pairs of key columns of a legacy table.
pub open spec fn pair_query(
    table: Seq<char>,
    k1: Seq<char>,
    k2: Seq<char>,
    join: Option<NamespaceJoin>,
    ns: Option<Seq<char>>,
) -> QueryView {
    match (ns, join) {
        (Some(n), Some(j)) => (
            "SELECT t."@ + k1 + ", t."@ + k2 + " FROM "@ + table + " t INNER JOIN "@ + j.table@
                + " j ON j.id = t."@ + j.foreign_key@ + " WHERE j."@ + j.column@ + " = ?"@,
            seq![n],
        ),
        _ => ("SELECT "@ + k1 + ", "@ + k2 + " FROM "@ + table, Seq::empty()),
    }
}

/// The query that lists the key pairs from which a sample is drawn. A table
/// without a way to a namespace is listed whole.
pub fn sample_legacy_compound_keys(
    table: &str,
    k1: &str,
    k2: &str,
    join: &Option<NamespaceJoin>,
    ns: &Option<String>,
) -> (r: Query)
    ensures
        r@ == pair_query(table@, k1@, k2@, *join, text::opt_view(*ns)),
{
    let mut params: Vec<String> = Vec::new();
    assert(text::views(params@) =~= Seq::<Seq<char>>::empty());
    match (ns, join) {
        (Some(n), Some(j)) => {
            let mut sql: String = "SELECT t.".to_owned();
            sql.append(k1);
            sql.append(", t.");
            sql.append(k2);
            sql.append(" FROM ");
            sql.append(table);
            sql.append(" t INNER JOIN ");
            sql.append(j.table.as_str());
            sql.append(" j ON j.id = t.");
            sql.append(j.foreign_key.as_str());
            sql.append(" WHERE j.");
            sql.append(j.column.as_str());
            sql.append(" = ?");
            params.push(n.clone());
            assert(text::views(params@) =~= seq![n@]);
            Query { sql, params }
        },
        _ => {
            let mut sql: String = "SELECT ".to_owned();
            sql.append(k1);
            sql.append(", ");
            sql.append(k2);
            sql.append(" FROM ");
            sql.append(table);
            Query { sql, params }
        },
    }
}

/// An audit row, as the database holds it.
#[derive(Debug)]
pub struct AuditRow {
    /// The run.
    pub run_id: String,
    /// Its legacy table.
    pub legacy_table: String,
    /// Rows read.
    pub rows_read: i64,
    /// Rows inserted.
    pub rows_inserted: i64,
    /// Rows skipped.
    pub rows_skipped_existing: i64,
    /// Rows failed.
    pub rows_failed: i64,
    /// Whether the run finished.
    pub finished: bool,
}

impl AuditRow {
    /// The sum of the buckets.
    pub open spec fn sum(self) -> int {
        self.rows_inserted + self.rows_skipped_existing + self.rows_failed
    }

    /// Whether the counters of a finished run do not add up.
    pub open spec fn broken(self) -> bool {
        self.finished && self.rows_read != self.sum()
    }

    /// Whether the counters can be added.
    pub open spec fn addable(self) -> bool {
        &&& i64::MIN <= self.rows_inserted + self.rows_skipped_existing <= i64::MAX
        &&& i64::MIN <= self.sum() <= i64::MAX
    }
}

/// A counter with negative values taken as 0.
pub open spec fn at_least_zero(n: int) -> int {
    if n < 0 {
        0
    } else {
        n
    }
}

fn unsigned(n: i64) -> (r: u64)
    ensures
        r == at_least_zero(n as int),
{
    if n < 0 {
        0
    } else {
        n as u64
    }
}

/// What a violation says of an audit row.
pub open spec fn tells_of_row(v: AuditViolation, r: AuditRow) -> bool {
    &&& v.run_id@ == r.run_id@
    &&& v.legacy_table@ == r.legacy_table@
    &&& v.rows_read == at_least_zero(r.rows_read as int)
    &&& v.rows_inserted == at_least_zero(r.rows_inserted as int)
    &&& v.rows_skipped_existing == at_least_zero(r.rows_skipped_existing as int)
    &&& v.rows_failed == at_least_zero(r.rows_failed as int)
    &&& v.computed_sum == at_least_zero(r.sum())
}

/// The finished runs whose counters do not add up.
pub open spec fn broken_rows(rows: Seq<AuditRow>) -> Seq<AuditRow> {
    rows.filter(|r: AuditRow| r.broken())
}

/// The finished runs whose counters do not add up; a run in progress is left
/// out.
pub fn check_audit_consistency(rows: &Vec<AuditRow>) -> (r: Vec<AuditViolation>)
    requires
        forall|i: int| 0 <= i < rows@.len() ==> (#[trigger] rows@[i]).addable(),
    ensures
        r@.len() == broken_rows(rows@).len(),
        forall|i: int| 0 <= i < r@.len() ==> tells_of_row(#[trigger] r@[i], broken_rows(rows@)[i]),
{
    let mut out: Vec<AuditViolation> = Vec::new();
    let mut i: usize = 0;
    assert(broken_rows(rows@.take(0)) =~= Seq::<AuditRow>::empty());
    while i < rows.len()
        invariant
            i <= rows@.len(),
            forall|k: int| 0 <= k < rows@.len() ==> (#[trigger] rows@[k]).addable(),
            out@.len() == broken_rows(rows@.take(i as int)).len(),
            forall|k: int|
                0 <= k < out@.len() ==> tells_of_row(
                    #[trigger] out@[k],
                    broken_rows(rows@.take(i as int))[k],
                ),
        decreases rows.len() - i,
    {
        proof {
            let f = |r: AuditRow| r.broken();
            assert(rows@.take(i + 1) =~= rows@.take(i as int).push(rows@[i as int]));
            rows@.take(i as int).lemma_filter_push(rows@[i as int], f);
            assert(rows@[i as int].addable());
        }
        let row: &AuditRow = &rows[i];
        let sum: i64 = row.rows_inserted + row.rows_skipped_existing + row.rows_failed;
        if row.finished && row.rows_read != sum {
            out.push(
                AuditViolation {
                    run_id: row.run_id.clone(),
                    legacy_table: row.legacy_table.clone(),
                    rows_read: unsigned(row.rows_read),
                    rows_inserted: unsigned(row.rows_inserted),
                    rows_skipped_existing: unsigned(row.rows_skipped_existing),
                    rows_failed: unsigned(row.rows_failed),
                    computed_sum: unsigned(sum),
                },
            );
        }
        i += 1;
    }
    assert(rows@.take(rows@.len() as int) =~= rows@);
    out
}

/// A run that was closed by a driver is never reported.
pub proof fn law_balanced_runs_are_consistent(run: BackfillRun, row: AuditRow)
    requires
        run.balanced(),
        row.rows_read == run.rows_read,
        row.rows_inserted == run.rows_inserted,
        row.rows_skipped_existing == run.rows_skipped_existing,
        row.rows_failed == run.rows_failed,
    ensures
        !row.broken(),
{
}

/// An edge with an endpoint that is no node.
#[derive(Debug)]
pub struct DanglingEdge {
    /// The edge.
    pub edge_id: String,
    /// Its kind.
    pub edge_kind: String,
    /// The missing node.
    pub missing_node_id: Option<String>,
}

/// What a violation says of a dangling edge.
pub open spec fn tells_of_edge(v: FkViolation, e: DanglingEdge, side: Seq<char>) -> bool {
    &&& v.edge_id@ == e.edge_id@
    &&& v.edge_kind@ == e.edge_kind@
    &&& v.side@ == side
    &&& v.missing_node_id@ == (match e.missing_node_id {
        Some(m) => m@,
        None => Seq::<char>::empty(),
    })
}

/// The dangling edges as violations: those without their source first, then
/// those without their target.
pub fn check_fk_closure(sources: &Vec<DanglingEdge>, targets: &Vec<DanglingEdge>) -> (r: Vec<
    FkViolation,
>)
    ensures
        r@.len() == sources@.len() + targets@.len(),
        forall|i: int|
            0 <= i < sources@.len() ==> tells_of_edge(#[trigger] r@[i], sources@[i], "source"@),
        forall|i: int|
            sources@.len() <= i < r@.len() ==> tells_of_edge(
                #[trigger] r@[i],
                targets@[i - sources@.len()],
                "target"@,
            ),
{
    let mut out: Vec<FkViolation> = Vec::new();
    let mut i: usize = 0;
    while i < sources.len()
        invariant
            i <= sources@.len(),
            out@.len() == i,
            forall|k: int| 0 <= k < i ==> tells_of_edge(#[trigger] out@[k], sources@[k], "source"@),
        decreases sources.len() - i,
    {
        out.push(fk_violation(&sources[i], "source"));
        i += 1;
    }
    let mut j: usize = 0;
    while j < targets.len()
        invariant
            j <= targets@.len(),
            out@.len() == sources@.len() + j,
            forall|k: int|
                0 <= k < sources@.len() ==> tells_of_edge(
                    #[trigger] out@[k],
                    sources@[k],
                    "source"@,
                ),
            forall|k: int|
                sources@.len() <= k < out@.len() ==> tells_of_edge(
                    #[trigger] out@[k],
                    targets@[k - sources@.len()],
                    "target"@,
                ),
        decreases targets.len() - j,
    {
        out.push(fk_violation(&targets[j], "target"));
        j += 1;
    }
    out
}

fn fk_violation(e: &DanglingEdge, side: &'static str) -> (r: FkViolation)
    ensures
        tells_of_edge(r, *e, side@),
{
    let missing: String = match &e.missing_node_id {
        Some(m) => m.clone(),
        None => String::new(),
    };
    FkViolation {
        edge_id: e.edge_id.clone(),
        edge_kind: e.edge_kind.clone(),
        side,
        missing_node_id: missing,
    }
}

// ---------------------------------------------------------------------------
// Samples
// ---------------------------------------------------------------------------

/// The order in which a list comes out of a shuffle by a seeded generator.
pub uninterp spec fn shuffle_order(items: Seq<usize>, seed: u64) -> Seq<usize>;

/// `rand::seq::SliceRandom::shuffle` with `rand::rngs::StdRng::seed_from_u64`:
/// a permutation of the items, which depends on them and on the seed alone.
#[verifier::external_body]
fn shuffled(items: Vec<usize>, seed: u64) -> (r: Vec<usize>)
    ensures
        r@ == shuffle_order(items@, seed),
        r@.to_multiset() == items@.to_multiset(),
{
    let mut out = items;
    out.shuffle(&mut rand::rngs::StdRng::seed_from_u64(seed));
    out
}

/// The positions from 0 to `n`.
pub open spec fn positions(n: nat) -> Seq<usize> {
    Seq::new(n, |i: int| i as usize)
}

/// The positions that a sample takes: the first ones of a shuffle.
pub open spec fn sampled(n: nat, sample_size: nat, seed: u64) -> Seq<usize> {
    let order = shuffle_order(positions(n), seed);
    if sample_size < order.len() {
        order.take(sample_size as int)
    } else {
        order
    }
}

/// Samples positions of a list of `n` rows. The same list and seed give the same
/// sample; no row is taken twice, and all are taken where there are not more
/// than asked for.
pub fn sample_positions(n: usize, sample_size: usize, seed: u64) -> (r: Vec<usize>)
    ensures
        r@ == sampled(n as nat, sample_size as nat, seed),
        r@.len() == (if sample_size < n {
            sample_size
        } else {
            n
        }),
        forall|i: int| 0 <= i < r@.len() ==> #[trigger] r@[i] < n,
        r@.no_duplicates(),
{
    let mut all: Vec<usize> = Vec::new();
    let mut i: usize = 0;
    while i < n
        invariant
            i <= n,
            all@ == positions(i as nat),
        decreases n - i,
    {
        all.push(i);
        i += 1;
        assert(all@ =~= positions(i as nat));
    }
    let mut out: Vec<usize> = shuffled(all, seed);
    proof {
        broadcast use vstd::seq_lib::group_to_multiset_ensures;

        assert(positions(n as nat).no_duplicates());
        positions(n as nat).lemma_multiset_has_no_duplicates();
        out@.lemma_multiset_has_no_duplicates_conv();
        assert(out@.len() == out@.to_multiset().len());
        assert(positions(n as nat).len() == positions(n as nat).to_multiset().len());
        assert forall|k: int| 0 <= k < out@.len() implies #[trigger] out@[k] < n by {
            assert(out@.contains(out@[k]));
            assert(out@.to_multiset().count(out@[k]) > 0);
            assert(positions(n as nat).contains(out@[k]));
        }
    }
    out.truncate(sample_size);
    out
}

/// Equal counts always fit, and more unified rows than legacy rows never do.
/// Fewer unified rows fit only where rows are merged. Where the namespace cannot
/// be asked of the legacy table, nothing is held against the counts.
pub proof fn law_counts_are_judged(
    with_namespace: bool,
    has_namespace: bool,
    merge: bool,
    legacy: u64,
    unified: u64,
)
    ensures
        ({
            let applied = filter_applied(with_namespace, has_namespace);
            let fit = counts_fit(applied, merge, legacy, unified);
            &&& with_namespace && !has_namespace ==> fit
            &&& !with_namespace || has_namespace ==> {
                &&& legacy == unified ==> fit
                &&& legacy < unified ==> !fit
                &&& legacy > unified ==> fit == merge
            }
        }),
{
}

/// A report is clean only where nothing is held against any count, and nothing
/// else was found.
pub proof fn law_clean_reports_hold_nothing(r: VerificationReport, i: int)
    ensures
        r.audit_violations@.len() > 0 || r.content_mismatches@.len() > 0
            || r.idempotency_violations@.len() > 0 || r.fk_violations@.len() > 0 ==> !r.clean(),
        0 <= i < r.counts@.len() && !r.counts@[i].ok ==> !r.clean(),
        r.audit_violations@.len() == 0 && r.content_mismatches@.len() == 0
            && r.idempotency_violations@.len() == 0 && r.fk_violations@.len() == 0
            && r.counts@.len() == 0 ==> r.clean(),
{
}

/// Every run that inserted a row is told of, and no other.
pub proof fn law_inserting_runs_are_told(runs: Seq<BackfillRun>, run: BackfillRun)
    ensures
        inserting(runs).contains(run) <==> runs.contains(run) && run.rows_inserted != 0,
{
    let p = |r: BackfillRun| r.rows_inserted > 0;
    lemma_filter_holds(runs, p, run);
}

proof fn lemma_filter_holds<A>(v: Seq<A>, p: spec_fn(A) -> bool, a: A)
    ensures
        v.filter(p).contains(a) <==> v.contains(a) && p(a),
    decreases v.len(),
{
    reveal(Seq::filter);
    if v.len() > 0 {
        let d = v.drop_last();
        lemma_filter_holds(d, p, a);
        let f = d.filter(p);
        assert(v[v.len() - 1] == v.last());
        if v.contains(a) && a != v.last() {
            let i = choose|i: int| 0 <= i < v.len() && v[i] == a;
            assert(d[i] == a);
        }
        if d.contains(a) {
            let i = choose|i: int| 0 <= i < d.len() && d[i] == a;
            assert(v[i] == a);
        }
        if p(v.last()) {
            assert(v.filter(p) == f.push(v.last()));
            assert(f.push(v.last())[f.len() as int] == v.last());
            if f.contains(a) {
                let i = choose|i: int| 0 <= i < f.len() && f[i] == a;
                assert(f.push(v.last())[i] == a);
            }
            if f.push(v.last()).contains(a) && a != v.last() {
                let i = choose|i: int| 0 <= i < f.len() + 1 && f.push(v.last())[i] == a;
                assert(f[i] == a);
            }
        }
    }
}

/// A run is told of where it is finished and its counters do not make up the rows
/// read; what is told are its counters, a negative one as zero.
pub proof fn law_broken_runs_are_told(rows: Seq<AuditRow>, row: AuditRow, v: AuditViolation)
    requires
        tells_of_row(v, row),
    ensures
        broken_rows(rows).contains(row) <==> rows.contains(row) && row.finished && row.rows_read
            != row.rows_inserted + row.rows_skipped_existing + row.rows_failed,
        row.rows_read >= 0 ==> v.rows_read == row.rows_read,
        row.rows_read < 0 ==> v.rows_read == 0,
        row.rows_inserted >= 0 ==> v.rows_inserted == row.rows_inserted,
        row.rows_skipped_existing >= 0 ==> v.rows_skipped_existing == row.rows_skipped_existing,
        row.rows_failed >= 0 ==> v.rows_failed == row.rows_failed,
        row.rows_inserted >= 0 && row.rows_skipped_existing >= 0 && row.rows_failed >= 0
            ==> v.computed_sum == v.rows_inserted + v.rows_skipped_existing + v.rows_failed,
        v.run_id@ == row.run_id@,
        v.legacy_table@ == row.legacy_table@,
{
    lemma_filter_holds(rows, |r: AuditRow| r.broken(), row);
}

/// Which driver answers for a row of the unified tables: nodes by their kind,
/// edges by kind and predicate.
pub proof fn law_rows_belong_to_their_driver(predicate: Seq<char>)
    ensures
        belongs(UnifiedRow::Node("memory"@), driver_at(0).fingerprint),
        belongs(UnifiedRow::Embedding, driver_at(1).fingerprint),
        belongs(UnifiedRow::Node("entity"@), driver_at(2).fingerprint),
        belongs(UnifiedRow::Edge("structural"@, predicate), driver_at(3).fingerprint) <==> predicate
            != "subject_of"@ && predicate != "object_of"@,
        belongs(UnifiedRow::Edge("structural"@, predicate), driver_at(4).fingerprint) <==> predicate
            == "subject_of"@ || predicate == "object_of"@,
        belongs(UnifiedRow::Edge("provenance"@, predicate), driver_at(4).fingerprint) <==> predicate
            == "mentions"@,
        belongs(UnifiedRow::Edge("associative"@, predicate), driver_at(5).fingerprint)
            <==> predicate == "co_activated"@,
        belongs(UnifiedRow::Edge("provenance"@, predicate), driver_at(6).fingerprint) <==> predicate
            == "derived_from"@,
{
    reveal_with_fuel(belongs, 3);
    reveal_strlit("structural");
    reveal_strlit("provenance");
    assert("structural"@[0] == 's' && "provenance"@[0] == 'p');
    let roles = role_predicates();
    assert(roles[0] == "subject_of"@ && roles[1] == "object_of"@);
    let mentions = seq!["mentions"@];
    assert(mentions[0] == "mentions"@);
    let active = seq!["co_activated"@];
    assert(active[0] == "co_activated"@);
    let derived = seq!["derived_from"@];
    assert(derived[0] == "derived_from"@);
}

/// A question about edges asks for their kind first, then for the predicates that
/// they have or do not have, and last for the namespace where one is given; and
/// the values are handed over in that order.
pub proof fn law_edges_are_asked_for(
    kind: Seq<char>,
    predicates: Seq<Seq<char>>,
    negate: bool,
    ns: Option<Seq<char>>,
)
    ensures
        ({
            let (sql, params) = edge_query(kind, predicates, negate, ns);
            let n = predicates.len() as int;
            &&& text::starts(sql, "SELECT COUNT(*) FROM edges WHERE edge_kind = ? "@)
            &&& n > 0 && negate ==> text::occurs(
                sql,
                "AND predicate NOT IN ("@ + placeholders(predicates.len()) + ")"@,
            )
            &&& n > 0 && !negate ==> text::occurs(
                sql,
                "AND predicate IN ("@ + placeholders(predicates.len()) + ")"@,
            )
            &&& n == 0 && !negate ==> text::occurs(sql, "AND 1 = 0"@)
            &&& params[0] == kind
            &&& params.subrange(1, 1 + n) == predicates
            &&& ns matches Some(t) ==> params.len() == n + 2 && params[n + 1] == t && text::ends(
                sql,
                " AND namespace = ?"@,
            )
            &&& ns is None ==> params.len() == n + 1
        }),
{
    reveal_strlit("");
    let (sql, params) = edge_query(kind, predicates, negate, ns);
    let head = "SELECT COUNT(*) FROM edges WHERE edge_kind = ? "@;
    let clause = predicate_clause(predicates.len(), negate);
    let tail = namespace_clause(ns is Some);
    assert(sql.take(head.len() as int) =~= head);
    assert(sql =~= head + clause + tail);
    text::lemma_occurs_between(head, clause, tail);
    assert(params.subrange(1, 1 + predicates.len() as int) =~= predicates);
    if ns is Some {
        assert(sql.skip(sql.len() - tail.len()) =~= tail);
    }
}

/// There is one question mark for each value.
pub proof fn law_one_placeholder_for_each(n: nat)
    ensures
        placeholders(n).filter(|c: char| c == '?').len() == n,
        n > 0 ==> placeholders(n).len() == 2 * n - 1,
    decreases n,
{
    reveal(Seq::filter);
    reveal_strlit("?");
    reveal_strlit(",");
    let p = |c: char| c == '?';
    let all = Seq::new(n, |i: int| "?"@);
    if n == 0 {
        assert(placeholders(0) =~= Seq::<char>::empty());
    } else {
        let less = Seq::new((n - 1) as nat, |i: int| "?"@);
        assert(all.drop_last() =~= less);
        law_one_placeholder_for_each((n - 1) as nat);
        let before = placeholders((n - 1) as nat);
        if n == 1 {
            assert(less =~= Seq::<Seq<char>>::empty());
            assert(placeholders(1) =~= Seq::<char>::empty().push('?'));
            assert(Seq::<char>::empty().push('?').drop_last() =~= Seq::<char>::empty());
            assert(Seq::<char>::empty().filter(p) == Seq::<char>::empty());
            assert(Seq::<char>::empty().push('?').filter(p) == Seq::<char>::empty().push('?'));
        } else {
            let comma = before.push(',');
            assert(placeholders(n) =~= comma.push('?'));
            assert(comma.push('?').drop_last() =~= comma);
            assert(comma.drop_last() =~= before);
            assert(comma.filter(p) == before.filter(p));
            assert(comma.push('?').filter(p) == comma.filter(p).push('?'));
        }
    }
}

/// In a quoted text every quotation mark stands twice, and every other character
/// as it is.
pub proof fn law_quotation_marks_are_doubled(a: Seq<char>, b: Seq<char>, c: char)
    ensures
        quoted(Seq::empty()) == Seq::<char>::empty(),
        quoted(a + b) == quoted(a) + quoted(b),
        quoted(seq!['\'']) == seq!['\'', '\''],
        c != '\'' ==> quoted(seq![c]) == seq![c],
    decreases b.len(),
{
    reveal_with_fuel(quoted, 2);
    assert(seq![c].drop_last() =~= Seq::<char>::empty());
    assert(seq!['\''].drop_last() =~= Seq::<char>::empty());
    assert(quoted(seq!['\'']) =~= seq!['\'', '\'']);
    assert(c != '\'' ==> quoted(seq![c]) =~= seq![c]);
    if b.len() > 0 {
        assert((a + b).drop_last() =~= a + b.drop_last());
        assert((a + b).last() == b.last());
        law_quotation_marks_are_doubled(a, b.drop_last(), c);
        assert(quoted(a + b) =~= quoted(a) + quoted(b));
    } else {
        assert(a + b =~= a);
        assert(quoted(a) + quoted(b) =~= quoted(a));
    }
}

/// A question about either of two kinds of edges names the kind of each and every
/// predicate of each, quoted.
pub proof fn law_union_names_both_kinds(
    k: Seq<char>,
    p: Seq<Seq<char>>,
    l: Seq<char>,
    q: Seq<Seq<char>>,
    with_namespace: bool,
    i: int,
    j: int,
)
    requires
        0 <= i < p.len(),
        0 <= j < q.len(),
    ensures
        ({
            let sql = union_query(
                FingerprintView::PredicateIn(k, p),
                FingerprintView::PredicateIn(l, q),
                with_namespace,
            );
            &&& text::starts(sql, "SELECT COUNT(DISTINCT id) FROM edges WHERE ("@)
            &&& text::occurs(sql, "(edge_kind = '"@ + quoted(k) + "' AND predicate IN ("@)
            &&& text::occurs(sql, "(edge_kind = '"@ + quoted(l) + "' AND predicate IN ("@)
            &&& text::occurs(sql, seq!['\''] + quoted(p[i]) + seq!['\''])
            &&& text::occurs(sql, seq!['\''] + quoted(q[j]) + seq!['\''])
            &&& with_namespace ==> text::ends(sql, " AND namespace = ?"@)
        }),
{
    let a = FingerprintView::PredicateIn(k, p);
    let b = FingerprintView::PredicateIn(l, q);
    let sql = union_query(a, b, with_namespace);
    let head = "SELECT COUNT(DISTINCT id) FROM edges WHERE ("@;
    let tail = namespace_clause(with_namespace);
    assert(sql.take(head.len() as int) =~= head);
    if with_namespace {
        assert(sql.skip(sql.len() - tail.len()) =~= tail);
    }
    lemma_leaf_names(k, p, i);
    lemma_leaf_names(l, q, j);
    let rest = " OR "@ + leaf_clause(b) + ")"@ + tail;
    assert(sql =~= head + leaf_clause(a) + rest);
    let front = head + leaf_clause(a) + " OR "@;
    let end = ")"@ + tail;
    assert(sql =~= front + leaf_clause(b) + end);
    text::lemma_occurs_between(head, leaf_clause(a), rest);
    text::lemma_occurs_between(front, leaf_clause(b), end);
    text::lemma_occurs_inside(
        sql,
        leaf_clause(a),
        "(edge_kind = '"@ + quoted(k) + "' AND predicate IN ("@,
    );
    text::lemma_occurs_inside(sql, leaf_clause(a), seq!['\''] + quoted(p[i]) + seq!['\'']);
    text::lemma_occurs_inside(
        sql,
        leaf_clause(b),
        "(edge_kind = '"@ + quoted(l) + "' AND predicate IN ("@,
    );
    text::lemma_occurs_inside(sql, leaf_clause(b), seq!['\''] + quoted(q[j]) + seq!['\'']);
}

proof fn lemma_leaf_names(k: Seq<char>, p: Seq<Seq<char>>, i: int)
    requires
        0 <= i < p.len(),
    ensures
        text::occurs(
            leaf_clause(FingerprintView::PredicateIn(k, p)),
            "(edge_kind = '"@ + quoted(k) + "' AND predicate IN ("@,
        ),
        text::occurs(
            leaf_clause(FingerprintView::PredicateIn(k, p)),
            seq!['\''] + quoted(p[i]) + seq!['\''],
        ),
{
    let all = p.map_values(|t: Seq<char>| sql_literal(t));
    let list = text::joined(all, ","@);
    let front = "(edge_kind = '"@ + quoted(k) + "' AND predicate IN ("@;
    let whole = leaf_clause(FingerprintView::PredicateIn(k, p));
    let end = "))"@;
    assert(whole =~= Seq::<char>::empty() + front + (list + end));
    text::lemma_occurs_between(Seq::empty(), front, list + end);
    assert(whole =~= front + list + end);
    text::law_joined_holds(all, ","@, i);
    assert(all[i] =~= seq!['\''] + quoted(p[i]) + seq!['\'']);
    text::lemma_occurs_between(front, list, end);
    text::lemma_occurs_inside(whole, list, all[i]);
}

/// A question about one table is put to that table, and to the namespace where
/// one is given and the table has them.
pub proof fn law_tables_are_asked(
    table: Seq<char>,
    ns: Option<Seq<char>>,
    has_namespace: bool,
)
    ensures
        text::starts(table_query(table, ns, has_namespace).0, "SELECT COUNT(*) FROM "@ + table),
        text::starts(id_query(table, ns).0, "SELECT id FROM "@ + table),
        ns matches Some(n) ==> {
            &&& id_query(table, ns).1 == seq![n]
            &&& text::ends(id_query(table, ns).0, " WHERE namespace = ?"@)
            &&& has_namespace ==> table_query(table, ns, has_namespace).1 == seq![n]
                && text::ends(table_query(table, ns, has_namespace).0, " WHERE namespace = ?"@)
        },
        ns is None || !has_namespace ==> table_query(table, ns, has_namespace).0
            == "SELECT COUNT(*) FROM "@ + table && table_query(table, ns, has_namespace).1.len()
            == 0,
        ns is None ==> id_query(table, ns).0 == "SELECT id FROM "@ + table && id_query(
            table,
            ns,
        ).1.len() == 0,
{
    let a = "SELECT COUNT(*) FROM "@ + table;
    let b = "SELECT id FROM "@ + table;
    let w = " WHERE namespace = ?"@;
    let q = table_query(table, ns, has_namespace).0;
    let r = id_query(table, ns).0;
    assert(q.take(a.len() as int) =~= a);
    assert(r.take(b.len() as int) =~= b);
    if ns is Some {
        assert(r.skip(r.len() - w.len()) =~= w);
        if has_namespace {
            assert(q.skip(q.len() - w.len()) =~= w);
        }
    }
}

/// The keys of a sample are those of the table; with a namespace they are joined
/// with the table that knows it.
pub proof fn law_pairs_are_asked(
    table: Seq<char>,
    k1: Seq<char>,
    k2: Seq<char>,
    join: NamespaceJoin,
    n: Seq<char>,
)
    ensures
        pair_query(table, k1, k2, None, Some(n)) == pair_query(table, k1, k2, None, None),
        pair_query(table, k1, k2, Some(join), None) == pair_query(table, k1, k2, None, None),
        pair_query(table, k1, k2, None, None).1.len() == 0,
        text::starts(
            pair_query(table, k1, k2, None, None).0,
            "SELECT "@ + k1 + ", "@ + k2 + " FROM "@ + table,
        ),
        pair_query(table, k1, k2, Some(join), Some(n)).1 == seq![n],
        text::starts(
            pair_query(table, k1, k2, Some(join), Some(n)).0,
            "SELECT t."@ + k1 + ", t."@ + k2 + " FROM "@ + table + " t INNER JOIN "@ + join.table@,
        ),
        text::ends(
            pair_query(table, k1, k2, Some(join), Some(n)).0,
            " j ON j.id = t."@ + join.foreign_key@ + " WHERE j."@ + join.column@ + " = ?"@,
        ),
{
    let a = pair_query(table, k1, k2, None, None).0;
    assert(a.take(a.len() as int) =~= a);
    let b = pair_query(table, k1, k2, Some(join), Some(n)).0;
    let front = "SELECT t."@ + k1 + ", t."@ + k2 + " FROM "@ + table + " t INNER JOIN "@
        + join.table@;
    let end = " j ON j.id = t."@ + join.foreign_key@ + " WHERE j."@ + join.column@ + " = ?"@;
    assert(b.take(front.len() as int) =~= front);
    assert(b.skip(b.len() - end.len()) =~= end);
}

/// A question about unified rows asks for the rows of the fingerprint, in the
/// namespace where one is given.
pub proof fn law_unified_rows_are_asked_for(
    value: Seq<char>,
    kind: Seq<char>,
    predicates: Seq<Seq<char>>,
    ns: Option<Seq<char>>,
)
    ensures
        unified_query(FingerprintView::NodeKind(value), ns).1[0] == value,
        ns matches Some(n) ==> unified_query(FingerprintView::NodeKind(value), ns).1 == seq![
            value,
            n,
        ],
        ns is None ==> unified_query(FingerprintView::NodeKind(value), ns).1 == seq![value],
        unified_query(FingerprintView::PlainTable, ns).1.len() == 0,
        unified_query(FingerprintView::PredicateIn(kind, predicates), ns) == edge_query(
            kind,
            predicates,
            false,
            ns,
        ),
        unified_query(FingerprintView::MinusPredicates(kind, predicates), ns) == edge_query(
            kind,
            predicates,
            true,
            ns,
        ),
{
    match ns {
        Some(n) => {
            assert(seq![value].push(n) =~= seq![value, n]);
        },
        None => {},
    }
}

/// A violation tells of its edge: which it is, on which side, and what is missing
/// there, as far as that is known.
pub proof fn law_violations_tell_of_the_edge(v: FkViolation, e: DanglingEdge, side: Seq<char>)
    requires
        tells_of_edge(v, e, side),
    ensures
        v.edge_id@ == e.edge_id@,
        v.edge_kind@ == e.edge_kind@,
        v.side@ == side,
        e.missing_node_id matches Some(m) ==> v.missing_node_id@ == m@,
        e.missing_node_id is None ==> v.missing_node_id@.len() == 0,
{
}

/// A violation tells of its run: the table, and what it inserted of what it read.
pub proof fn law_violations_tell_of_the_run(v: IdempotencyViolation, r: BackfillRun)
    requires
        tells_of_rerun(v, r),
    ensures
        v.legacy_table@ == r.legacy_table@,
        v.rows_inserted_on_rerun == r.rows_inserted,
        v.rows_read_on_rerun == r.rows_read,
{
}

/// A smaller sample is the front of a larger one of the same seed.
pub proof fn law_samples_grow_at_the_end(n: nat, a: nat, b: nat, seed: u64)
    requires
        a <= b,
    ensures
        sampled(n, a, seed).is_prefix_of(sampled(n, b, seed)),
        sampled(n, a, seed).len() <= a,
{
    let order = shuffle_order(positions(n), seed);
    let s = sampled(n, a, seed);
    let t = sampled(n, b, seed);
    assert(s =~= t.subrange(0, s.len() as int));
}

/// Judging a report again changes nothing that was found.
pub proof fn law_findings_stay(a: VerificationReport, b: VerificationReport)
    requires
        a.same_findings(b),
    ensures
        a.counts == b.counts,
        a.audit_violations == b.audit_violations,
        a.content_mismatches == b.content_mismatches,
        a.idempotency_violations == b.idempotency_violations,
        a.fk_violations == b.fk_violations,
        a.clean() == b.clean(),
{
}

} // verus!
