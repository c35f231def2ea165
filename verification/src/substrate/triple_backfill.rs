//! The resumable triple backfill: which memories are extracted, when a failed
//! one is tried again, and what is counted and checkpointed.
//!
//! The loop around it pages through the memories, asks the database whether a
//! memory has triples, calls the extractor and sleeps; each memory ends in one
//! [`MemoryEvent`].

use crate::json;
use crate::json::{bool_value, entry, object_value, optional_value, strings_value, text_value};
use crate::score::Score;
use crate::substrate::attributes;
use crate::substrate::backfill::{BackfillRun, ClosedRun};
use crate::text;
use crate::text::u64_text;
use vstd::arithmetic::power2::{lemma2_to64, lemma2_to64_rest, pow2};
use vstd::prelude::*;
use vstd::string::*;

verus! {

/// What the driver is called in the audit notes.
pub const DRIVER: &'static str = "backfill_triples_from_memories";

/// Under which mark the audit notes file its field mapping.
pub const DESIGN_REF: &'static str = "v04-unified-substrate §8.4 T26a";

/// How many failed memories the audit notes list.
pub const FAILED_IDS_CAP: usize = 10_000;

/// The bit pattern of an unlimited rate.
pub const UNLIMITED: u64 = 0x7ff0_0000_0000_0000;

/// The bit pattern of five calls per second.
pub const FIVE: u64 = 0x4014_0000_0000_0000;

/// Options of the triple backfill.
#[derive(Debug, Clone)]
pub struct TripleBackfillOpts {
    /// Memories fetched per page.
    pub batch_size: usize,
    /// Extractor calls per second; infinity for no limit.
    pub rate_limit_per_sec: Score,
    /// How often a memory is tried again before it counts as failed.
    pub max_retries: u32,
    /// The pause before the first retry, in milliseconds; each further one
    /// doubles it.
    pub retry_backoff_ms: u64,
    /// The namespace that the run is restricted to.
    pub namespace_filter: Option<String>,
    /// How many memories one run looks at.
    pub max_memories: Option<u64>,
}

impl Default for TripleBackfillOpts {
    /// No rate limit and no retries.
    fn default() -> (r: Self)
        ensures
            r.batch_size == 64,
            r.rate_limit_per_sec.bits == UNLIMITED,
            r.max_retries == 0,
            r.retry_backoff_ms == 250,
            r.namespace_filter is None,
            r.max_memories is None,
    {
        TripleBackfillOpts {
            batch_size: 64,
            rate_limit_per_sec: Score { bits: UNLIMITED },
            max_retries: 0,
            retry_backoff_ms: 250,
            namespace_filter: None,
            max_memories: None,
        }
    }
}

impl TripleBackfillOpts {
    /// Conservative options for a production run.
    pub fn production() -> (r: Self)
        ensures
            r.batch_size == 128,
            r.rate_limit_per_sec.bits == FIVE,
            r.max_retries == 3,
            r.retry_backoff_ms == 1_000,
            r.namespace_filter is None,
            r.max_memories is None,
    {
        TripleBackfillOpts {
            batch_size: 128,
            rate_limit_per_sec: Score { bits: FIVE },
            max_retries: 3,
            retry_backoff_ms: 1_000,
            namespace_filter: None,
            max_memories: None,
        }
    }
}

/// What became of one memory.
#[derive(Debug)]
pub enum MemoryEvent {
    /// It had triples already.
    AlreadyExtracted,
    /// The extractor answered, and so many triples were stored.
    Extracted(u64),
    /// The extractor failed for good, with this message.
    Failed(String),
}

/// What is written to the checkpoint after a memory.
#[derive(Debug)]
pub struct Checkpoint {
    /// The memory that was looked at last.
    pub last_memory_id: String,
    /// Memories that did not fail.
    pub memories_processed: u64,
    /// Triples stored.
    pub triples_inserted: u64,
    /// Memories that failed.
    pub memories_failed: u64,
}

/// The state of a run of the triple backfill.
#[derive(Debug)]
pub struct TripleRun {
    /// The memory behind which the next page starts.
    pub cursor: Option<String>,
    /// Memories looked at.
    pub rows_read: u64,
    /// Memories that were extracted.
    pub memories_inserted: u64,
    /// Memories that had triples.
    pub rows_skipped_existing: u64,
    /// Memories that failed.
    pub rows_failed: u64,
    /// Triples stored.
    pub triples_inserted_total: u64,
    /// The failed memories, as far as they are listed.
    pub failed_memory_ids: Vec<String>,
    /// Whether there are failed memories that are not listed.
    pub failed_ids_truncated: bool,
    /// The message of the last failure.
    pub last_error_message: Option<String>,
}

impl TripleRun {
    /// Every memory that was looked at is in one bucket, and the failed ones are
    /// listed up to the cap.
    pub open spec fn valid(self) -> bool {
        &&& self.rows_read == self.memories_inserted + self.rows_skipped_existing
            + self.rows_failed
        &&& self.failed_memory_ids@.len() == (if self.rows_failed <= FAILED_IDS_CAP {
            self.rows_failed as int
        } else {
            FAILED_IDS_CAP as int
        })
        &&& self.failed_ids_truncated == (self.rows_failed > FAILED_IDS_CAP)
    }

    /// Starts a run, behind the memory at which an unfinished one stopped.
    pub fn resume(cursor: Option<String>) -> (r: TripleRun)
        ensures
            r.valid(),
            r.cursor == cursor,
            r.rows_read == 0,
            r.memories_inserted == 0,
            r.rows_skipped_existing == 0,
            r.rows_failed == 0,
            r.triples_inserted_total == 0,
            r.failed_memory_ids@.len() == 0,
            !r.failed_ids_truncated,
            r.last_error_message is None,
    {
        TripleRun {
            cursor,
            rows_read: 0,
            memories_inserted: 0,
            rows_skipped_existing: 0,
            rows_failed: 0,
            triples_inserted_total: 0,
            failed_memory_ids: Vec::new(),
            failed_ids_truncated: false,
            last_error_message: None,
        }
    }

    /// Whether the run may look at one more memory.
    pub open spec fn open_for_more(self, opts: TripleBackfillOpts) -> bool {
        match opts.max_memories {
            Some(cap) => self.rows_read < cap,
            None => true,
        }
    }

    /// Whether the run may look at one more memory.
    pub fn may_read(&self, opts: &TripleBackfillOpts) -> (r: bool)
        ensures
            r == self.open_for_more(*opts),
    {
        match opts.max_memories {
            Some(cap) => self.rows_read < cap,
            None => true,
        }
    }

    /// The checkpoint of this state, behind `memory_id`.
    pub open spec fn checkpoint_is(self, c: Checkpoint, memory_id: Seq<char>) -> bool {
        &&& c.last_memory_id@ == memory_id
        &&& c.memories_processed == self.rows_read - self.rows_failed
        &&& c.triples_inserted == self.triples_inserted_total
        &&& c.memories_failed == self.rows_failed
    }

    /// Counts a memory and gives what the checkpoint says now.
    pub fn step(&mut self, memory_id: &str, event: MemoryEvent) -> (c: Checkpoint)
        requires
            old(self).valid(),
            old(self).rows_read < u64::MAX,
            event matches MemoryEvent::Extracted(n) ==> old(self).triples_inserted_total + n
                <= u64::MAX,
        ensures
            final(self).valid(),
            final(self).checkpoint_is(c, memory_id@),
            final(self).cursor matches Some(at) && at@ == memory_id@,
            final(self).rows_read == old(self).rows_read + 1,
            match event {
                MemoryEvent::AlreadyExtracted => {
                    &&& final(self).rows_skipped_existing == old(self).rows_skipped_existing + 1
                    &&& final(self).memories_inserted == old(self).memories_inserted
                    &&& final(self).rows_failed == old(self).rows_failed
                    &&& final(self).triples_inserted_total == old(self).triples_inserted_total
                    &&& final(self).failed_memory_ids@ == old(self).failed_memory_ids@
                    &&& final(self).last_error_message == old(self).last_error_message
                },
                MemoryEvent::Extracted(n) => {
                    &&& final(self).rows_skipped_existing == old(self).rows_skipped_existing
                    &&& final(self).memories_inserted == old(self).memories_inserted + 1
                    &&& final(self).rows_failed == old(self).rows_failed
                    &&& final(self).triples_inserted_total == old(self).triples_inserted_total
                        + n
                    &&& final(self).failed_memory_ids@ == old(self).failed_memory_ids@
                    &&& final(self).last_error_message == old(self).last_error_message
                },
                MemoryEvent::Failed(message) => {
                    &&& final(self).rows_skipped_existing == old(self).rows_skipped_existing
                    &&& final(self).memories_inserted == old(self).memories_inserted
                    &&& final(self).rows_failed == old(self).rows_failed + 1
                    &&& final(self).triples_inserted_total == old(self).triples_inserted_total
                    &&& text::views(final(self).failed_memory_ids@) == (if old(
                        self,
                    ).failed_memory_ids@.len() < FAILED_IDS_CAP {
                        text::views(old(self).failed_memory_ids@).push(memory_id@)
                    } else {
                        text::views(old(self).failed_memory_ids@)
                    })
                    &&& final(self).last_error_message == Some(message)
                },
            },
    {
        self.rows_read = self.rows_read + 1;
        match event {
            MemoryEvent::AlreadyExtracted => {
                self.rows_skipped_existing = self.rows_skipped_existing + 1;
            },
            MemoryEvent::Extracted(n) => {
                self.memories_inserted = self.memories_inserted + 1;
                self.triples_inserted_total = self.triples_inserted_total + n;
            },
            MemoryEvent::Failed(message) => {
                self.rows_failed = self.rows_failed + 1;
                if self.failed_memory_ids.len() < FAILED_IDS_CAP {
                    let ghost before = text::views(self.failed_memory_ids@);
                    self.failed_memory_ids.push(memory_id.to_owned());
                    assert(text::views(self.failed_memory_ids@) =~= before.push(memory_id@));
                } else {
                    self.failed_ids_truncated = true;
                }
                self.last_error_message = Some(message);
            },
        }
        self.cursor = Some(memory_id.to_owned());
        Checkpoint {
            last_memory_id: memory_id.to_owned(),
            memories_processed: self.rows_read - self.rows_failed,
            triples_inserted: self.triples_inserted_total,
            memories_failed: self.rows_failed,
        }
    }

    /// The audit notes of the finished run.
    pub open spec fn notes(
        self,
        rate: Seq<char>,
        opts: TripleBackfillOpts,
    ) -> attributes::Entries {
        seq![
            ("driver"@, json::json_string(DRIVER@)),
            ("design_ref"@, json::json_string(DESIGN_REF@)),
            ("memories_inserted"@, text::decimal(self.memories_inserted as nat)),
            ("triples_inserted_total"@, text::decimal(self.triples_inserted_total as nat)),
            ("rate_limit_per_sec"@, rate),
            ("max_retries"@, text::decimal(opts.max_retries as nat)),
            ("namespace_filter"@, json::optional_text(text::opt_view(opts.namespace_filter))),
            (
                "failed_memory_ids"@,
                json::json_array(json::string_texts(text::views(self.failed_memory_ids@))),
            ),
            ("failed_ids_truncated"@, json::bool_text(self.failed_ids_truncated)),
            (
                "last_error_message"@,
                json::optional_text(text::opt_view(self.last_error_message)),
            ),
        ]
    }

    /// Closes the run. Its audit counters give the triples that were stored as
    /// rows inserted; the memories that were extracted stand in the notes, and
    /// with the skipped and the failed ones they make up the rows read.
    pub fn close(
        &self,
        rate: &str,
        opts: &TripleBackfillOpts,
        run_id: String,
    ) -> (r: ClosedRun)
        requires
            self.valid(),
        ensures
            r.run.run_id@ == run_id@,
            r.run.legacy_table@ == "triples"@,
            r.run.rows_read == self.rows_read,
            r.run.rows_inserted == self.triples_inserted_total,
            r.run.rows_skipped_existing == self.rows_skipped_existing,
            r.run.rows_failed == self.rows_failed,
            r.run.rows_read == self.memories_inserted + r.run.rows_skipped_existing
                + r.run.rows_failed,
            r.notes@ == json::json_object(self.notes(rate@, *opts)),
    {
        let mut v: Vec<(String, String)> = Vec::new();
        v.push(entry("driver", text_value(DRIVER)));
        v.push(entry("design_ref", text_value(DESIGN_REF)));
        v.push(entry("memories_inserted", u64_text(self.memories_inserted)));
        v.push(entry("triples_inserted_total", u64_text(self.triples_inserted_total)));
        v.push(entry("rate_limit_per_sec", rate.to_owned()));
        v.push(entry("max_retries", u64_text(opts.max_retries as u64)));
        v.push(entry("namespace_filter", optional_value(&opts.namespace_filter)));
        v.push(entry("failed_memory_ids", strings_value(&self.failed_memory_ids)));
        v.push(entry("failed_ids_truncated", bool_value(self.failed_ids_truncated)));
        v.push(entry("last_error_message", optional_value(&self.last_error_message)));
        assert(json::entries_view(v@) =~= self.notes(rate@, *opts));
        ClosedRun {
            run: BackfillRun {
                run_id,
                legacy_table: "triples".to_owned(),
                rows_read: self.rows_read,
                rows_inserted: self.triples_inserted_total,
                rows_skipped_existing: self.rows_skipped_existing,
                rows_failed: self.rows_failed,
            },
            notes: object_value(&v),
        }
    }
}

/// The audit notes with which a run opens.
pub open spec fn opening_entries(
    rate: Seq<char>,
    opts: TripleBackfillOpts,
) -> attributes::Entries {
    seq![
        ("driver"@, json::json_string(DRIVER@)),
        ("design_ref"@, json::json_string(DESIGN_REF@)),
        ("rate_limit_per_sec"@, rate),
        ("max_retries"@, text::decimal(opts.max_retries as nat)),
        ("namespace_filter"@, json::optional_text(text::opt_view(opts.namespace_filter))),
    ]
}

/// The audit notes with which a run opens; `rate` is the rate limit as JSON
/// text.
pub fn opening_notes(rate: &str, opts: &TripleBackfillOpts) -> (r: String)
    ensures
        r@ == json::json_object(opening_entries(rate@, *opts)),
{
    let mut v: Vec<(String, String)> = Vec::new();
    v.push(entry("driver", text_value(DRIVER)));
    v.push(entry("design_ref", text_value(DESIGN_REF)));
    v.push(entry("rate_limit_per_sec", rate.to_owned()));
    v.push(entry("max_retries", u64_text(opts.max_retries as u64)));
    v.push(entry("namespace_filter", optional_value(&opts.namespace_filter)));
    assert(json::entries_view(v@) =~= opening_entries(rate@, *opts));
    object_value(&v)
}

/// The pause after failed attempt number `attempt`: the base, doubled each time,
/// and at most the largest number of milliseconds.
pub open spec fn backoff(base: u64, attempt: u32) -> int {
    let full = base * pow2(attempt as nat);
    if full <= u64::MAX {
        full
    } else {
        u64::MAX as int
    }
}

/// Two to the power of a small number.
fn power_of_two(n: u32) -> (r: u128)
    requires
        n < 64,
    ensures
        r == pow2(n as nat),
{
    let mut p: u128 = 1;
    let mut i: u32 = 0;
    proof {
        lemma2_to64();
        lemma2_to64_rest();
    }
    while i < n
        invariant
            i <= n < 64,
            p == pow2(i as nat),
        decreases n - i,
    {
        proof {
            vstd::arithmetic::power2::lemma_pow2_unfold((i + 1) as nat);
            vstd::arithmetic::power2::lemma_pow2_strictly_increases(i as nat, 64);
            lemma2_to64();
            lemma2_to64_rest();
        }
        p = p * 2;
        i = i + 1;
    }
    p
}

/// How long to wait before another attempt, where one is left: `attempt` counts
/// the failed ones before this one.
pub fn retry_after(opts: &TripleBackfillOpts, attempt: u32) -> (r: Option<u64>)
    requires
        attempt < opts.max_retries ==> attempt < 64,
    ensures
        r is Some <==> attempt < opts.max_retries,
        r matches Some(ms) ==> ms == backoff(opts.retry_backoff_ms, attempt),
{
    if attempt < opts.max_retries {
        let factor: u128 = power_of_two(attempt);
        proof {
            vstd::arithmetic::power2::lemma_pow2_strictly_increases(attempt as nat, 64);
            lemma2_to64();
            lemma2_to64_rest();
            assert(opts.retry_backoff_ms * factor <= 0xffff_ffff_ffff_ffff
                * 0x1_0000_0000_0000_0000) by (nonlinear_arith)
                requires
                    0 <= opts.retry_backoff_ms <= 0xffff_ffff_ffff_ffff,
                    0 <= factor <= 0x1_0000_0000_0000_0000,
            ;
        }
        let full: u128 = (opts.retry_backoff_ms as u128) * factor;
        if full <= u64::MAX as u128 {
            Some(full as u64)
        } else {
            Some(u64::MAX)
        }
    } else {
        None
    }
}

/// The pause never gets shorter from one retry to the next.
pub proof fn law_backoff_grows(base: u64, attempt: u32)
    requires
        attempt < u32::MAX,
    ensures
        backoff(base, attempt) <= backoff(base, (attempt + 1) as u32),
{
    vstd::arithmetic::power2::lemma_pow2_unfold((attempt + 1) as nat);
    let p = pow2(attempt as nat) as int;
    assert(base * p <= base * (2 * p)) by (nonlinear_arith)
        requires
            base >= 0,
            p >= 0,
    ;
}

/// The query for the next page of memories.
pub open spec fn page_query(behind_cursor: bool, in_namespace: bool) -> Seq<char> {
    "SELECT id, content FROM memories WHERE deleted_at IS NULL "@ + (if behind_cursor {
        "AND id > ?"@
    } else {
        ""@
    }) + " "@ + (if in_namespace {
        "AND namespace = ?"@
    } else {
        ""@
    }) + " ORDER BY id ASC LIMIT ?"@
}

/// The query for the next page of memories, in ascending order of their ids:
/// with the cursor, the namespace and the page size as parameters, as far as
/// they are there.
pub fn page_sql(cursor: &Option<String>, opts: &TripleBackfillOpts) -> (r: String)
    ensures
        r@ == page_query(cursor is Some, opts.namespace_filter is Some),
{
    let mut out: String = "SELECT id, content FROM memories WHERE deleted_at IS NULL ".to_owned();
    if cursor.is_some() {
        out.append("AND id > ?");
    } else {
        out.append("");
    }
    out.append(" ");
    if opts.namespace_filter.is_some() {
        out.append("AND namespace = ?");
    } else {
        out.append("");
    }
    out.append(" ORDER BY id ASC LIMIT ?");
    out
}

/// A run that stopped resumes with exactly the memories that it had not looked
/// at: of memories read in the order of their ids, those behind the checkpoint
/// of the first `k` are the others.
pub proof fn law_resume_covers_rest(ids: Seq<Seq<char>>, k: int, i: int)
    requires
        text::strictly_sorted(ids),
        0 < k <= ids.len(),
        0 <= i < ids.len(),
    ensures
        text::text_lt(ids[k - 1], ids[i]) <==> i >= k,
{
    if i == k - 1 {
        text::lemma_text_lt_irreflexive(ids[i]);
    } else if i < k - 1 {
        assert(text::text_lt(ids[i], ids[k - 1]));
        if text::text_lt(ids[k - 1], ids[i]) {
            text::lemma_text_lt_transitive(ids[i], ids[k - 1], ids[i]);
            text::lemma_text_lt_irreflexive(ids[i]);
        }
    }
}

/// The first retry waits the base time, and every further one twice as long as
/// the one before, as far as that can be told.
pub proof fn law_backoff_doubles(base: u64, attempt: u32)
    requires
        attempt < u32::MAX,
    ensures
        backoff(base, 0) == base,
        2 * backoff(base, attempt) <= u64::MAX ==> backoff(base, (attempt + 1) as u32) == 2
            * backoff(base, attempt),
        2 * backoff(base, attempt) > u64::MAX ==> backoff(base, (attempt + 1) as u32) == u64::MAX,
{
    vstd::arithmetic::power2::lemma2_to64();
    vstd::arithmetic::power2::lemma_pow2_unfold((attempt + 1) as nat);
    assert(base * 1 == base);
    let p = pow2(attempt as nat);
    assert(base * (2 * p) == 2 * (base * p)) by (nonlinear_arith);
}

/// Every memory that was read is either done or failed, and a checkpoint tells
/// them apart.
pub proof fn law_checkpoint_adds_up(run: TripleRun, c: Checkpoint, memory_id: Seq<char>)
    requires
        run.valid(),
        run.checkpoint_is(c, memory_id),
    ensures
        c.last_memory_id@ == memory_id,
        c.memories_processed + c.memories_failed == run.rows_read,
        c.memories_processed == run.memories_inserted + run.rows_skipped_existing,
        c.triples_inserted == run.triples_inserted_total,
{
}

/// A run goes on until it has read as many memories as it may.
pub proof fn law_run_stops_at_the_limit(run: TripleRun, opts: TripleBackfillOpts)
    ensures
        opts.max_memories is None ==> run.open_for_more(opts),
        opts.max_memories matches Some(cap) ==> (run.open_for_more(opts) <==> run.rows_read < cap),
{
}

/// Of the memories that failed as many are named as fit, ten thousand at most,
/// and where more failed that is told.
pub proof fn law_failures_are_named(run: TripleRun)
    requires
        run.valid(),
    ensures
        run.rows_failed <= 10_000 ==> run.failed_memory_ids@.len() == run.rows_failed
            && !run.failed_ids_truncated,
        run.rows_failed > 10_000 ==> run.failed_memory_ids@.len() == 10_000
            && run.failed_ids_truncated,
{
}

/// A page holds memories that are not deleted, in the order of their ids, behind
/// the cursor where there is one, and of one namespace where one is asked for.
pub proof fn law_page_is_read_in_order(behind_cursor: bool, in_namespace: bool)
    ensures
        text::starts(
            page_query(behind_cursor, in_namespace),
            "SELECT id, content FROM memories WHERE deleted_at IS NULL "@,
        ),
        text::ends(page_query(behind_cursor, in_namespace), " ORDER BY id ASC LIMIT ?"@),
        behind_cursor ==> text::occurs(page_query(behind_cursor, in_namespace), "AND id > ?"@),
        in_namespace ==> text::occurs(
            page_query(behind_cursor, in_namespace),
            "AND namespace = ?"@,
        ),
        page_query(true, in_namespace).len() == page_query(false, in_namespace).len()
            + "AND id > ?"@.len(),
        page_query(behind_cursor, true).len() == page_query(behind_cursor, false).len()
            + "AND namespace = ?"@.len(),
{
    reveal_strlit("");
    let q = page_query(behind_cursor, in_namespace);
    let head = "SELECT id, content FROM memories WHERE deleted_at IS NULL "@;
    let tail = " ORDER BY id ASC LIMIT ?"@;
    assert(q.take(head.len() as int) =~= head);
    assert(q.skip(q.len() - tail.len()) =~= tail);
    let cursor = "AND id > ?"@;
    let space = "AND namespace = ?"@;
    if behind_cursor {
        let rest = q.skip((head.len() + cursor.len()) as int);
        assert(q =~= head + cursor + rest);
        text::lemma_occurs_between(head, cursor, rest);
    }
    if in_namespace {
        let front = q.take(q.len() - tail.len() - space.len());
        assert(q =~= front + space + tail);
        text::lemma_occurs_between(front, space, tail);
    }
}

/// The notes of a run tell what it did.
pub proof fn law_notes_tell_the_run(run: TripleRun, rate: Seq<char>, opts: TripleBackfillOpts)
    ensures
        json::lookup(run.notes(rate, opts), "memories_inserted"@) == Some(
            text::decimal(run.memories_inserted as nat),
        ),
        json::lookup(run.notes(rate, opts), "triples_inserted_total"@) == Some(
            text::decimal(run.triples_inserted_total as nat),
        ),
        json::lookup(run.notes(rate, opts), "rate_limit_per_sec"@) == Some(rate),
        json::lookup(run.notes(rate, opts), "max_retries"@) == Some(
            text::decimal(opts.max_retries as nat),
        ),
        json::lookup(run.notes(rate, opts), "failed_memory_ids"@) == Some(
            json::json_array(
                text::views(run.failed_memory_ids@).map_values(
                    |t: Seq<char>| json::json_string(t),
                ),
            ),
        ),
        json::lookup(run.notes(rate, opts), "failed_ids_truncated"@) == Some(
            if run.failed_ids_truncated {
                "true"@
            } else {
                "false"@
            },
        ),
{
    reveal_strlit("driver");
    reveal_strlit("design_ref");
    reveal_strlit("memories_inserted");
    reveal_strlit("triples_inserted_total");
    reveal_strlit("rate_limit_per_sec");
    reveal_strlit("max_retries");
    reveal_strlit("namespace_filter");
    reveal_strlit("failed_memory_ids");
    reveal_strlit("failed_ids_truncated");
    reveal_strlit("last_error_message");
    assert("memories_inserted"@[0] == 'm' && "failed_memory_ids"@[0] == 'f');
    assert("rate_limit_per_sec"@[0] == 'r' && "last_error_message"@[0] == 'l');
    assert("driver"@.len() == 6 && "design_ref"@.len() == 10 && "memories_inserted"@.len() == 17);
    assert("triples_inserted_total"@.len() == 22 && "max_retries"@.len() == 11);
    assert("namespace_filter"@.len() == 16 && "failed_memory_ids"@.len() == 17);
    assert("rate_limit_per_sec"@.len() == 18 && "last_error_message"@.len() == 18);
    assert("failed_ids_truncated"@.len() == 20);
    let e = run.notes(rate, opts);
    json::law_last_entry_counts(e, "memories_inserted"@, 2);
    json::law_last_entry_counts(e, "triples_inserted_total"@, 3);
    json::law_last_entry_counts(e, "rate_limit_per_sec"@, 4);
    json::law_last_entry_counts(e, "max_retries"@, 5);
    json::law_last_entry_counts(e, "failed_memory_ids"@, 7);
    json::law_last_entry_counts(e, "failed_ids_truncated"@, 8);
    assert(json::string_texts(text::views(run.failed_memory_ids@)) =~= text::views(
        run.failed_memory_ids@,
    ).map_values(|t: Seq<char>| json::json_string(t)));
}

/// The notes with which a run opens tell its settings, and they are those with
/// which it closes.
pub proof fn law_opening_notes_tell_the_settings(
    run: TripleRun,
    rate: Seq<char>,
    opts: TripleBackfillOpts,
)
    ensures
        json::lookup(opening_entries(rate, opts), "rate_limit_per_sec"@) == Some(rate),
        json::lookup(opening_entries(rate, opts), "max_retries"@) == Some(
            text::decimal(opts.max_retries as nat),
        ),
        json::lookup(opening_entries(rate, opts), "namespace_filter"@) == Some(
            match opts.namespace_filter {
                Some(n) => json::json_string(n@),
                None => "null"@,
            },
        ),
        json::lookup(opening_entries(rate, opts), "driver"@) == json::lookup(
            run.notes(rate, opts),
            "driver"@,
        ),
        json::lookup(opening_entries(rate, opts), "namespace_filter"@) == json::lookup(
            run.notes(rate, opts),
            "namespace_filter"@,
        ),
{
    reveal_strlit("driver");
    reveal_strlit("design_ref");
    reveal_strlit("memories_inserted");
    reveal_strlit("triples_inserted_total");
    reveal_strlit("rate_limit_per_sec");
    reveal_strlit("max_retries");
    reveal_strlit("namespace_filter");
    reveal_strlit("failed_memory_ids");
    reveal_strlit("failed_ids_truncated");
    reveal_strlit("last_error_message");
    assert("driver"@.len() == 6 && "design_ref"@.len() == 10 && "memories_inserted"@.len() == 17);
    assert("triples_inserted_total"@.len() == 22 && "max_retries"@.len() == 11);
    assert("namespace_filter"@.len() == 16 && "failed_memory_ids"@.len() == 17);
    assert("rate_limit_per_sec"@.len() == 18 && "last_error_message"@.len() == 18);
    assert("failed_ids_truncated"@.len() == 20);
    let e = opening_entries(rate, opts);
    let n = run.notes(rate, opts);
    json::law_last_entry_counts(e, "driver"@, 0);
    json::law_last_entry_counts(e, "rate_limit_per_sec"@, 2);
    json::law_last_entry_counts(e, "max_retries"@, 3);
    json::law_last_entry_counts(e, "namespace_filter"@, 4);
    json::law_last_entry_counts(n, "driver"@, 0);
    json::law_last_entry_counts(n, "namespace_filter"@, 6);
}

} // verus!
