//! The content check of the verifier: a sampled legacy row against the row that
//! a driver projects it to.
//!
//! Numbers that the database keeps as doubles come with their printed form, and
//! where a tolerance applies, with the judgement whether they lie further apart.

use crate::hashing;
use crate::hashing::hash_bytes;
use crate::json;
use crate::json::{canonical, equal, find, parse, JsonNode, JsonView};
use crate::score::Score;
use crate::substrate::backfill;
use crate::substrate::backfill::{
    plan_memory_entity, plan_provenance, project_entity, read_or_quote, EdgePlan, HebbianGroup,
    MemoryEntityRow, ProvenanceRow,
};
use crate::substrate::identity;
use crate::substrate::identity::{
    backfill_hebbian_links_to_edges_hash_input, canonical_pair, uuid_from_hash,
};
use crate::substrate::verify::{ContentMismatch, VerifyOpts};
use crate::text;
use crate::text::{debug_text, i64_text, join, same, u64_text};
use vstd::prelude::*;
use vstd::string::*;

verus! {

/// The model of a mismatch: table, row, field, legacy value, unified value.
pub struct MismatchView {
    /// The legacy table.
    pub table: Seq<char>,
    /// The row.
    pub row: Seq<char>,
    /// The field.
    pub field: Seq<char>,
    /// The value on the legacy side.
    pub legacy: Seq<char>,
    /// The value on the unified side.
    pub unified: Seq<char>,
}

/// The models of a list of mismatches.
pub open spec fn mismatches(v: Seq<ContentMismatch>) -> Seq<MismatchView> {
    v.map_values(
        |m: ContentMismatch|
            MismatchView {
                table: m.legacy_table@,
                row: m.row_id@,
                field: m.field@,
                legacy: m.legacy@,
                unified: m.unified@,
            },
    )
}

/// A list of mismatches with one more where `differs` holds.
pub open spec fn noted(
    found: Seq<MismatchView>,
    differs: bool,
    m: MismatchView,
) -> Seq<MismatchView> {
    if differs {
        found.push(m)
    } else {
        found
    }
}

/// Adds a mismatch where `differs` holds.
fn note(
    out: &mut Vec<ContentMismatch>,
    differs: bool,
    table: &str,
    row: &str,
    field: &str,
    legacy: &str,
    unified: &str,
)
    ensures
        mismatches(final(out)@) == noted(
            mismatches(old(out)@),
            differs,
            (MismatchView {
                table: table@,
                row: row@,
                field: field@,
                legacy: legacy@,
                unified: unified@,
            }),
        ),
{
    if differs {
        let ghost before = mismatches(out@);
        out.push(
            ContentMismatch {
                legacy_table: table.to_owned(),
                row_id: row.to_owned(),
                field: field.to_owned(),
                legacy: legacy.to_owned(),
                unified: unified.to_owned(),
            },
        );
        assert(mismatches(out@) =~= before.push(
            (MismatchView {
                table: table@,
                row: row@,
                field: field@,
                legacy: legacy@,
                unified: unified@,
            }),
        ));
    }
}

/// A mismatch of two texts in their debug form.
pub open spec fn text_mismatch(
    table: Seq<char>,
    row: Seq<char>,
    field: Seq<char>,
    l: Seq<char>,
    u: Seq<char>,
) -> MismatchView {
    MismatchView { table, row, field, legacy: text::debug_form(l), unified: text::debug_form(u) }
}

fn note_text(
    out: &mut Vec<ContentMismatch>,
    table: &str,
    row: &str,
    field: &str,
    l: &str,
    u: &str,
)
    ensures
        mismatches(final(out)@) == noted(
            mismatches(old(out)@),
            l@ != u@,
            text_mismatch(table@, row@, field@, l@, u@),
        ),
{
    if !same(l, u) {
        note(out, true, table, row, field, debug_text(l).as_str(), debug_text(u).as_str());
    }
}

/// A column that holds a double or nothing.
#[derive(Debug)]
pub struct Column {
    /// The value.
    pub value: Option<Score>,
    /// How it is printed.
    pub printed: String,
}

impl Column {
    /// Whether two columns hold different values: doubles compare as numbers.
    pub open spec fn differs(self, other: Column) -> bool {
        match (self.value, other.value) {
            (None, None) => false,
            (Some(a), Some(b)) => a.nan() || b.nan() || a.rank() != b.rank(),
            _ => true,
        }
    }

    fn differs_from(&self, other: &Column) -> (r: bool)
        ensures
            r == self.differs(*other),
    {
        match (self.value, other.value) {
            (None, None) => false,
            (Some(a), Some(b)) => !(a.ge(&b) && b.ge(&a)),
            _ => true,
        }
    }
}

/// A mismatch of two columns.
pub open spec fn column_mismatch(
    table: Seq<char>,
    row: Seq<char>,
    field: Seq<char>,
    l: Column,
    u: Column,
) -> MismatchView {
    MismatchView { table, row, field, legacy: l.printed@, unified: u.printed@ }
}

fn note_column(
    out: &mut Vec<ContentMismatch>,
    table: &str,
    row: &str,
    field: &str,
    l: &Column,
    u: &Column,
)
    ensures
        mismatches(final(out)@) == noted(
            mismatches(old(out)@),
            l.differs(*u),
            column_mismatch(table@, row@, field@, *l, *u),
        ),
{
    note(
        out,
        l.differs_from(u),
        table,
        row,
        field,
        l.printed.as_str(),
        u.printed.as_str(),
    );
}

/// A mismatch of two integers.
pub open spec fn count_mismatch(
    table: Seq<char>,
    row: Seq<char>,
    field: Seq<char>,
    l: i64,
    u: i64,
) -> MismatchView {
    MismatchView {
        table,
        row,
        field,
        legacy: text::signed_decimal(l as int),
        unified: text::signed_decimal(u as int),
    }
}

fn note_count(
    out: &mut Vec<ContentMismatch>,
    table: &str,
    row: &str,
    field: &str,
    l: i64,
    u: i64,
)
    ensures
        mismatches(final(out)@) == noted(
            mismatches(old(out)@),
            l != u,
            count_mismatch(table@, row@, field@, l, u),
        ),
{
    if l != u {
        note(out, true, table, row, field, i64_text(l).as_str(), i64_text(u).as_str());
    }
}

/// Two readings of a time or a confidence, and whether they lie further apart
/// than the tolerance.
#[derive(Debug)]
pub struct Drift {
    /// Whether they do.
    pub beyond: bool,
    /// The legacy reading, printed.
    pub legacy: String,
    /// The unified reading, printed.
    pub unified: String,
}

impl Drift {
    /// The mismatch that it gives.
    pub open spec fn mismatch(
        self,
        table: Seq<char>,
        row: Seq<char>,
        field: Seq<char>,
    ) -> MismatchView {
        MismatchView { table, row, field, legacy: self.legacy@, unified: self.unified@ }
    }
}

/// The mismatch of a row that is missing on one side.
pub open spec fn missing_mismatch(
    table: Seq<char>,
    row: Seq<char>,
    legacy_there: bool,
) -> MismatchView {
    if legacy_there {
        MismatchView {
            table,
            row,
            field: "existence"@,
            legacy: "present"@,
            unified: "missing"@,
        }
    } else {
        MismatchView { table, row, field: "existence"@, legacy: "missing"@, unified: "n/a"@ }
    }
}

fn note_missing(out: &mut Vec<ContentMismatch>, table: &str, row: &str, legacy_there: bool)
    ensures
        mismatches(final(out)@) == mismatches(old(out)@).push(
            missing_mismatch(table@, row@, legacy_there),
        ),
{
    if legacy_there {
        note(out, true, table, row, "existence", "present", "missing");
    } else {
        note(out, true, table, row, "existence", "missing", "n/a");
    }
}

// ---------------------------------------------------------------------------
// memories against nodes
// ---------------------------------------------------------------------------

/// A memory, as either side holds it.
#[derive(Debug)]
pub struct MemoryRow {
    /// Its id.
    pub id: String,
    /// Its namespace.
    pub namespace: String,
    /// Its layer.
    pub layer: String,
    /// Its type.
    pub memory_type: String,
    /// Its content.
    pub content: String,
    /// When it happened.
    pub occurred_at: Column,
    /// When it was stored.
    pub created_at: Column,
    /// Its working strength.
    pub working_strength: Column,
    /// Its core strength.
    pub core_strength: Column,
    /// Its importance.
    pub importance: Column,
    /// How often it was consolidated.
    pub consolidation_count: i64,
    /// Whether it is pinned.
    pub pinned: i64,
    /// Where it came from.
    pub source: String,
    /// Its metadata or attributes, as JSON text.
    pub attributes_json: String,
}

/// The mismatches of the sampled memories after one more pair of rows.
pub open spec fn memory_mismatches(
    found: Seq<MismatchView>,
    l: MemoryRow,
    u: MemoryRow,
) -> Seq<MismatchView> {
    let t = "memories"@;
    let id = l.id@;
    let m = noted(
        found,
        l.namespace@ != u.namespace@,
        text_mismatch(t, id, "namespace"@, l.namespace@, u.namespace@),
    );
    let m = noted(m, l.layer@ != u.layer@, text_mismatch(t, id, "layer"@, l.layer@, u.layer@));
    let m = noted(
        m,
        l.memory_type@ != u.memory_type@,
        text_mismatch(t, id, "memory_type"@, l.memory_type@, u.memory_type@),
    );
    let m = noted(
        m,
        l.content@ != u.content@,
        text_mismatch(t, id, "content"@, l.content@, u.content@),
    );
    let m = noted(
        m,
        l.occurred_at.differs(u.occurred_at),
        column_mismatch(t, id, "occurred_at"@, l.occurred_at, u.occurred_at),
    );
    let m = noted(
        m,
        l.created_at.differs(u.created_at),
        column_mismatch(t, id, "created_at"@, l.created_at, u.created_at),
    );
    let m = noted(
        m,
        l.working_strength.differs(u.working_strength),
        column_mismatch(t, id, "working_strength"@, l.working_strength, u.working_strength),
    );
    let m = noted(
        m,
        l.core_strength.differs(u.core_strength),
        column_mismatch(t, id, "core_strength"@, l.core_strength, u.core_strength),
    );
    let m = noted(
        m,
        l.importance.differs(u.importance),
        column_mismatch(t, id, "importance"@, l.importance, u.importance),
    );
    let m = noted(
        m,
        l.consolidation_count != u.consolidation_count,
        count_mismatch(t, id, "consolidation_count"@, l.consolidation_count, u.consolidation_count),
    );
    let m = noted(
        m,
        l.pinned != u.pinned,
        count_mismatch(t, id, "pinned"@, l.pinned, u.pinned),
    );
    let m = noted(
        m,
        l.source@ != u.source@,
        text_mismatch(t, id, "source"@, l.source@, u.source@),
    );
    let la = backfill::read_or_quoted(l.attributes_json@);
    let ua = backfill::read_or_quoted(u.attributes_json@);
    noted(
        m,
        !json::json_equal(la, ua),
        (MismatchView { table: t, row: id, field: "attributes"@, legacy: la, unified: ua }),
    )
}

/// Whether two memory rows hold the same, their numbers compared as numbers.
pub open spec fn memories_agree(l: MemoryRow, u: MemoryRow) -> bool {
    &&& l.namespace@ == u.namespace@
    &&& l.layer@ == u.layer@
    &&& l.memory_type@ == u.memory_type@
    &&& l.content@ == u.content@
    &&& !l.occurred_at.differs(u.occurred_at)
    &&& !l.created_at.differs(u.created_at)
    &&& !l.working_strength.differs(u.working_strength)
    &&& !l.core_strength.differs(u.core_strength)
    &&& !l.importance.differs(u.importance)
    &&& l.consolidation_count == u.consolidation_count
    &&& l.pinned == u.pinned
    &&& l.source@ == u.source@
    &&& l.attributes_json@ == u.attributes_json@
}

/// Compares a memory with its node, field by field; the attributes as JSON
/// values, whatever the order of their keys. A node that holds what the memory
/// holds gives no mismatch.
pub fn compare_memory_rows(l: &MemoryRow, u: &MemoryRow, out: &mut Vec<ContentMismatch>)
    ensures
        mismatches(final(out)@) == memory_mismatches(mismatches(old(out)@), *l, *u),
        memories_agree(*l, *u) ==> mismatches(final(out)@) == mismatches(old(out)@),
{
    let t: &str = "memories";
    let id: &str = l.id.as_str();
    note_text(out, t, id, "namespace", l.namespace.as_str(), u.namespace.as_str());
    note_text(out, t, id, "layer", l.layer.as_str(), u.layer.as_str());
    note_text(out, t, id, "memory_type", l.memory_type.as_str(), u.memory_type.as_str());
    note_text(out, t, id, "content", l.content.as_str(), u.content.as_str());
    note_column(out, t, id, "occurred_at", &l.occurred_at, &u.occurred_at);
    note_column(out, t, id, "created_at", &l.created_at, &u.created_at);
    note_column(out, t, id, "working_strength", &l.working_strength, &u.working_strength);
    note_column(out, t, id, "core_strength", &l.core_strength, &u.core_strength);
    note_column(out, t, id, "importance", &l.importance, &u.importance);
    note_count(out, t, id, "consolidation_count", l.consolidation_count, u.consolidation_count);
    note_count(out, t, id, "pinned", l.pinned, u.pinned);
    note_text(out, t, id, "source", l.source.as_str(), u.source.as_str());
    let la: String = read_or_quote(l.attributes_json.as_str());
    let ua: String = read_or_quote(u.attributes_json.as_str());
    let differs: bool = !equal(la.as_str(), ua.as_str());
    note(out, differs, t, id, "attributes", la.as_str(), ua.as_str());
}

/// The mismatches after one more sampled memory.
pub open spec fn memory_check(
    found: Seq<MismatchView>,
    id: Seq<char>,
    l: Option<MemoryRow>,
    u: Option<MemoryRow>,
) -> Seq<MismatchView> {
    match (l, u) {
        (None, _) => found.push(missing_mismatch("memories"@, id, false)),
        (Some(_), None) => found.push(missing_mismatch("memories"@, id, true)),
        (Some(a), Some(b)) => memory_mismatches(found, a, b),
    }
}

/// Checks a sampled memory.
pub fn spot_check_memories(
    id: &str,
    l: &Option<MemoryRow>,
    u: &Option<MemoryRow>,
    out: &mut Vec<ContentMismatch>,
)
    ensures
        mismatches(final(out)@) == memory_check(mismatches(old(out)@), id@, *l, *u),
{
    match (l, u) {
        (None, _) => note_missing(out, "memories", id, false),
        (Some(_), None) => note_missing(out, "memories", id, true),
        (Some(a), Some(b)) => compare_memory_rows(a, b, out),
    }
}

// ---------------------------------------------------------------------------
// memory_embeddings against node_embeddings
// ---------------------------------------------------------------------------

/// The bytes of a number, the least significant one first.
pub open spec fn le_bytes(n: u64) -> Seq<u8> {
    Seq::new(8, |i: int| byte_at(n as int, i as nat))
}

/// Byte `i` of a number, counted from the least significant one.
pub open spec fn byte_at(n: int, i: nat) -> u8
    decreases i,
{
    if i == 0 {
        (n % 256) as u8
    } else {
        byte_at(n / 256, (i - 1) as nat)
    }
}

/// A short fingerprint of some bytes, for messages: their default hash.
pub fn blake_short(bytes: &[u8]) -> (r: [u8; 8])
    ensures
        r@ == le_bytes(hashing::hash_of_bytes(bytes@)),
{
    let h: u64 = hash_bytes(bytes);
    let h1: u64 = h / 256;
    let h2: u64 = h1 / 256;
    let h3: u64 = h2 / 256;
    let h4: u64 = h3 / 256;
    let h5: u64 = h4 / 256;
    let h6: u64 = h5 / 256;
    let h7: u64 = h6 / 256;
    let out: [u8; 8] = [
        (h % 256) as u8,
        (h1 % 256) as u8,
        (h2 % 256) as u8,
        (h3 % 256) as u8,
        (h4 % 256) as u8,
        (h5 % 256) as u8,
        (h6 % 256) as u8,
        (h7 % 256) as u8,
    ];
    proof {
        reveal_with_fuel(byte_at, 9);
        assert(out@ =~= le_bytes(h));
    }
    out
}

/// The debug form of a list of bytes: decimal, between brackets.
pub open spec fn byte_list(b: Seq<u8>) -> Seq<char> {
    seq!['['] + text::joined(b.map_values(|x: u8| text::decimal(x as nat)), ", "@) + seq![']']
}

fn byte_list_text(b: &[u8; 8]) -> (r: String)
    ensures
        r@ == byte_list(b@),
{
    let mut items: Vec<String> = Vec::new();
    let ghost all = b@.map_values(|x: u8| text::decimal(x as nat));
    let mut i: usize = 0;
    while i < 8
        invariant
            i <= 8,
            all == b@.map_values(|x: u8| text::decimal(x as nat)),
            all.len() == 8,
            text::views(items@) == all.take(i as int),
        decreases 8 - i,
    {
        let item: String = u64_text(b[i] as u64);
        let ghost before = text::views(items@);
        let ghost added = item@;
        items.push(item);
        proof {
            assert(text::views(items@) =~= before.push(added));
            assert(all.take(i + 1) =~= all.take(i as int).push(all[i as int]));
        }
        i += 1;
    }
    assert(all.take(8) =~= all);
    let mut out: String = String::new();
    out.push('[');
    out.append(join(&items, ", ").as_str());
    out.push(']');
    assert(out@ =~= byte_list(b@));
    out
}

/// How an embedding is named in a mismatch: its length and fingerprint.
pub open spec fn blob_label(b: Seq<u8>) -> Seq<char> {
    text::decimal(b.len()) + " bytes (hash "@ + byte_list(le_bytes(hashing::hash_of_bytes(b)))
        + ")"@
}

fn blob_text(b: &Vec<u8>) -> (r: String)
    ensures
        r@ == blob_label(b@),
{
    let mut out: String = u64_text(b.len() as u64);
    out.append(" bytes (hash ");
    out.append(byte_list_text(&blake_short(b.as_slice())).as_str());
    out.append(")");
    out
}

/// Whether two byte strings are the same.
fn same_bytes(a: &Vec<u8>, b: &Vec<u8>) -> (r: bool)
    ensures
        r == (a@ == b@),
{
    if a.len() != b.len() {
        return false;
    }
    let mut i: usize = 0;
    while i < a.len()
        invariant
            i <= a@.len(),
            a@.len() == b@.len(),
            forall|k: int| 0 <= k < i ==> #[trigger] a@[k] == b@[k],
        decreases a.len() - i,
    {
        if a[i] != b[i] {
            return false;
        }
        i += 1;
    }
    assert(a@ =~= b@);
    true
}

/// An embedding, as either side holds it.
#[derive(Debug)]
pub struct EmbeddingRow {
    /// The memory.
    pub memory_id: String,
    /// The model.
    pub model: String,
    /// The dimensions.
    pub dimensions: i64,
    /// The vector, encoded.
    pub embedding: Vec<u8>,
}

/// Whether the time of a legacy embedding was read and is not the epoch itself,
/// which also stands for a time that could not be read.
pub open spec fn time_known(instant: Option<(i64, u32)>) -> bool {
    match instant {
        Some(t) => t.0 * 1_000_000_000 + t.1 != 0,
        None => false,
    }
}

/// The mismatches after one more pair of embeddings.
pub open spec fn embedding_mismatches(
    found: Seq<MismatchView>,
    row: Seq<char>,
    l: EmbeddingRow,
    u: EmbeddingRow,
    instant: Option<(i64, u32)>,
    created: Drift,
) -> Seq<MismatchView> {
    let t = "memory_embeddings"@;
    let m = noted(
        found,
        l.memory_id@ != u.memory_id@,
        text_mismatch(t, row, "memory_id"@, l.memory_id@, u.memory_id@),
    );
    let m = noted(
        m,
        l.model@ != u.model@,
        text_mismatch(t, row, "model"@, l.model@, u.model@),
    );
    let m = noted(
        m,
        l.dimensions != u.dimensions,
        count_mismatch(t, row, "dimensions"@, l.dimensions, u.dimensions),
    );
    let m = noted(
        m,
        l.embedding@ != u.embedding@,
        (MismatchView {
            table: t,
            row,
            field: "embedding"@,
            legacy: blob_label(l.embedding@),
            unified: blob_label(u.embedding@),
        }),
    );
    noted(
        m,
        time_known(instant) && created.beyond,
        created.mismatch(t, row, "created_at_epoch"@),
    )
}

/// Compares an embedding with its projection: the vector byte for byte, and the
/// time where the legacy one could be read.
pub fn compare_embedding_rows(
    l: &EmbeddingRow,
    u: &EmbeddingRow,
    row_id: &str,
    instant: Option<(i64, u32)>,
    created: &Drift,
    out: &mut Vec<ContentMismatch>,
)
    ensures
        mismatches(final(out)@) == embedding_mismatches(
            mismatches(old(out)@),
            row_id@,
            *l,
            *u,
            instant,
            *created,
        ),
{
    let t: &str = "memory_embeddings";
    note_text(out, t, row_id, "memory_id", l.memory_id.as_str(), u.memory_id.as_str());
    note_text(out, t, row_id, "model", l.model.as_str(), u.model.as_str());
    note_count(out, t, row_id, "dimensions", l.dimensions, u.dimensions);
    if !same_bytes(&l.embedding, &u.embedding) {
        note(
            out,
            true,
            t,
            row_id,
            "embedding",
            blob_text(&l.embedding).as_str(),
            blob_text(&u.embedding).as_str(),
        );
    }
    let known: bool = match instant {
        Some((secs, nanos)) => (secs as i128) * 1_000_000_000 + (nanos as i128) != 0,
        None => false,
    };
    note(
        out,
        known && created.beyond,
        t,
        row_id,
        "created_at_epoch",
        created.legacy.as_str(),
        created.unified.as_str(),
    );
}

/// The name of an embedding row: memory and model between a bar.
pub open spec fn embedding_row(memory_id: Seq<char>, model: Seq<char>) -> Seq<char> {
    memory_id + seq!['|'] + model
}

/// The mismatches after one more sampled embedding.
pub open spec fn embedding_check(
    found: Seq<MismatchView>,
    row: Seq<char>,
    l: Option<EmbeddingRow>,
    u: Option<EmbeddingRow>,
    instant: Option<(i64, u32)>,
    created: Drift,
) -> Seq<MismatchView> {
    match (l, u) {
        (None, _) => found.push(missing_mismatch("memory_embeddings"@, row, false)),
        (Some(_), None) => found.push(missing_mismatch("memory_embeddings"@, row, true)),
        (Some(a), Some(b)) => embedding_mismatches(found, row, a, b, instant, created),
    }
}

/// Checks a sampled embedding.
pub fn spot_check_node_embeddings(
    memory_id: &str,
    model: &str,
    l: &Option<EmbeddingRow>,
    u: &Option<EmbeddingRow>,
    instant: Option<(i64, u32)>,
    created: &Drift,
    out: &mut Vec<ContentMismatch>,
)
    ensures
        mismatches(final(out)@) == embedding_check(
            mismatches(old(out)@),
            embedding_row(memory_id@, model@),
            *l,
            *u,
            instant,
            *created,
        ),
{
    let mut row: String = memory_id.to_owned();
    row.push('|');
    row.append(model);
    assert(row@ =~= embedding_row(memory_id@, model@));
    match (l, u) {
        (None, _) => note_missing(out, "memory_embeddings", row.as_str(), false),
        (Some(_), None) => note_missing(out, "memory_embeddings", row.as_str(), true),
        (Some(a), Some(b)) => {
            compare_embedding_rows(a, b, row.as_str(), instant, created, out)
        },
    }
}

// ---------------------------------------------------------------------------
// entities against nodes
// ---------------------------------------------------------------------------

/// An entity, as either side holds it.
#[derive(Debug)]
pub struct EntityRow {
    /// Its id.
    pub id: String,
    /// Its name, or the content of its node.
    pub name_or_content: String,
    /// Its namespace.
    pub namespace: String,
    /// Its type, where the side has a column for it.
    pub entity_type_column: String,
    /// Its metadata or attributes, as JSON text.
    pub metadata_or_attributes_json: String,
}

/// A JSON text as it is read and printed, or `null` where it is none.
pub open spec fn read_or_null(t: Seq<char>) -> Seq<char> {
    match json::json_canonical(t) {
        Some(c) => c,
        None => "null"@,
    }
}

/// A JSON text as it is read and printed, or `null` where it is none.
fn canonical_or_null(t: &str) -> (r: String)
    ensures
        r@ == read_or_null(t@),
{
    match canonical(t) {
        Some(c) => c,
        None => "null".to_owned(),
    }
}

/// The string under a key of a JSON object, or a placeholder where there is
/// none.
pub open spec fn string_at(t: Seq<char>, key: Seq<char>) -> Seq<char> {
    match json::json_level(t) {
        Some(JsonView::Object(e)) => match json::lookup(e, key) {
            Some(v) => match json::json_level(v) {
                Some(JsonView::Text(s)) => s,
                _ => "<missing>"@,
            },
            None => "<missing>"@,
        },
        _ => "<missing>"@,
    }
}

fn string_under(t: &str, key: &str) -> (r: String)
    ensures
        r@ == string_at(t@, key@),
{
    match parse(t) {
        Some(JsonNode::Object(e)) => match find(&e, key) {
            Some(v) => match parse(v.as_str()) {
                Some(JsonNode::Text(s)) => s,
                _ => "<missing>".to_owned(),
            },
            None => "<missing>".to_owned(),
        },
        _ => "<missing>".to_owned(),
    }
}

/// The mismatches after one more pair of entities.
pub open spec fn entity_mismatches(
    found: Seq<MismatchView>,
    l: EntityRow,
    u: EntityRow,
    created: Drift,
    updated: Drift,
) -> Seq<MismatchView> {
    let t = "entities"@;
    let id = l.id@;
    let m = noted(found, l.id@ != u.id@, text_mismatch(t, id, "id"@, l.id@, u.id@));
    let m = noted(
        m,
        l.name_or_content@ != u.name_or_content@,
        (MismatchView {
            table: t,
            row: id,
            field: "name->content"@,
            legacy: l.name_or_content@,
            unified: u.name_or_content@,
        }),
    );
    let m = noted(
        m,
        l.namespace@ != u.namespace@,
        text_mismatch(t, id, "namespace"@, l.namespace@, u.namespace@),
    );
    let m = noted(m, created.beyond, created.mismatch(t, id, "created_at"@));
    let m = noted(m, updated.beyond, updated.mismatch(t, id, "updated_at"@));
    let kept_type = string_at(u.metadata_or_attributes_json@, "entity_type"@);
    let m = noted(
        m,
        kept_type != l.entity_type_column@,
        (MismatchView {
            table: t,
            row: id,
            field: "attributes.entity_type (FINDING-1 column-wins)"@,
            legacy: l.entity_type_column@,
            unified: kept_type,
        }),
    );
    let expected = json::json_object(
        backfill::entity_attributes(
            l.entity_type_column@,
            Some(l.metadata_or_attributes_json@),
        ),
    );
    let there = read_or_null(u.metadata_or_attributes_json@);
    noted(
        m,
        !json::json_equal(expected, there),
        (MismatchView {
            table: t,
            row: id,
            field: "attributes"@,
            legacy: expected,
            unified: there,
        }),
    )
}

/// Whether a node holds what the driver writes for an entity.
pub open spec fn entity_projected(l: EntityRow, u: EntityRow) -> bool {
    &&& l.id@ == u.id@
    &&& l.name_or_content@ == u.name_or_content@
    &&& l.namespace@ == u.namespace@
    &&& u.metadata_or_attributes_json@ == json::json_object(
        backfill::entity_attributes(
            l.entity_type_column@,
            Some(l.metadata_or_attributes_json@),
        ),
    )
}

/// Compares an entity with its node. The type column wins over a key of that
/// name in the metadata, and the other keys of the metadata are kept. A node
/// that holds what the driver writes for the entity, in attributes that can be
/// read, gives no mismatch.
pub fn compare_entity_rows(
    l: &EntityRow,
    u: &EntityRow,
    created: &Drift,
    updated: &Drift,
    out: &mut Vec<ContentMismatch>,
)
    ensures
        mismatches(final(out)@) == entity_mismatches(
            mismatches(old(out)@),
            *l,
            *u,
            *created,
            *updated,
        ),
        entity_projected(*l, *u) && json::json_level(u.metadata_or_attributes_json@) is Some
            && !created.beyond && !updated.beyond ==> mismatches(final(out)@) == mismatches(
            old(out)@,
        ),
{
    let t: &str = "entities";
    let id: &str = l.id.as_str();
    note_text(out, t, id, "id", l.id.as_str(), u.id.as_str());
    let renamed: bool = !same(l.name_or_content.as_str(), u.name_or_content.as_str());
    note(
        out,
        renamed,
        t,
        id,
        "name->content",
        l.name_or_content.as_str(),
        u.name_or_content.as_str(),
    );
    note_text(out, t, id, "namespace", l.namespace.as_str(), u.namespace.as_str());
    note(
        out,
        created.beyond,
        t,
        id,
        "created_at",
        created.legacy.as_str(),
        created.unified.as_str(),
    );
    note(
        out,
        updated.beyond,
        t,
        id,
        "updated_at",
        updated.legacy.as_str(),
        updated.unified.as_str(),
    );
    let kept_type: String = string_under(u.metadata_or_attributes_json.as_str(), "entity_type");
    let retyped: bool = !same(kept_type.as_str(), l.entity_type_column.as_str());
    note(
        out,
        retyped,
        t,
        id,
        "attributes.entity_type (FINDING-1 column-wins)",
        l.entity_type_column.as_str(),
        kept_type.as_str(),
    );
    let metadata: Option<String> = Some(l.metadata_or_attributes_json.clone());
    let (expected, _) = project_entity(l.entity_type_column.as_str(), &metadata);
    let there: String = canonical_or_null(u.metadata_or_attributes_json.as_str());
    let differs: bool = !equal(expected.as_str(), there.as_str());
    note(out, differs, t, id, "attributes", expected.as_str(), there.as_str());
}

/// The mismatches after one more sampled entity.
pub open spec fn entity_check(
    found: Seq<MismatchView>,
    id: Seq<char>,
    l: Option<EntityRow>,
    u: Option<EntityRow>,
    created: Drift,
    updated: Drift,
) -> Seq<MismatchView> {
    match (l, u) {
        (None, _) => found.push(missing_mismatch("entities"@, id, false)),
        (Some(_), None) => found.push(missing_mismatch("entities"@, id, true)),
        (Some(a), Some(b)) => entity_mismatches(found, a, b, created, updated),
    }
}

/// Checks a sampled entity.
pub fn spot_check_entities(
    id: &str,
    l: &Option<EntityRow>,
    u: &Option<EntityRow>,
    created: &Drift,
    updated: &Drift,
    out: &mut Vec<ContentMismatch>,
)
    ensures
        mismatches(final(out)@) == entity_check(
            mismatches(old(out)@),
            id@,
            *l,
            *u,
            *created,
            *updated,
        ),
{
    match (l, u) {
        (None, _) => note_missing(out, "entities", id, false),
        (Some(_), None) => note_missing(out, "entities", id, true),
        (Some(a), Some(b)) => compare_entity_rows(a, b, created, updated, out),
    }
}

// ---------------------------------------------------------------------------
// synthesis_provenance against edges
// ---------------------------------------------------------------------------

/// A provenance link, as either side holds it.
#[derive(Debug)]
pub struct SynthesisProvenanceRow {
    /// Its id.
    pub id: String,
    /// The insight.
    pub source_id: String,
    /// What the insight was derived from.
    pub target_id: String,
    /// Its namespace.
    pub namespace: String,
    /// Its attributes, as JSON text.
    pub attributes_json: String,
    /// Its edge kind.
    pub edge_kind: String,
    /// Its predicate.
    pub predicate: String,
}

/// The row that the legacy side of a provenance link is expected to have.
pub open spec fn expects_provenance(
    r: SynthesisProvenanceRow,
    p: ProvenanceRow,
    namespace: Seq<char>,
) -> bool {
    &&& r.id@ == p.id@
    &&& r.source_id@ == p.insight_id@
    &&& r.target_id@ == p.source_id@
    &&& r.namespace@ == namespace
    &&& r.attributes_json@ == json::json_object(backfill::provenance_attributes(p))
    &&& r.edge_kind@ == "provenance"@
    &&& r.predicate@ == "derived_from"@
}

/// The row that the driver would write for a legacy provenance link.
pub fn expected_provenance(p: &ProvenanceRow, namespace: &str) -> (r: SynthesisProvenanceRow)
    ensures
        expects_provenance(r, *p, namespace@),
{
    let plan: EdgePlan = plan_provenance(p);
    SynthesisProvenanceRow {
        id: plan.id,
        source_id: plan.source_id,
        target_id: plan.target_id,
        namespace: namespace.to_owned(),
        attributes_json: plan.attributes,
        edge_kind: plan.edge_kind,
        predicate: plan.predicate,
    }
}

/// The mismatches after one more pair of provenance links.
pub open spec fn synthesis_mismatches(
    found: Seq<MismatchView>,
    l: SynthesisProvenanceRow,
    u: SynthesisProvenanceRow,
    confidence: Drift,
    created: Drift,
) -> Seq<MismatchView> {
    let t = "synthesis_provenance"@;
    let id = l.id@;
    let m = noted(found, l.id@ != u.id@, text_mismatch(t, id, "id"@, l.id@, u.id@));
    let m = noted(
        m,
        l.source_id@ != u.source_id@,
        text_mismatch(t, id, "source_id"@, l.source_id@, u.source_id@),
    );
    let m = noted(
        m,
        l.target_id@ != u.target_id@,
        text_mismatch(t, id, "target_id"@, l.target_id@, u.target_id@),
    );
    let m = noted(
        m,
        l.namespace@ != u.namespace@,
        text_mismatch(t, id, "namespace"@, l.namespace@, u.namespace@),
    );
    let m = noted(
        m,
        l.edge_kind@ != u.edge_kind@,
        text_mismatch(t, id, "edge_kind"@, l.edge_kind@, u.edge_kind@),
    );
    let m = noted(
        m,
        l.predicate@ != u.predicate@,
        text_mismatch(t, id, "predicate"@, l.predicate@, u.predicate@),
    );
    let m = noted(m, confidence.beyond, confidence.mismatch(t, id, "confidence"@));
    let m = noted(m, created.beyond, created.mismatch(t, id, "created_at_epoch"@));
    let la = read_or_null(l.attributes_json@);
    let ua = read_or_null(u.attributes_json@);
    noted(
        m,
        !json::json_equal(la, ua),
        (MismatchView { table: t, row: id, field: "attributes"@, legacy: la, unified: ua }),
    )
}

/// Whether two provenance rows hold the same.
pub open spec fn provenance_agrees(l: SynthesisProvenanceRow, u: SynthesisProvenanceRow) -> bool {
    &&& l.id@ == u.id@
    &&& l.source_id@ == u.source_id@
    &&& l.target_id@ == u.target_id@
    &&& l.namespace@ == u.namespace@
    &&& l.attributes_json@ == u.attributes_json@
    &&& l.edge_kind@ == u.edge_kind@
    &&& l.predicate@ == u.predicate@
}

/// Compares a provenance link with its edge. An edge that holds what the driver
/// writes for the link gives no mismatch.
pub fn compare_synthesis_rows(
    l: &SynthesisProvenanceRow,
    u: &SynthesisProvenanceRow,
    confidence: &Drift,
    created: &Drift,
    out: &mut Vec<ContentMismatch>,
)
    ensures
        mismatches(final(out)@) == synthesis_mismatches(
            mismatches(old(out)@),
            *l,
            *u,
            *confidence,
            *created,
        ),
        provenance_agrees(*l, *u) && !confidence.beyond && !created.beyond ==> mismatches(
            final(out)@,
        ) == mismatches(old(out)@),
{
    let t: &str = "synthesis_provenance";
    let id: &str = l.id.as_str();
    note_text(out, t, id, "id", l.id.as_str(), u.id.as_str());
    note_text(out, t, id, "source_id", l.source_id.as_str(), u.source_id.as_str());
    note_text(out, t, id, "target_id", l.target_id.as_str(), u.target_id.as_str());
    note_text(out, t, id, "namespace", l.namespace.as_str(), u.namespace.as_str());
    note_text(out, t, id, "edge_kind", l.edge_kind.as_str(), u.edge_kind.as_str());
    note_text(out, t, id, "predicate", l.predicate.as_str(), u.predicate.as_str());
    note(
        out,
        confidence.beyond,
        t,
        id,
        "confidence",
        confidence.legacy.as_str(),
        confidence.unified.as_str(),
    );
    note(
        out,
        created.beyond,
        t,
        id,
        "created_at_epoch",
        created.legacy.as_str(),
        created.unified.as_str(),
    );
    let la: String = canonical_or_null(l.attributes_json.as_str());
    let ua: String = canonical_or_null(u.attributes_json.as_str());
    let differs: bool = !equal(la.as_str(), ua.as_str());
    note(out, differs, t, id, "attributes", la.as_str(), ua.as_str());
}

/// The mismatches after one more sampled provenance link.
pub open spec fn synthesis_check(
    found: Seq<MismatchView>,
    id: Seq<char>,
    l: Option<SynthesisProvenanceRow>,
    u: Option<SynthesisProvenanceRow>,
    confidence: Drift,
    created: Drift,
) -> Seq<MismatchView> {
    match (l, u) {
        (None, _) => found.push(missing_mismatch("synthesis_provenance"@, id, false)),
        (Some(_), None) => found.push(missing_mismatch("synthesis_provenance"@, id, true)),
        (Some(a), Some(b)) => synthesis_mismatches(found, a, b, confidence, created),
    }
}

/// Checks a sampled provenance link.
pub fn spot_check_synthesis_provenance(
    id: &str,
    l: &Option<SynthesisProvenanceRow>,
    u: &Option<SynthesisProvenanceRow>,
    confidence: &Drift,
    created: &Drift,
    out: &mut Vec<ContentMismatch>,
)
    ensures
        mismatches(final(out)@) == synthesis_check(
            mismatches(old(out)@),
            id@,
            *l,
            *u,
            *confidence,
            *created,
        ),
{
    match (l, u) {
        (None, _) => note_missing(out, "synthesis_provenance", id, false),
        (Some(_), None) => note_missing(out, "synthesis_provenance", id, true),
        (Some(a), Some(b)) => compare_synthesis_rows(a, b, confidence, created, out),
    }
}

// ---------------------------------------------------------------------------
// entity_relations against edges
// ---------------------------------------------------------------------------

/// A relation between entities, as the legacy table holds it.
#[derive(Debug)]
pub struct RelationRow {
    /// The relation.
    pub relation: String,
    /// Where it starts.
    pub source_id: String,
    /// Where it points.
    pub target_id: String,
}

/// An edge as the unified table holds it.
#[derive(Debug)]
pub struct EdgeRow {
    /// Its kind.
    pub edge_kind: String,
    /// Its predicate.
    pub predicate: String,
    /// Where it starts.
    pub source_id: String,
    /// Where it points.
    pub target_id: String,
}

/// A mismatch of two texts as they stand.
pub open spec fn plain_mismatch(
    table: Seq<char>,
    row: Seq<char>,
    field: Seq<char>,
    l: Seq<char>,
    u: Seq<char>,
) -> MismatchView {
    MismatchView { table, row, field, legacy: l, unified: u }
}

/// Notes two texts that differ, as they stand.
fn note_plain(
    out: &mut Vec<ContentMismatch>,
    table: &str,
    row: &str,
    field: &str,
    l: &str,
    u: &str,
)
    ensures
        mismatches(final(out)@) == noted(
            mismatches(old(out)@),
            l@ != u@,
            plain_mismatch(table@, row@, field@, l@, u@),
        ),
{
    let differs: bool = !same(l, u);
    note(out, differs, table, row, field, l, u);
}

/// The mismatches after one more pair of relation and edge.
pub open spec fn relation_mismatches(
    found: Seq<MismatchView>,
    id: Seq<char>,
    l: RelationRow,
    u: EdgeRow,
) -> Seq<MismatchView> {
    let t = "entity_relations"@;
    let m = noted(
        found,
        "structural"@ != u.edge_kind@,
        plain_mismatch(t, id, "edge_kind"@, "structural"@, u.edge_kind@),
    );
    let m = noted(
        m,
        u.predicate@ == "subject_of"@ || u.predicate@ == "object_of"@,
        plain_mismatch(
            t,
            id,
            "predicate (T22 must NOT use T23 predicates)"@,
            l.relation@,
            u.predicate@,
        ),
    );
    let m = noted(
        m,
        l.relation@ != u.predicate@,
        plain_mismatch(t, id, "predicate"@, l.relation@, u.predicate@),
    );
    let m = noted(
        m,
        l.source_id@ != u.source_id@,
        plain_mismatch(t, id, "source_id"@, l.source_id@, u.source_id@),
    );
    noted(
        m,
        l.target_id@ != u.target_id@,
        plain_mismatch(t, id, "target_id"@, l.target_id@, u.target_id@),
    )
}

fn compare_relation(id: &str, l: &RelationRow, u: &EdgeRow, out: &mut Vec<ContentMismatch>)
    ensures
        mismatches(final(out)@) == relation_mismatches(mismatches(old(out)@), id@, *l, *u),
{
    let t: &str = "entity_relations";
    note_plain(out, t, id, "edge_kind", "structural", u.edge_kind.as_str());
    let predicate: &str = u.predicate.as_str();
    let reserved: bool = same(predicate, "subject_of") || same(predicate, "object_of");
    note(
        out,
        reserved,
        t,
        id,
        "predicate (T22 must NOT use T23 predicates)",
        l.relation.as_str(),
        predicate,
    );
    note_plain(out, t, id, "predicate", l.relation.as_str(), predicate);
    note_plain(out, t, id, "source_id", l.source_id.as_str(), u.source_id.as_str());
    note_plain(out, t, id, "target_id", l.target_id.as_str(), u.target_id.as_str());
}

/// The mismatches after one more sampled relation.
pub open spec fn relation_check(
    found: Seq<MismatchView>,
    id: Seq<char>,
    l: Option<RelationRow>,
    u: Option<EdgeRow>,
) -> Seq<MismatchView> {
    match (l, u) {
        (None, _) => found.push(missing_mismatch("entity_relations"@, id, false)),
        (Some(_), None) => found.push(missing_mismatch("entity_relations"@, id, true)),
        (Some(a), Some(b)) => relation_mismatches(found, id, a, b),
    }
}

/// Checks a sampled relation: it keeps its id, is structural, and carries the
/// relation as its predicate.
pub fn spot_check_entity_relations(
    id: &str,
    l: &Option<RelationRow>,
    u: &Option<EdgeRow>,
    out: &mut Vec<ContentMismatch>,
)
    ensures
        mismatches(final(out)@) == relation_check(mismatches(old(out)@), id@, *l, *u),
{
    match (l, u) {
        (None, _) => note_missing(out, "entity_relations", id, false),
        (Some(_), None) => note_missing(out, "entity_relations", id, true),
        (Some(a), Some(b)) => compare_relation(id, a, b, out),
    }
}

/// A structural edge that joins the ends of a relation and carries it as its
/// predicate passes the check of that relation, as long as the relation is not
/// one of the two predicates kept for the roles of memory-entity links.
pub proof fn law_planned_relation_passes(
    found: Seq<MismatchView>,
    id: Seq<char>,
    row: RelationRow,
    edge: EdgeRow,
)
    requires
        edge.edge_kind@ == "structural"@,
        edge.predicate@ == row.relation@,
        edge.source_id@ == row.source_id@,
        edge.target_id@ == row.target_id@,
        row.relation@ != "subject_of"@,
        row.relation@ != "object_of"@,
    ensures
        relation_check(found, id, Some(row), Some(edge)) == found,
{
}

// ---------------------------------------------------------------------------
// memory_entities against edges
// ---------------------------------------------------------------------------

/// The id under which the edge of a memory-entity link is looked up.
pub fn memory_entity_edge_id(row: &MemoryEntityRow) -> (r: String)
    ensures
        r@ == identity::hash_id(
            identity::memory_entity_identity(row.memory_id@, row.entity_id@, row.role@),
        ),
{
    plan_memory_entity(row).id
}

/// The name of a memory-entity link: its parts between bars.
pub open spec fn link_row(row: MemoryEntityRow) -> Seq<char> {
    row.memory_id@ + seq!['|'] + row.entity_id@ + seq!['|'] + row.role@
}

/// The mismatches after one more sampled memory-entity link.
pub open spec fn link_check(
    found: Seq<MismatchView>,
    l: MemoryEntityRow,
    u: Option<EdgeRow>,
) -> Seq<MismatchView> {
    let t = "memory_entities"@;
    let row = link_row(l);
    let shape = identity::role_shape(l.role@).0;
    match u {
        None => found.push(missing_mismatch(t, row, true)),
        Some(e) => {
            let m = noted(
                found,
                shape.0 != e.edge_kind@,
                plain_mismatch(t, row, "edge_kind"@, shape.0, e.edge_kind@),
            );
            let m = noted(
                m,
                shape.1 != e.predicate@,
                plain_mismatch(t, row, "predicate"@, shape.1, e.predicate@),
            );
            let m = noted(
                m,
                l.memory_id@ != e.source_id@,
                plain_mismatch(t, row, "source_id"@, l.memory_id@, e.source_id@),
            );
            noted(
                m,
                l.entity_id@ != e.target_id@,
                plain_mismatch(t, row, "target_id"@, l.entity_id@, e.target_id@),
            )
        },
    }
}

/// Checks a sampled memory-entity link against the edge under its id.
pub fn spot_check_memory_entities(
    l: &MemoryEntityRow,
    u: &Option<EdgeRow>,
    out: &mut Vec<ContentMismatch>,
)
    ensures
        mismatches(final(out)@) == link_check(mismatches(old(out)@), *l, *u),
{
    let t: &str = "memory_entities";
    let mut row: String = l.memory_id.clone();
    row.push('|');
    row.append(l.entity_id.as_str());
    row.push('|');
    row.append(l.role.as_str());
    assert(row@ =~= link_row(*l));
    let plan: EdgePlan = plan_memory_entity(l);
    match u {
        None => note_missing(out, t, row.as_str(), true),
        Some(e) => {
            let id: &str = row.as_str();
            note_plain(out, t, id, "edge_kind", plan.edge_kind.as_str(), e.edge_kind.as_str());
            note_plain(out, t, id, "predicate", plan.predicate.as_str(), e.predicate.as_str());
            note_plain(out, t, id, "source_id", l.memory_id.as_str(), e.source_id.as_str());
            note_plain(out, t, id, "target_id", l.entity_id.as_str(), e.target_id.as_str());
        },
    }
}

/// The edge that the driver plans for a memory-entity link passes the check of
/// that link.
pub proof fn law_planned_link_passes(
    found: Seq<MismatchView>,
    row: MemoryEntityRow,
    plan: EdgePlan,
    edge: EdgeRow,
)
    requires
        plan.source_id@ == row.memory_id@,
        plan.target_id@ == row.entity_id@,
        (plan.edge_kind@, plan.predicate@) == identity::role_shape(row.role@).0,
        edge.edge_kind@ == plan.edge_kind@,
        edge.predicate@ == plan.predicate@,
        edge.source_id@ == plan.source_id@,
        edge.target_id@ == plan.target_id@,
    ensures
        link_check(found, row, Some(edge)) == found,
{
}

// ---------------------------------------------------------------------------
// hebbian_links against edges
// ---------------------------------------------------------------------------

/// A co-activation link, as the legacy table holds it.
#[derive(Debug)]
pub struct HebbianRow {
    /// One endpoint.
    pub source_id: String,
    /// The other endpoint.
    pub target_id: String,
    /// Its namespace.
    pub namespace: String,
    /// The signal behind it.
    pub signal_source: String,
    /// Its co-activations.
    pub coactivation_count: i64,
    /// How often the first came before the second.
    pub temporal_forward: i64,
    /// How often it came after it.
    pub temporal_backward: i64,
}

/// A co-activation edge as the unified table holds it.
#[derive(Debug)]
pub struct HebbianEdge {
    /// The edge.
    pub edge: EdgeRow,
    /// Whether its weight falls short of the strength of the row beyond the
    /// tolerance.
    pub weight_short: bool,
    /// The strength of the row, printed.
    pub strength: String,
    /// The weight of the edge, printed.
    pub weight: String,
    /// Its co-activations.
    pub coactivation_count: i64,
    /// How often the first came before the second.
    pub temporal_forward: i64,
    /// How often it came after it.
    pub temporal_backward: i64,
}

/// The id under which the edge of a co-activation link is looked up.
pub fn hebbian_edge_id(row: &HebbianRow) -> (r: String)
    ensures
        ({
            let pair = identity::ordered_pair(row.source_id@, row.target_id@);
            r@ == identity::hash_id(
                identity::hebbian_identity(pair.0, pair.1, row.namespace@, row.signal_source@),
            )
        }),
{
    let (lo, hi) = canonical_pair(row.source_id.as_str(), row.target_id.as_str());
    let input: String = backfill_hebbian_links_to_edges_hash_input(
        lo.as_str(),
        hi.as_str(),
        row.namespace.as_str(),
        row.signal_source.as_str(),
    );
    uuid_from_hash(input.as_str())
}

/// The name of a co-activation link: its parts between bars, the smaller
/// endpoint first.
pub open spec fn hebbian_row(row: HebbianRow) -> Seq<char> {
    let pair = identity::ordered_pair(row.source_id@, row.target_id@);
    pair.0 + seq!['|'] + pair.1 + seq!['|'] + row.namespace@ + seq!['|'] + row.signal_source@
}

/// The mismatches after a counter that has to reach a lower bound.
pub open spec fn bound_noted(
    found: Seq<MismatchView>,
    row: Seq<char>,
    field: Seq<char>,
    bound: i64,
    there: i64,
) -> Seq<MismatchView> {
    noted(
        found,
        there < bound,
        (MismatchView {
            table: "hebbian_links"@,
            row,
            field,
            legacy: ">= "@ + text::signed_decimal(bound as int),
            unified: text::signed_decimal(there as int),
        }),
    )
}

fn note_bound(
    out: &mut Vec<ContentMismatch>,
    row: &str,
    field: &str,
    bound: i64,
    there: i64,
)
    ensures
        mismatches(final(out)@) == bound_noted(
            mismatches(old(out)@),
            row@,
            field@,
            bound,
            there,
        ),
{
    if there < bound {
        let mut at_least: String = ">= ".to_owned();
        at_least.append(i64_text(bound).as_str());
        note(
            out,
            true,
            "hebbian_links",
            row,
            field,
            at_least.as_str(),
            i64_text(there).as_str(),
        );
    }
}

/// The mismatches after one more sampled co-activation link. Several rows may
/// be merged into one edge, so a counter of the edge has to reach that of the
/// row.
pub open spec fn hebbian_check(
    found: Seq<MismatchView>,
    l: HebbianRow,
    u: Option<HebbianEdge>,
) -> Seq<MismatchView> {
    let t = "hebbian_links"@;
    let row = hebbian_row(l);
    let pair = identity::ordered_pair(l.source_id@, l.target_id@);
    match u {
        None => found.push(missing_mismatch(t, row, true)),
        Some(e) => {
            let m = noted(
                found,
                "associative"@ != e.edge.edge_kind@,
                plain_mismatch(t, row, "edge_kind"@, "associative"@, e.edge.edge_kind@),
            );
            let m = noted(
                m,
                "co_activated"@ != e.edge.predicate@,
                plain_mismatch(t, row, "predicate"@, "co_activated"@, e.edge.predicate@),
            );
            let m = noted(
                m,
                pair.0 != e.edge.source_id@,
                plain_mismatch(t, row, "source_id (canonical lo)"@, pair.0, e.edge.source_id@),
            );
            let m = noted(
                m,
                pair.1 != e.edge.target_id@,
                plain_mismatch(t, row, "target_id (canonical hi)"@, pair.1, e.edge.target_id@),
            );
            let m = noted(
                m,
                e.weight_short,
                plain_mismatch(
                    t,
                    row,
                    "weight (SUM >= per-row lower bound)"@,
                    ">= "@ + e.strength@,
                    e.weight@,
                ),
            );
            let m = bound_noted(
                m,
                row,
                "coactivation_count (SUM >= lower bound)"@,
                l.coactivation_count,
                e.coactivation_count,
            );
            let m = bound_noted(
                m,
                row,
                "temporal_forward (SUM >= lower bound)"@,
                l.temporal_forward,
                e.temporal_forward,
            );
            bound_noted(
                m,
                row,
                "temporal_backward (SUM >= lower bound)"@,
                l.temporal_backward,
                e.temporal_backward,
            )
        },
    }
}

/// Checks a sampled co-activation link against the edge under its id.
pub fn spot_check_hebbian_links(
    l: &HebbianRow,
    u: &Option<HebbianEdge>,
    out: &mut Vec<ContentMismatch>,
)
    ensures
        mismatches(final(out)@) == hebbian_check(mismatches(old(out)@), *l, *u),
{
    let t: &str = "hebbian_links";
    let (lo, hi) = canonical_pair(l.source_id.as_str(), l.target_id.as_str());
    let mut row: String = lo.clone();
    row.push('|');
    row.append(hi.as_str());
    row.push('|');
    row.append(l.namespace.as_str());
    row.push('|');
    row.append(l.signal_source.as_str());
    assert(row@ =~= hebbian_row(*l));
    match u {
        None => note_missing(out, t, row.as_str(), true),
        Some(e) => {
            let id: &str = row.as_str();
            note_plain(out, t, id, "edge_kind", "associative", e.edge.edge_kind.as_str());
            note_plain(out, t, id, "predicate", "co_activated", e.edge.predicate.as_str());
            note_plain(
                out,
                t,
                id,
                "source_id (canonical lo)",
                lo.as_str(),
                e.edge.source_id.as_str(),
            );
            note_plain(
                out,
                t,
                id,
                "target_id (canonical hi)",
                hi.as_str(),
                e.edge.target_id.as_str(),
            );
            let mut at_least: String = ">= ".to_owned();
            at_least.append(e.strength.as_str());
            note(
                out,
                e.weight_short,
                t,
                id,
                "weight (SUM >= per-row lower bound)",
                at_least.as_str(),
                e.weight.as_str(),
            );
            note_bound(
                out,
                id,
                "coactivation_count (SUM >= lower bound)",
                l.coactivation_count,
                e.coactivation_count,
            );
            note_bound(
                out,
                id,
                "temporal_forward (SUM >= lower bound)",
                l.temporal_forward,
                e.temporal_forward,
            );
            note_bound(
                out,
                id,
                "temporal_backward (SUM >= lower bound)",
                l.temporal_backward,
                e.temporal_backward,
            );
        },
    }
}

/// The edge that the driver plans for a group of co-activation links passes the
/// check of every link of the group: its endpoints are those of the link in
/// order, and each of its counters has reached that of the link.
pub proof fn law_planned_group_passes(
    found: Seq<MismatchView>,
    row: HebbianRow,
    group: HebbianGroup,
    plan: EdgePlan,
    edge: HebbianEdge,
)
    requires
        (group.lo@, group.hi@) == identity::ordered_pair(row.source_id@, row.target_id@),
        group.coactivation_count >= row.coactivation_count,
        group.temporal_forward >= row.temporal_forward,
        group.temporal_backward >= row.temporal_backward,
        plan.source_id@ == group.lo@,
        plan.target_id@ == group.hi@,
        (plan.edge_kind@, plan.predicate@) == ("associative"@, "co_activated"@),
        edge.edge.edge_kind@ == plan.edge_kind@,
        edge.edge.predicate@ == plan.predicate@,
        edge.edge.source_id@ == plan.source_id@,
        edge.edge.target_id@ == plan.target_id@,
        edge.coactivation_count == group.coactivation_count,
        edge.temporal_forward == group.temporal_forward,
        edge.temporal_backward == group.temporal_backward,
        !edge.weight_short,
    ensures
        hebbian_check(found, row, Some(edge)) == found,
{
}

// ---------------------------------------------------------------------------
// The whole check
// ---------------------------------------------------------------------------

/// A sampled legacy row together with what the unified tables hold for it.
pub trait Sampled {
    /// The mismatches after this sample, given those before it.
    spec fn after(&self, found: Seq<MismatchView>) -> Seq<MismatchView>;

    /// Checks the sample.
    fn check(&self, out: &mut Vec<ContentMismatch>)
        ensures
            mismatches(final(out)@) == self.after(mismatches(old(out)@)),
    ;
}

/// The mismatches after a list of samples.
pub open spec fn after_all<S: Sampled>(
    found: Seq<MismatchView>,
    samples: Seq<S>,
) -> Seq<MismatchView>
    decreases samples.len(),
{
    if samples.len() == 0 {
        found
    } else {
        samples.last().after(after_all(found, samples.drop_last()))
    }
}

fn check_all<S: Sampled>(samples: &Vec<S>, out: &mut Vec<ContentMismatch>)
    ensures
        mismatches(final(out)@) == after_all(mismatches(old(out)@), samples@),
{
    let ghost start = mismatches(out@);
    let mut i: usize = 0;
    while i < samples.len()
        invariant
            i <= samples@.len(),
            start == mismatches(old(out)@),
            mismatches(out@) == after_all(start, samples@.take(i as int)),
        decreases samples.len() - i,
    {
        samples[i].check(out);
        assert(samples@.take(i + 1).drop_last() =~= samples@.take(i as int));
        i += 1;
    }
    assert(samples@.take(i as int) =~= samples@);
}

/// A sampled memory.
#[derive(Debug)]
pub struct MemorySample {
    /// Its id.
    pub id: String,
    /// The legacy side.
    pub legacy: Option<MemoryRow>,
    /// The unified side.
    pub unified: Option<MemoryRow>,
}

impl Sampled for MemorySample {
    open spec fn after(&self, found: Seq<MismatchView>) -> Seq<MismatchView> {
        memory_check(found, self.id@, self.legacy, self.unified)
    }

    fn check(&self, out: &mut Vec<ContentMismatch>) {
        spot_check_memories(self.id.as_str(), &self.legacy, &self.unified, out);
    }
}

/// A sampled embedding.
#[derive(Debug)]
pub struct EmbeddingSample {
    /// The memory.
    pub memory_id: String,
    /// The model.
    pub model: String,
    /// The legacy side.
    pub legacy: Option<EmbeddingRow>,
    /// The unified side.
    pub unified: Option<EmbeddingRow>,
    /// The time of the legacy side, where it could be read.
    pub instant: Option<(i64, u32)>,
    /// The two times.
    pub created: Drift,
}

impl Sampled for EmbeddingSample {
    open spec fn after(&self, found: Seq<MismatchView>) -> Seq<MismatchView> {
        embedding_check(
            found,
            embedding_row(self.memory_id@, self.model@),
            self.legacy,
            self.unified,
            self.instant,
            self.created,
        )
    }

    fn check(&self, out: &mut Vec<ContentMismatch>) {
        spot_check_node_embeddings(
            self.memory_id.as_str(),
            self.model.as_str(),
            &self.legacy,
            &self.unified,
            self.instant,
            &self.created,
            out,
        );
    }
}

/// A sampled entity.
#[derive(Debug)]
pub struct EntitySample {
    /// Its id.
    pub id: String,
    /// The legacy side.
    pub legacy: Option<EntityRow>,
    /// The unified side.
    pub unified: Option<EntityRow>,
    /// The two creation times.
    pub created: Drift,
    /// The two update times.
    pub updated: Drift,
}

impl Sampled for EntitySample {
    open spec fn after(&self, found: Seq<MismatchView>) -> Seq<MismatchView> {
        entity_check(found, self.id@, self.legacy, self.unified, self.created, self.updated)
    }

    fn check(&self, out: &mut Vec<ContentMismatch>) {
        spot_check_entities(
            self.id.as_str(),
            &self.legacy,
            &self.unified,
            &self.created,
            &self.updated,
            out,
        );
    }
}

/// A sampled provenance link.
#[derive(Debug)]
pub struct ProvenanceSample {
    /// Its id.
    pub id: String,
    /// The legacy side.
    pub legacy: Option<SynthesisProvenanceRow>,
    /// The unified side.
    pub unified: Option<SynthesisProvenanceRow>,
    /// The two confidences.
    pub confidence: Drift,
    /// The two times.
    pub created: Drift,
}

impl Sampled for ProvenanceSample {
    open spec fn after(&self, found: Seq<MismatchView>) -> Seq<MismatchView> {
        synthesis_check(
            found,
            self.id@,
            self.legacy,
            self.unified,
            self.confidence,
            self.created,
        )
    }

    fn check(&self, out: &mut Vec<ContentMismatch>) {
        spot_check_synthesis_provenance(
            self.id.as_str(),
            &self.legacy,
            &self.unified,
            &self.confidence,
            &self.created,
            out,
        );
    }
}

/// A sampled relation.
#[derive(Debug)]
pub struct RelationSample {
    /// Its id.
    pub id: String,
    /// The legacy side.
    pub legacy: Option<RelationRow>,
    /// The unified side.
    pub unified: Option<EdgeRow>,
}

impl Sampled for RelationSample {
    open spec fn after(&self, found: Seq<MismatchView>) -> Seq<MismatchView> {
        relation_check(found, self.id@, self.legacy, self.unified)
    }

    fn check(&self, out: &mut Vec<ContentMismatch>) {
        spot_check_entity_relations(self.id.as_str(), &self.legacy, &self.unified, out);
    }
}

/// A sampled memory-entity link.
#[derive(Debug)]
pub struct LinkSample {
    /// The legacy side.
    pub legacy: MemoryEntityRow,
    /// The edge under its id.
    pub unified: Option<EdgeRow>,
}

impl Sampled for LinkSample {
    open spec fn after(&self, found: Seq<MismatchView>) -> Seq<MismatchView> {
        link_check(found, self.legacy, self.unified)
    }

    fn check(&self, out: &mut Vec<ContentMismatch>) {
        spot_check_memory_entities(&self.legacy, &self.unified, out);
    }
}

/// A sampled co-activation link.
#[derive(Debug)]
pub struct HebbianSample {
    /// The legacy side.
    pub legacy: HebbianRow,
    /// The edge under its id.
    pub unified: Option<HebbianEdge>,
}

impl Sampled for HebbianSample {
    open spec fn after(&self, found: Seq<MismatchView>) -> Seq<MismatchView> {
        hebbian_check(found, self.legacy, self.unified)
    }

    fn check(&self, out: &mut Vec<ContentMismatch>) {
        spot_check_hebbian_links(&self.legacy, &self.unified, out);
    }
}

/// The samples of all tables.
#[derive(Debug)]
pub struct ContentSamples {
    /// Of `memories`.
    pub memories: Vec<MemorySample>,
    /// Of `memory_embeddings`.
    pub embeddings: Vec<EmbeddingSample>,
    /// Of `entities`.
    pub entities: Vec<EntitySample>,
    /// Of `synthesis_provenance`.
    pub provenance: Vec<ProvenanceSample>,
    /// Of `entity_relations`.
    pub relations: Vec<RelationSample>,
    /// Of `memory_entities`.
    pub links: Vec<LinkSample>,
    /// Of `hebbian_links`.
    pub hebbian: Vec<HebbianSample>,
}

impl ContentSamples {
    /// The mismatches of all samples, table by table.
    pub open spec fn found(self) -> Seq<MismatchView> {
        let m = after_all(Seq::empty(), self.memories@);
        let m = after_all(m, self.embeddings@);
        let m = after_all(m, self.entities@);
        let m = after_all(m, self.provenance@);
        let m = after_all(m, self.relations@);
        let m = after_all(m, self.links@);
        after_all(m, self.hebbian@)
    }
}

/// Checks the samples of all tables. A sample size of zero switches the check
/// off.
pub fn check_content_spot_check(opts: &VerifyOpts, samples: &ContentSamples) -> (r: Vec<
    ContentMismatch,
>)
    ensures
        mismatches(r@) == if opts.spot_check_sample_size == 0 {
            Seq::empty()
        } else {
            samples.found()
        },
{
    let mut out: Vec<ContentMismatch> = Vec::new();
    assert(mismatches(out@) =~= Seq::empty());
    if opts.spot_check_sample_size == 0 {
        return out;
    }
    check_all(&samples.memories, &mut out);
    check_all(&samples.embeddings, &mut out);
    check_all(&samples.entities, &mut out);
    check_all(&samples.provenance, &mut out);
    check_all(&samples.relations, &mut out);
    check_all(&samples.links, &mut out);
    check_all(&samples.hebbian, &mut out);
    out
}

/// A difference in a field, with what the legacy row and the unified row say.
pub open spec fn difference(
    table: Seq<char>,
    row: Seq<char>,
    field: Seq<char>,
    legacy: Seq<char>,
    unified: Seq<char>,
) -> MismatchView {
    MismatchView { table, row, field, legacy, unified }
}

/// A field of a row: whether it differs, and how that is reported.
pub type Judged = (bool, MismatchView);

/// The reports of the fields that differ.
pub open spec fn reports(fields: Seq<Judged>) -> Seq<MismatchView> {
    fields.filter(|f: Judged| f.0).map_values(|f: Judged| f.1)
}

/// One more field is reported where it differs, behind those before it.
proof fn lemma_field(
    found: Seq<MismatchView>,
    before: (Seq<Judged>, Seq<MismatchView>),
    field: Judged,
) -> (r: (Seq<Judged>, Seq<MismatchView>))
    requires
        before.1 == found + reports(before.0),
    ensures
        r.0 == before.0.push(field),
        r.1 == noted(before.1, field.0, field.1),
        r.1 == found + reports(r.0),
{
    reveal(Seq::filter);
    let fields = before.0.push(field);
    assert(fields.drop_last() =~= before.0);
    assert(noted(before.1, field.0, field.1) =~= found + reports(fields));
    (fields, noted(before.1, field.0, field.1))
}

/// With no field nothing is reported.
proof fn lemma_no_field(found: Seq<MismatchView>) -> (r: (Seq<Judged>, Seq<MismatchView>))
    ensures
        r.0 == Seq::<Judged>::empty(),
        r.1 == found,
        r.1 == found + reports(r.0),
{
    reveal(Seq::filter);
    assert(found =~= found + reports(Seq::<Judged>::empty()));
    (Seq::empty(), found)
}

/// Of two memories every field that differs is reported with both values, and
/// memories that agree in every field are not.
pub proof fn law_memory_differences_are_found(
    found: Seq<MismatchView>,
    id: Seq<char>,
    l: MemoryRow,
    u: MemoryRow,
    fields: Seq<Judged>,
)
    requires
        ({
            let t = "memories"@;
            let id = l.id@;
            &&& fields.len() == 13
            &&& fields[0] == (
                l.namespace@ != u.namespace@,
                text_mismatch(t, id, "namespace"@, l.namespace@, u.namespace@),
            )
            &&& fields[1] == (
                l.layer@ != u.layer@,
                text_mismatch(t, id, "layer"@, l.layer@, u.layer@),
            )
            &&& fields[2] == (
                l.memory_type@ != u.memory_type@,
                text_mismatch(t, id, "memory_type"@, l.memory_type@, u.memory_type@),
            )
            &&& fields[3] == (
                l.content@ != u.content@,
                text_mismatch(t, id, "content"@, l.content@, u.content@),
            )
            &&& fields[4] == (
                l.occurred_at.differs(u.occurred_at),
                column_mismatch(t, id, "occurred_at"@, l.occurred_at, u.occurred_at),
            )
            &&& fields[5] == (
                l.created_at.differs(u.created_at),
                column_mismatch(t, id, "created_at"@, l.created_at, u.created_at),
            )
            &&& fields[6] == (
                l.working_strength.differs(u.working_strength),
                difference(
                    t,
                    id,
                    "working_strength"@,
                    l.working_strength.printed@,
                    u.working_strength.printed@,
                ),
            )
            &&& fields[7] == (
                l.core_strength.differs(u.core_strength),
                column_mismatch(t, id, "core_strength"@, l.core_strength, u.core_strength),
            )
            &&& fields[8] == (
                l.importance.differs(u.importance),
                column_mismatch(t, id, "importance"@, l.importance, u.importance),
            )
            &&& fields[9] == (
                l.consolidation_count != u.consolidation_count,
                difference(
                    t,
                    id,
                    "consolidation_count"@,
                    text::signed_decimal(l.consolidation_count as int),
                    text::signed_decimal(u.consolidation_count as int),
                ),
            )
            &&& fields[10] == (
                l.pinned != u.pinned,
                count_mismatch(t, id, "pinned"@, l.pinned, u.pinned),
            )
            &&& fields[11] == (
                l.source@ != u.source@,
                text_mismatch(t, id, "source"@, l.source@, u.source@),
            )
            &&& fields[12] == (
                !json::json_equal( backfill::read_or_quoted(l.attributes_json@), backfill::read_or_quoted(u.attributes_json@), ),
                difference(
                    t,
                    id,
                    "attributes"@,
                    backfill::read_or_quoted(l.attributes_json@),
                    backfill::read_or_quoted(u.attributes_json@),
                ),
            )
        }),
    ensures
        memory_check(found, id, Some(l), Some(u)) == found + reports(fields),
{
    let f0 = lemma_no_field(found);
    let f1 = lemma_field(found, f0, fields[0]);
    let f2 = lemma_field(found, f1, fields[1]);
    let f3 = lemma_field(found, f2, fields[2]);
    let f4 = lemma_field(found, f3, fields[3]);
    let f5 = lemma_field(found, f4, fields[4]);
    let f6 = lemma_field(found, f5, fields[5]);
    let f7 = lemma_field(found, f6, fields[6]);
    let f8 = lemma_field(found, f7, fields[7]);
    let f9 = lemma_field(found, f8, fields[8]);
    let f10 = lemma_field(found, f9, fields[9]);
    let f11 = lemma_field(found, f10, fields[10]);
    let f12 = lemma_field(found, f11, fields[11]);
    let f13 = lemma_field(found, f12, fields[12]);
    assert(f13.0 =~= fields);
    assert(memory_check(found, id, Some(l), Some(u)) == f13.1);
}

/// Of two embeddings every field that differs is reported, the time of creation
/// only where it is known.
pub proof fn law_embedding_differences_are_found(
    found: Seq<MismatchView>,
    row: Seq<char>,
    l: EmbeddingRow,
    u: EmbeddingRow,
    instant: Option<(i64, u32)>,
    created: Drift,
    fields: Seq<Judged>,
)
    requires
        ({
            let t = "memory_embeddings"@;
            let id = row;
            &&& fields.len() == 5
            &&& fields[0] == (
                l.memory_id@ != u.memory_id@,
                text_mismatch(t, id, "memory_id"@, l.memory_id@, u.memory_id@),
            )
            &&& fields[1] == (
                l.model@ != u.model@,
                text_mismatch(t, id, "model"@, l.model@, u.model@),
            )
            &&& fields[2] == (
                l.dimensions != u.dimensions,
                count_mismatch(t, id, "dimensions"@, l.dimensions, u.dimensions),
            )
            &&& fields[3] == (
                l.embedding@ != u.embedding@,
                difference(
                    t,
                    id,
                    "embedding"@,
                    blob_label(l.embedding@),
                    blob_label(u.embedding@),
                ),
            )
            &&& fields[4] == (
                created.beyond && (instant matches Some(i) && i.0 * 1_000_000_000 + i.1 != 0),
                difference(t, id, "created_at_epoch"@, created.legacy@, created.unified@),
            )
        }),
    ensures
        embedding_check(found, row, Some(l), Some(u), instant, created) == found + reports(fields),
{
    let f0 = lemma_no_field(found);
    let f1 = lemma_field(found, f0, fields[0]);
    let f2 = lemma_field(found, f1, fields[1]);
    let f3 = lemma_field(found, f2, fields[2]);
    let f4 = lemma_field(found, f3, fields[3]);
    let f5 = lemma_field(found, f4, fields[4]);
    assert(f5.0 =~= fields);
    assert(embedding_check(found, row, Some(l), Some(u), instant, created) == f5.1);
}

/// Of two entities every field that differs is reported, and attributes that are
/// not those which the driver projects.
pub proof fn law_entity_differences_are_found(
    found: Seq<MismatchView>,
    id: Seq<char>,
    l: EntityRow,
    u: EntityRow,
    created: Drift,
    updated: Drift,
    fields: Seq<Judged>,
)
    requires
        ({
            let t = "entities"@;
            let id = l.id@;
            &&& fields.len() == 7
            &&& fields[0] == (l.id@ != u.id@, text_mismatch(t, id, "id"@, l.id@, u.id@))
            &&& fields[1] == (
                l.name_or_content@ != u.name_or_content@,
                difference(t, id, "name->content"@, l.name_or_content@, u.name_or_content@),
            )
            &&& fields[2] == (
                l.namespace@ != u.namespace@,
                text_mismatch(t, id, "namespace"@, l.namespace@, u.namespace@),
            )
            &&& fields[3] == (
                created.beyond,
                difference(t, id, "created_at"@, created.legacy@, created.unified@),
            )
            &&& fields[4] == (
                updated.beyond,
                difference(t, id, "updated_at"@, updated.legacy@, updated.unified@),
            )
            &&& fields[5] == (
                string_at(u.metadata_or_attributes_json@, "entity_type"@) != l.entity_type_column@,
                difference(
                    t,
                    id,
                    "attributes.entity_type (FINDING-1 column-wins)"@,
                    l.entity_type_column@,
                    string_at(u.metadata_or_attributes_json@, "entity_type"@),
                ),
            )
            &&& fields[6] == (
                !json::json_equal( json::json_object( backfill::entity_attributes( l.entity_type_column@, Some(l.metadata_or_attributes_json@), ), ), read_or_null(u.metadata_or_attributes_json@), ),
                difference(
                    t,
                    id,
                    "attributes"@,
                    json::json_object( backfill::entity_attributes( l.entity_type_column@, Some(l.metadata_or_attributes_json@), ), ),
                    read_or_null(u.metadata_or_attributes_json@),
                ),
            )
        }),
    ensures
        entity_check(found, id, Some(l), Some(u), created, updated) == found + reports(fields),
{
    let f0 = lemma_no_field(found);
    let f1 = lemma_field(found, f0, fields[0]);
    let f2 = lemma_field(found, f1, fields[1]);
    let f3 = lemma_field(found, f2, fields[2]);
    let f4 = lemma_field(found, f3, fields[3]);
    let f5 = lemma_field(found, f4, fields[4]);
    let f6 = lemma_field(found, f5, fields[5]);
    let f7 = lemma_field(found, f6, fields[6]);
    assert(f7.0 =~= fields);
    assert(entity_check(found, id, Some(l), Some(u), created, updated) == f7.1);
}

/// Of two provenance records every field that differs is reported.
pub proof fn law_provenance_differences_are_found(
    found: Seq<MismatchView>,
    id: Seq<char>,
    l: SynthesisProvenanceRow,
    u: SynthesisProvenanceRow,
    confidence: Drift,
    created: Drift,
    fields: Seq<Judged>,
)
    requires
        ({
            let t = "synthesis_provenance"@;
            let id = l.id@;
            &&& fields.len() == 9
            &&& fields[0] == (l.id@ != u.id@, text_mismatch(t, id, "id"@, l.id@, u.id@))
            &&& fields[1] == (
                l.source_id@ != u.source_id@,
                text_mismatch(t, id, "source_id"@, l.source_id@, u.source_id@),
            )
            &&& fields[2] == (
                l.target_id@ != u.target_id@,
                text_mismatch(t, id, "target_id"@, l.target_id@, u.target_id@),
            )
            &&& fields[3] == (
                l.namespace@ != u.namespace@,
                text_mismatch(t, id, "namespace"@, l.namespace@, u.namespace@),
            )
            &&& fields[4] == (
                l.edge_kind@ != u.edge_kind@,
                text_mismatch(t, id, "edge_kind"@, l.edge_kind@, u.edge_kind@),
            )
            &&& fields[5] == (
                l.predicate@ != u.predicate@,
                text_mismatch(t, id, "predicate"@, l.predicate@, u.predicate@),
            )
            &&& fields[6] == (
                confidence.beyond,
                difference(t, id, "confidence"@, confidence.legacy@, confidence.unified@),
            )
            &&& fields[7] == (
                created.beyond,
                difference(t, id, "created_at_epoch"@, created.legacy@, created.unified@),
            )
            &&& fields[8] == (
                !json::json_equal(read_or_null(l.attributes_json@), read_or_null(u.attributes_json@)),
                difference(
                    t,
                    id,
                    "attributes"@,
                    read_or_null(l.attributes_json@),
                    read_or_null(u.attributes_json@),
                ),
            )
        }),
    ensures
        synthesis_check(found, id, Some(l), Some(u), confidence, created) == found + reports(fields),
{
    let f0 = lemma_no_field(found);
    let f1 = lemma_field(found, f0, fields[0]);
    let f2 = lemma_field(found, f1, fields[1]);
    let f3 = lemma_field(found, f2, fields[2]);
    let f4 = lemma_field(found, f3, fields[3]);
    let f5 = lemma_field(found, f4, fields[4]);
    let f6 = lemma_field(found, f5, fields[5]);
    let f7 = lemma_field(found, f6, fields[6]);
    let f8 = lemma_field(found, f7, fields[7]);
    let f9 = lemma_field(found, f8, fields[8]);
    assert(f9.0 =~= fields);
    assert(synthesis_check(found, id, Some(l), Some(u), confidence, created) == f9.1);
}

/// An edge that does not relate what the relation relates is reported, and so is
/// one that uses a predicate of the links of memories.
pub proof fn law_relation_differences_are_found(
    found: Seq<MismatchView>,
    id: Seq<char>,
    l: RelationRow,
    u: EdgeRow,
    fields: Seq<Judged>,
)
    requires
        ({
            let t = "entity_relations"@;
            let id = id;
            &&& fields.len() == 5
            &&& fields[0] == (
                u.edge_kind@ != "structural"@,
                difference(t, id, "edge_kind"@, "structural"@, u.edge_kind@),
            )
            &&& fields[1] == (
                (u.predicate@ == "subject_of"@ || u.predicate@ == "object_of"@),
                difference(
                    t,
                    id,
                    "predicate (T22 must NOT use T23 predicates)"@,
                    l.relation@,
                    u.predicate@,
                ),
            )
            &&& fields[2] == (
                l.relation@ != u.predicate@,
                difference(t, id, "predicate"@, l.relation@, u.predicate@),
            )
            &&& fields[3] == (
                l.source_id@ != u.source_id@,
                difference(t, id, "source_id"@, l.source_id@, u.source_id@),
            )
            &&& fields[4] == (
                l.target_id@ != u.target_id@,
                difference(t, id, "target_id"@, l.target_id@, u.target_id@),
            )
        }),
    ensures
        relation_check(found, id, Some(l), Some(u)) == found + reports(fields),
{
    let f0 = lemma_no_field(found);
    let f1 = lemma_field(found, f0, fields[0]);
    let f2 = lemma_field(found, f1, fields[1]);
    let f3 = lemma_field(found, f2, fields[2]);
    let f4 = lemma_field(found, f3, fields[3]);
    let f5 = lemma_field(found, f4, fields[4]);
    assert(f5.0 =~= fields);
    assert(relation_check(found, id, Some(l), Some(u)) == f5.1);
}

/// An edge that does not link the memory to the entity, in the shape that the role
/// has, is reported.
pub proof fn law_link_differences_are_found(
    found: Seq<MismatchView>,
    l: MemoryEntityRow,
    u: EdgeRow,
    fields: Seq<Judged>,
)
    requires
        ({
            let t = "memory_entities"@;
            let id = l.memory_id@ + seq!['|'] + l.entity_id@ + seq!['|'] + l.role@;
            &&& fields.len() == 4
            &&& fields[0] == (
                u.edge_kind@ != identity::role_shape(l.role@).0.0,
                difference(t, id, "edge_kind"@, identity::role_shape(l.role@).0.0, u.edge_kind@),
            )
            &&& fields[1] == (
                u.predicate@ != identity::role_shape(l.role@).0.1,
                difference(t, id, "predicate"@, identity::role_shape(l.role@).0.1, u.predicate@),
            )
            &&& fields[2] == (
                l.memory_id@ != u.source_id@,
                difference(t, id, "source_id"@, l.memory_id@, u.source_id@),
            )
            &&& fields[3] == (
                l.entity_id@ != u.target_id@,
                difference(t, id, "target_id"@, l.entity_id@, u.target_id@),
            )
        }),
    ensures
        link_check(found, l, Some(u)) == found + reports(fields),
{
    let f0 = lemma_no_field(found);
    let f1 = lemma_field(found, f0, fields[0]);
    let f2 = lemma_field(found, f1, fields[1]);
    let f3 = lemma_field(found, f2, fields[2]);
    let f4 = lemma_field(found, f3, fields[3]);
    assert(f4.0 =~= fields);
    assert(link_check(found, l, Some(u)) == f4.1);
}

/// An edge that does not join the pair of the row, smaller end first, or that
/// weighs or counts less than the row, is reported.
pub proof fn law_group_differences_are_found(
    found: Seq<MismatchView>,
    l: HebbianRow,
    u: HebbianEdge,
    fields: Seq<Judged>,
)
    requires
        ({
            let t = "hebbian_links"@;
            let id = hebbian_row(l);
            &&& fields.len() == 8
            &&& fields[0] == (
                u.edge.edge_kind@ != "associative"@,
                difference(t, id, "edge_kind"@, "associative"@, u.edge.edge_kind@),
            )
            &&& fields[1] == (
                u.edge.predicate@ != "co_activated"@,
                difference(t, id, "predicate"@, "co_activated"@, u.edge.predicate@),
            )
            &&& fields[2] == (
                u.edge.source_id@ != identity::ordered_pair(l.source_id@, l.target_id@).0,
                difference(
                    t,
                    id,
                    "source_id (canonical lo)"@,
                    identity::ordered_pair(l.source_id@, l.target_id@).0,
                    u.edge.source_id@,
                ),
            )
            &&& fields[3] == (
                u.edge.target_id@ != identity::ordered_pair(l.source_id@, l.target_id@).1,
                difference(
                    t,
                    id,
                    "target_id (canonical hi)"@,
                    identity::ordered_pair(l.source_id@, l.target_id@).1,
                    u.edge.target_id@,
                ),
            )
            &&& fields[4] == (
                u.weight_short,
                difference(
                    t,
                    id,
                    "weight (SUM >= per-row lower bound)"@,
                    ">= "@ + u.strength@,
                    u.weight@,
                ),
            )
            &&& fields[5] == (
                u.coactivation_count < l.coactivation_count,
                difference(
                    t,
                    id,
                    "coactivation_count (SUM >= lower bound)"@,
                    ">= "@ + text::signed_decimal(l.coactivation_count as int),
                    text::signed_decimal(u.coactivation_count as int),
                ),
            )
            &&& fields[6] == (
                u.temporal_forward < l.temporal_forward,
                difference(
                    t,
                    id,
                    "temporal_forward (SUM >= lower bound)"@,
                    ">= "@ + text::signed_decimal(l.temporal_forward as int),
                    text::signed_decimal(u.temporal_forward as int),
                ),
            )
            &&& fields[7] == (
                u.temporal_backward < l.temporal_backward,
                difference(
                    t,
                    id,
                    "temporal_backward (SUM >= lower bound)"@,
                    ">= "@ + text::signed_decimal(l.temporal_backward as int),
                    text::signed_decimal(u.temporal_backward as int),
                ),
            )
        }),
    ensures
        hebbian_check(found, l, Some(u)) == found + reports(fields),
{
    let f0 = lemma_no_field(found);
    let f1 = lemma_field(found, f0, fields[0]);
    let f2 = lemma_field(found, f1, fields[1]);
    let f3 = lemma_field(found, f2, fields[2]);
    let f4 = lemma_field(found, f3, fields[3]);
    let f5 = lemma_field(found, f4, fields[4]);
    let f6 = lemma_field(found, f5, fields[5]);
    let f7 = lemma_field(found, f6, fields[6]);
    let f8 = lemma_field(found, f7, fields[7]);
    assert(f8.0 =~= fields);
    assert(hebbian_check(found, l, Some(u)) == f8.1);
}

/// A report on a field shows what each of the rows has there.
pub proof fn law_reports_show_both_values(
    t: Seq<char>,
    id: Seq<char>,
    f: Seq<char>,
    a: Seq<char>,
    b: Seq<char>,
    c: Column,
    d: Column,
    m: i64,
    n: i64,
)
    ensures
        text_mismatch(t, id, f, a, b) == difference(
            t,
            id,
            f,
            text::debug_form(a),
            text::debug_form(b),
        ),
        column_mismatch(t, id, f, c, d) == difference(t, id, f, c.printed@, d.printed@),
        count_mismatch(t, id, f, m, n) == difference(
            t,
            id,
            f,
            text::signed_decimal(m as int),
            text::signed_decimal(n as int),
        ),
{
}

/// A row that is missing on either side is reported as such, and nothing else of
/// it.
pub proof fn law_missing_rows_are_found(
    found: Seq<MismatchView>,
    id: Seq<char>,
    memory: MemoryRow,
    embedding: EmbeddingRow,
    entity: EntityRow,
    record: SynthesisProvenanceRow,
    relation: RelationRow,
    link: MemoryEntityRow,
    group: HebbianRow,
    a: Drift,
    b: Drift,
    instant: Option<(i64, u32)>,
)
    ensures
        memory_check(found, id, Some(memory), None) == found.push(lost("memories"@, id)),
        embedding_check(found, id, Some(embedding), None, instant, a) == found.push(
            lost("memory_embeddings"@, id),
        ),
        entity_check(found, id, Some(entity), None, a, b) == found.push(lost("entities"@, id)),
        synthesis_check(found, id, Some(record), None, a, b) == found.push(
            lost("synthesis_provenance"@, id),
        ),
        relation_check(found, id, Some(relation), None) == found.push(
            lost("entity_relations"@, id),
        ),
        link_check(found, link, None) == found.push(lost("memory_entities"@, link_row(link))),
        hebbian_check(found, group, None) == found.push(
            lost("hebbian_links"@, hebbian_row(group)),
        ),
        forall|u: Option<MemoryRow>| #[trigger]
            memory_check(found, id, None, u) == found.push(unexpected("memories"@, id)),
        forall|u: Option<EmbeddingRow>| #[trigger]
            embedding_check(found, id, None, u, instant, a) == found.push(
                unexpected("memory_embeddings"@, id),
            ),
        forall|u: Option<EntityRow>| #[trigger]
            entity_check(found, id, None, u, a, b) == found.push(unexpected("entities"@, id)),
        forall|u: Option<SynthesisProvenanceRow>| #[trigger]
            synthesis_check(found, id, None, u, a, b) == found.push(
                unexpected("synthesis_provenance"@, id),
            ),
        forall|u: Option<EdgeRow>| #[trigger]
            relation_check(found, id, None, u) == found.push(
                unexpected("entity_relations"@, id),
            ),
{
}

/// A row that only the legacy table has.
pub open spec fn lost(table: Seq<char>, row: Seq<char>) -> MismatchView {
    MismatchView { table, row, field: "existence"@, legacy: "present"@, unified: "missing"@ }
}

/// A row that the legacy table lacks.
pub open spec fn unexpected(table: Seq<char>, row: Seq<char>) -> MismatchView {
    MismatchView { table, row, field: "existence"@, legacy: "missing"@, unified: "n/a"@ }
}

/// Two columns agree where both are empty or both hold the same number; a value
/// that is no number agrees with nothing.
pub proof fn law_columns_agree_by_number(a: Column, b: Column, c: Column)
    ensures
        a.differs(b) == b.differs(a),
        a.value is None && b.value is None ==> !a.differs(b),
        a.value is None && b.value is Some ==> a.differs(b),
        (a.value matches Some(s) && s.nan()) ==> a.differs(b),
        (a.value matches Some(s) && !s.nan()) ==> !a.differs(a),
        !a.differs(b) && !b.differs(c) ==> !a.differs(c),
        (a.value matches Some(s) && b.value matches Some(t) && s.rank() < t.rank()) ==> a.differs(b),
{
}

/// The eight bytes of a number give it back, the lowest one first.
pub proof fn law_bytes_give_the_number_back(n: u64)
    ensures
        le_bytes(n).len() == 8,
        le_bytes(n)[0] + 0x100 * le_bytes(n)[1] + 0x1_0000 * le_bytes(n)[2] + 0x100_0000
            * le_bytes(n)[3] + 0x1_0000_0000 * le_bytes(n)[4] + 0x100_0000_0000 * le_bytes(n)[5]
            + 0x1_0000_0000_0000 * le_bytes(n)[6] + 0x100_0000_0000_0000 * le_bytes(n)[7] == n,
{
    reveal_with_fuel(byte_at, 9);
}

/// Samples are checked one after the other: those of a first list, then those of
/// a second.
pub proof fn law_samples_are_checked_in_turn<S: Sampled>(
    found: Seq<MismatchView>,
    a: Seq<S>,
    b: Seq<S>,
)
    ensures
        after_all(found, Seq::<S>::empty()) == found,
        after_all(found, a + b) == after_all(after_all(found, a), b),
        a.len() > 0 ==> after_all(found, a) == after_all(a[0].after(found), a.skip(1)),
    decreases a.len() + b.len(), b.len(),
{
    if b.len() > 0 {
        assert((a + b).drop_last() =~= a + b.drop_last());
        assert((a + b).last() == b.last());
        law_samples_are_checked_in_turn(found, a, b.drop_last());
    } else {
        assert(a + b =~= a);
    }
    if a.len() > 0 {
        if a.len() == 1 {
            assert(a.drop_last() =~= Seq::<S>::empty());
            assert(a.skip(1) =~= Seq::<S>::empty());
            assert(a.last() == a[0]);
            assert(after_all(found, a.drop_last()) == found);
        } else {
            let d = a.drop_last();
            law_samples_are_checked_in_turn(found, d, Seq::<S>::empty());
            assert(d.skip(1) =~= a.skip(1).drop_last());
            assert(a.skip(1).last() == a.last());
            assert(d[0] == a[0]);
        }
    }
}

/// The samples of every table are checked: those of one table alone are found
/// whichever table it is.
pub proof fn law_every_table_is_checked(s: ContentSamples)
    ensures
        s.memories@.len() == 0 && s.embeddings@.len() == 0 && s.entities@.len() == 0
            && s.provenance@.len() == 0 && s.relations@.len() == 0 && s.links@.len() == 0
            && s.hebbian@.len() == 0 ==> s.found() == Seq::<MismatchView>::empty(),
        s.embeddings@.len() == 0 && s.entities@.len() == 0 && s.provenance@.len() == 0
            && s.relations@.len() == 0 && s.links@.len() == 0 && s.hebbian@.len() == 0
            ==> s.found() == after_all(Seq::empty(), s.memories@),
        s.memories@.len() == 0 && s.entities@.len() == 0 && s.provenance@.len() == 0
            && s.relations@.len() == 0 && s.links@.len() == 0 && s.hebbian@.len() == 0
            ==> s.found() == after_all(Seq::empty(), s.embeddings@),
        s.memories@.len() == 0 && s.embeddings@.len() == 0 && s.provenance@.len() == 0
            && s.relations@.len() == 0 && s.links@.len() == 0 && s.hebbian@.len() == 0
            ==> s.found() == after_all(Seq::empty(), s.entities@),
        s.memories@.len() == 0 && s.embeddings@.len() == 0 && s.entities@.len() == 0
            && s.relations@.len() == 0 && s.links@.len() == 0 && s.hebbian@.len() == 0
            ==> s.found() == after_all(Seq::empty(), s.provenance@),
        s.memories@.len() == 0 && s.embeddings@.len() == 0 && s.entities@.len() == 0
            && s.provenance@.len() == 0 && s.links@.len() == 0 && s.hebbian@.len() == 0
            ==> s.found() == after_all(Seq::empty(), s.relations@),
        s.memories@.len() == 0 && s.embeddings@.len() == 0 && s.entities@.len() == 0
            && s.provenance@.len() == 0 && s.relations@.len() == 0 && s.hebbian@.len() == 0
            ==> s.found() == after_all(Seq::empty(), s.links@),
        s.memories@.len() == 0 && s.embeddings@.len() == 0 && s.entities@.len() == 0
            && s.provenance@.len() == 0 && s.relations@.len() == 0 && s.links@.len() == 0
            ==> s.found() == after_all(Seq::empty(), s.hebbian@),
{
}

/// What stands under a key is read where it is a text.
pub proof fn law_text_under_key(t: Seq<char>, key: Seq<char>, e: Seq<(Seq<char>, Seq<char>)>, v: Seq<char>, s: Seq<char>)
    requires
        json::json_level(t) == Some(JsonView::Object(e)),
        json::lookup(e, key) == Some(v),
        json::json_level(v) == Some(JsonView::Text(s)),
    ensures
        string_at(t, key) == s,
{
}

/// What is expected of a provenance edge is what the driver plans for the record.
pub proof fn law_expected_record_is_the_planned_one(
    r: SynthesisProvenanceRow,
    p: ProvenanceRow,
    namespace: Seq<char>,
    plan: EdgePlan,
)
    requires
        expects_provenance(r, p, namespace),
        plan.id@ == p.id@,
        plan.source_id@ == p.insight_id@,
        plan.target_id@ == p.source_id@,
        (plan.edge_kind@, plan.predicate@) == ("provenance"@, "derived_from"@),
        plan.attributes@ == json::json_object(backfill::provenance_attributes(p)),
    ensures
        r.id@ == plan.id@,
        r.source_id@ == plan.source_id@,
        r.target_id@ == plan.target_id@,
        r.edge_kind@ == plan.edge_kind@,
        r.predicate@ == plan.predicate@,
        r.attributes_json@ == plan.attributes@,
        r.namespace@ == namespace,
{
}

} // verus!
