//! Sets of an entity's attributes: the objects of its relations are grouped by
//! the language model, and each group becomes one memory that lists it.

use crate::hashing;
use crate::hashing::{hash_texts, hex_text};
use crate::json;
use crate::json::{bool_value, entry, object_value, strings_value, text_value};
use crate::score::Score;
use crate::substrate::attributes;
use crate::text;
use crate::text::{chars_of, find_char, join, same, to_lower};
use vstd::prelude::*;
use vstd::string::*;

verus! {

/// The settings of the pass.
#[derive(Clone, Copy, Debug, PartialEq, Eq)]
pub struct EntitySetSettings {
    /// Whether it runs.
    pub enabled: bool,
    /// The least number of relations of an entity that takes part.
    pub min_degree: usize,
    /// The least number of objects.
    pub min_objects: usize,
    /// The most objects in a prompt.
    pub max_objects_per_entity: usize,
    /// The least size of a set.
    pub min_set_members: usize,
    /// The importance of a set memory.
    pub set_memory_importance: Score,
    /// The most entities of one run.
    pub max_entities_per_run: usize,
}

impl EntitySetSettings {
    /// The settings that apply where none are given.
    pub open spec fn standard() -> EntitySetSettings {
        EntitySetSettings {
            enabled: false,
            min_degree: 6,
            min_objects: 3,
            max_objects_per_entity: 60,
            min_set_members: 2,
            set_memory_importance: Score { bits: 0x3feb333333333333 },
            max_entities_per_run: 32,
        }
    }
}

impl Default for EntitySetSettings {
    fn default() -> (r: EntitySetSettings)
        ensures
            r == EntitySetSettings::standard(),
    {
        EntitySetSettings {
            enabled: false,
            min_degree: 6,
            min_objects: 3,
            max_objects_per_entity: 60,
            min_set_members: 2,
            set_memory_importance: Score { bits: 0x3feb333333333333 },
            max_entities_per_run: 32,
        }
    }
}

/// A relation of an entity: its predicate and its object.
#[derive(Clone, Debug, PartialEq, Eq)]
pub struct EntityObject {
    /// The predicate.
    pub predicate: String,
    /// The object.
    pub object: String,
}

/// An entity with enough relations.
#[derive(Clone, Debug, PartialEq, Eq)]
pub struct EntitySetCandidate {
    /// Its id.
    pub entity_id: String,
    /// Its name.
    pub entity_name: String,
    /// Its relations.
    pub objects: Vec<EntityObject>,
}

// ---------------------------------------------------------------------------
// The prompt
// ---------------------------------------------------------------------------

/// The task and its rules.
pub const TASK: &'static str =
    "You group facts about a single subject into enumerable attribute-sets.\n\
A set is a list answer to a question like \"what are X's hobbies/pets/instruments?\".\n\n\
RULES:\n\
1. Only group items that are genuinely co-members of ONE attribute of the subject \
(e.g. all pets, all hobbies, all visited places). Each set must answer a single \
enumeration question.\n\
2. DISCARD noise: relational fragments (\"girlfriend\", \"family\"), event/action \
phrases (\"making memories\", \"getting a dog\"), generic abstractions (\"nature\", \
\"adventure\"), duplicates, and the subject's own name.\n\
3. NEVER invent members not present in the input list. Preserve the exact surface \
form of each member.\n\
4. Only emit a set if it has 2 or more genuine members. If nothing forms a clean \
set, return {\"sets\": []}.\n\
5. Use a short lowercase plural noun for each label (\"pets\", \"hobbies\", \
\"instruments\", \"visited places\").\n\n";

/// The form of the reply.
pub const REPLY_SHAPE: &'static str = "\nReturn ONLY JSON of this exact shape, no prose:\n\
{\"sets\": [{\"label\": \"pets\", \"members\": [\"Pepper\", \"Precious\"]}]}\n";

/// The line of a relation.
pub open spec fn fact_line(o: EntityObject) -> Seq<char> {
    "- "@ + o.predicate@ + " -> "@ + o.object@ + "\n"@
}

/// The lines of relations.
pub open spec fn fact_lines(objects: Seq<EntityObject>) -> Seq<char>
    decreases objects.len(),
{
    if objects.len() == 0 {
        Seq::empty()
    } else {
        fact_lines(objects.drop_last()) + fact_line(objects.last())
    }
}

/// The prompt for an entity.
pub open spec fn bucketing_prompt(c: EntitySetCandidate) -> Seq<char> {
    TASK@ + "SUBJECT: "@ + c.entity_name@ + "\n\n"@ + "FACTS (predicate -> object):\n"@
        + fact_lines(c.objects@) + REPLY_SHAPE@
}

/// Builds the prompt for an entity.
pub fn build_bucketing_prompt(candidate: &EntitySetCandidate) -> (r: String)
    ensures
        r@ == bucketing_prompt(*candidate),
{
    let mut p: String = TASK.to_owned();
    p.append("SUBJECT: ");
    p.append(candidate.entity_name.as_str());
    p.append("\n\n");
    p.append("FACTS (predicate -> object):\n");
    let ghost head = p@;
    let objects: &Vec<EntityObject> = &candidate.objects;
    let mut i: usize = 0;
    assert(head + fact_lines(objects@.take(0)) =~= head);
    while i < objects.len()
        invariant
            i <= objects@.len(),
            p@ == head + fact_lines(objects@.take(i as int)),
        decreases objects.len() - i,
    {
        let ghost lines = fact_lines(objects@.take(i as int));
        p.append("- ");
        p.append(objects[i].predicate.as_str());
        p.append(" -> ");
        p.append(objects[i].object.as_str());
        p.append("\n");
        proof {
            assert(objects@.take(i + 1).drop_last() =~= objects@.take(i as int));
            assert(p@ =~= head + (lines + fact_line(objects@[i as int])));
        }
        i += 1;
    }
    assert(objects@.take(i as int) =~= objects@);
    p.append(REPLY_SHAPE);
    p
}

// ---------------------------------------------------------------------------
// The reply
// ---------------------------------------------------------------------------

/// Where a scan through a reply stands: how many braces are open, whether it is
/// inside a string, and whether a backslash stands before the next character.
pub struct Scan {
    /// Open braces.
    pub depth: int,
    /// Inside a string.
    pub in_str: bool,
    /// Behind a backslash.
    pub esc: bool,
}

/// The scan after one more character. Braces inside a string do not count, and
/// an escaped quote does not end one.
pub open spec fn scanned(s: Scan, c: char) -> Scan {
    if c == '"' && !s.esc {
        Scan { in_str: !s.in_str, esc: false, ..s }
    } else if c == '\\' && s.in_str {
        Scan { esc: !s.esc, ..s }
    } else if c == '{' && !s.in_str {
        Scan { depth: s.depth + 1, esc: false, ..s }
    } else if c == '}' && !s.in_str {
        Scan { depth: s.depth - 1, esc: false, ..s }
    } else {
        Scan { esc: false, ..s }
    }
}

/// The scan after the first `n` characters.
pub open spec fn scan_of(s: Seq<char>, n: int) -> Scan
    decreases n,
{
    if n <= 0 {
        Scan { depth: 0, in_str: false, esc: false }
    } else {
        scanned(scan_of(s, n - 1), s[n - 1])
    }
}

/// Whether the braces of a text are balanced after `n` characters, and not
/// before.
pub open spec fn balances_at(s: Seq<char>, n: int) -> bool {
    &&& 0 < n <= s.len()
    &&& scan_of(s, n).depth == 0
    &&& forall|k: int| 0 < k < n ==> (#[trigger] scan_of(s, k)).depth > 0
}

/// The first balanced object of a text, from its first brace to the one that
/// closes it.
pub open spec fn first_object(s: Seq<char>) -> Option<Seq<char>> {
    let rest = s.skip(text::first_place(s, '{'));
    if exists|n: int| balances_at(rest, n) {
        Some(rest.take(choose|n: int| balances_at(rest, n)))
    } else {
        None
    }
}

/// There is one place where the braces balance first.
proof fn lemma_one_balance(s: Seq<char>, a: int, b: int)
    requires
        balances_at(s, a),
        balances_at(s, b),
    ensures
        a == b,
{
    if a < b {
        assert(scan_of(s, a).depth > 0);
    } else if b < a {
        assert(scan_of(s, b).depth > 0);
    }
}

/// Finds the first balanced object of a text.
pub fn extract_json_object(s: &str) -> (r: Option<String>)
    ensures
        text::opt_view(r) == first_object(s@),
{
    let chars: Vec<char> = chars_of(s);
    let start: usize = find_char(&chars, '{');
    let ghost rest = s@.skip(start as int);
    if start == chars.len() {
        proof {
            assert forall|n: int| !balances_at(rest, n) by {}
        }
        return None;
    }
    let mut depth: usize = 0;
    let mut in_str: bool = false;
    let mut esc: bool = false;
    let mut out: String = String::new();
    let mut i: usize = start;
    assert(rest.take(0) =~= Seq::empty());
    while i < chars.len()
        invariant
            start <= i <= chars@.len(),
            start < chars@.len(),
            chars@ == s@,
            rest == s@.skip(start as int),
            start == text::first_place(s@, '{'),
            rest[0] == '{',
            scan_of(rest, i - start) == (Scan { depth: depth as int, in_str, esc }),
            depth <= i - start,
            forall|k: int| 0 < k <= i - start ==> (#[trigger] scan_of(rest, k)).depth > 0,
            out@ == rest.take(i - start),
            start < i ==> depth > 0,
            start == i ==> !in_str && !esc,
        decreases chars.len() - i,
    {
        let c: char = chars[i];
        let ghost n = i - start;
        proof {
            assert(rest[n] == c);
            assert(scan_of(rest, n + 1) == scanned(scan_of(rest, n), c));
            assert(rest.take(n + 1) =~= rest.take(n).push(c));
        }
        out.push(c);
        if c == '"' && !esc {
            in_str = !in_str;
            esc = false;
        } else if c == '\\' && in_str {
            esc = !esc;
        } else if c == '{' && !in_str {
            depth += 1;
            esc = false;
        } else if c == '}' && !in_str {
            depth -= 1;
            esc = false;
            if depth == 0 {
                proof {
                    assert(balances_at(rest, n + 1));
                    lemma_one_balance(rest, n + 1, choose|m: int| balances_at(rest, m));
                }
                return Some(out);
            }
        } else {
            esc = false;
        }
        i += 1;
    }
    proof {
        assert forall|n: int| !balances_at(rest, n) by {
            if balances_at(rest, n) {
                assert(scan_of(rest, n).depth > 0);
            }
        }
    }
    None
}

/// An extracted object starts with the first brace of the text, and ends with a
/// brace.
pub proof fn law_object_is_braced(s: Seq<char>)
    ensures
        first_object(s) matches Some(o) ==> o.len() >= 2 && o.first() == '{' && o.last() == '}'
            && text::stands_at(s, o, text::first_place(s, '{')),
{
    if first_object(s) is Some {
        text::lemma_first_place(s, '{');
        let at = text::first_place(s, '{');
        let rest = s.skip(at);
        let n = choose|n: int| balances_at(rest, n);
        assert(balances_at(rest, n));
        let o = rest.take(n);
        assert(scan_of(rest, 1) == scanned(scan_of(rest, 0), rest[0]));
        assert(rest[0] == s[at]);
        if n == 1 {
            assert(scan_of(rest, 1).depth == 1);
        }
        assert(scan_of(rest, n - 1).depth > 0);
        assert(scan_of(rest, n) == scanned(scan_of(rest, n - 1), rest[n - 1]));
        assert(o.last() == rest[n - 1]);
        assert(s.subrange(at, at + o.len()) =~= o);
    }
}

/// A group as the language model gave it.
#[derive(Clone, Debug, PartialEq, Eq)]
pub struct BucketedSet {
    /// Its label.
    pub label: String,
    /// Its members.
    pub members: Vec<String>,
}

/// A group with its label in lower case and its members without repetitions.
#[derive(Clone, Debug, PartialEq, Eq)]
pub struct BucketedSetOut {
    /// Its label.
    pub label: String,
    /// Its members.
    pub members: Vec<String>,
}

/// Whether a text of a list has the given lower-case form.
pub open spec fn has_lower(v: Seq<Seq<char>>, lower: Seq<char>) -> bool {
    exists|k: int| 0 <= k < v.len() && text::lowercase(#[trigger] v[k]) == lower
}

/// The items of a list, trimmed: without empty ones, and of those that differ in
/// case only the first.
pub open spec fn deduped(items: Seq<Seq<char>>) -> Seq<Seq<char>>
    decreases items.len(),
{
    if items.len() == 0 {
        Seq::empty()
    } else {
        let kept = deduped(items.drop_last());
        let t = text::trimmed(items.last());
        if t.len() == 0 || has_lower(kept, text::lowercase(t)) {
            kept
        } else {
            kept.push(t)
        }
    }
}

/// Trims the items of a list, and drops those that are empty or repeat an
/// earlier one in upper or lower case.
pub fn dedup_preserve_order(items: &Vec<String>) -> (r: Vec<String>)
    ensures
        text::views(r@) == deduped(text::views(items@)),
{
    let ghost all = text::views(items@);
    let mut out: Vec<String> = Vec::new();
    let mut keys: Vec<String> = Vec::new();
    assert(text::views(out@) =~= Seq::empty());
    let mut i: usize = 0;
    while i < items.len()
        invariant
            i <= items@.len(),
            all == text::views(items@),
            text::views(out@) == deduped(all.take(i as int)),
            keys@.len() == out@.len(),
            forall|k: int|
                0 <= k < out@.len() ==> #[trigger] text::views(keys@)[k] == text::lowercase(
                    text::views(out@)[k],
                ),
        decreases items.len() - i,
    {
        let t: &str = items[i].as_str().trim();
        assert(all.take(i + 1).drop_last() =~= all.take(i as int));
        assert(all.take(i + 1).last() == items@[i as int]@);
        if !t.is_empty() {
            let key: String = to_lower(t);
            let known: bool = text::contains_text(&keys, key.as_str());
            let ghost kept = text::views(out@);
            let ghost lower = text::views(keys@);
            proof {
                if known {
                    let k = choose|k: int| 0 <= k < lower.len() && lower[k] == key@;
                    assert(text::lowercase(kept[k]) == key@);
                    assert(has_lower(kept, key@));
                } else if has_lower(kept, key@) {
                    let k = choose|k: int|
                        0 <= k < kept.len() && text::lowercase(#[trigger] kept[k]) == key@;
                    assert(lower[k] == key@);
                    assert(text::holds(lower, key@));
                }
            }
            if !known {
                out.push(t.to_owned());
                keys.push(key);
                proof {
                    assert(text::views(out@) =~= kept.push(t@));
                    assert(text::views(keys@) =~= lower.push(text::lowercase(t@)));
                }
            }
        }
        i += 1;
    }
    assert(all.take(i as int) =~= all);
    out
}

/// What is kept of a list is trimmed out of it, not empty, and holds no two
/// items that differ in case only.
pub proof fn law_deduped_distinct(items: Seq<Seq<char>>, i: int, j: int)
    requires
        0 <= i < j < deduped(items).len(),
    ensures
        deduped(items)[i].len() > 0,
        text::lowercase(deduped(items)[i]) != text::lowercase(deduped(items)[j]),
    decreases items.len(),
{
    lemma_deduped_filled(items, i);
    let kept = deduped(items.drop_last());
    if j < kept.len() {
        law_deduped_distinct(items.drop_last(), i, j);
    } else {
        assert(!has_lower(kept, text::lowercase(deduped(items)[j])));
        assert(deduped(items)[i] == kept[i]);
    }
}

proof fn lemma_deduped_filled(items: Seq<Seq<char>>, i: int)
    requires
        0 <= i < deduped(items).len(),
    ensures
        deduped(items)[i].len() > 0,
    decreases items.len(),
{
    let kept = deduped(items.drop_last());
    if i < kept.len() {
        lemma_deduped_filled(items.drop_last(), i);
    }
}

/// Finds the JSON object of a reply.
pub fn bucketing_json(raw: &str) -> (r: Result<String, String>)
    ensures
        match first_object(raw@) {
            Some(o) => r is Ok && (r->Ok_0)@ == o,
            None => r is Err && (r->Err_0)@ == "no JSON object in response"@,
        },
{
    match extract_json_object(raw) {
        Some(o) => Ok(o),
        None => Err("no JSON object in response".to_owned()),
    }
}

/// Whether a group is what a raw group is read as.
pub open spec fn reads_set(o: BucketedSetOut, s: BucketedSet) -> bool {
    &&& o.label@ == text::lowercase(text::trimmed(s.label@))
    &&& text::views(o.members@) == deduped(text::views(s.members@))
}

/// Takes in the groups of a reply, read from the JSON of [`bucketing_json`], or
/// the message of why they could not be read.
pub fn parse_bucketing_response(parsed: Result<Vec<BucketedSet>, String>) -> (r: Result<
    Vec<BucketedSetOut>,
    String,
>)
    ensures
        match parsed {
            Err(e) => r is Err && (r->Err_0)@ == "JSON parse: "@ + e@,
            Ok(sets) => {
                &&& r is Ok
                &&& (r->Ok_0)@.len() == sets@.len()
                &&& forall|i: int|
                    0 <= i < sets@.len() ==> reads_set(#[trigger] (r->Ok_0)@[i], sets@[i])
            },
        },
{
    let sets: Vec<BucketedSet> = match parsed {
        Ok(sets) => sets,
        Err(e) => {
            let mut message: String = "JSON parse: ".to_owned();
            message.append(e.as_str());
            return Err(message);
        },
    };
    let mut out: Vec<BucketedSetOut> = Vec::new();
    let mut i: usize = 0;
    while i < sets.len()
        invariant
            i <= sets@.len(),
            out@.len() == i,
            forall|k: int| 0 <= k < i ==> reads_set(#[trigger] out@[k], sets@[k]),
        decreases sets.len() - i,
    {
        let label: String = to_lower(sets[i].label.as_str().trim());
        let members: Vec<String> = dedup_preserve_order(&sets[i].members);
        out.push(BucketedSetOut { label, members });
        i += 1;
    }
    Ok(out)
}

// ---------------------------------------------------------------------------
// Set memories
// ---------------------------------------------------------------------------

/// The content of a set memory.
pub open spec fn set_text(name: Seq<char>, label: Seq<char>, members: Seq<Seq<char>>) -> Seq<char> {
    name + "'s "@ + label + ": "@ + text::joined(members, ", "@)
}

/// The content of a set memory: whose, of what, and the members.
pub fn render_set_memory(entity_name: &str, label: &str, members: &Vec<String>) -> (r: String)
    ensures
        r@ == set_text(entity_name@, label@, text::views(members@)),
{
    let mut out: String = entity_name.to_owned();
    out.append("'s ");
    out.append(label);
    out.append(": ");
    out.append(join(members, ", ").as_str());
    out
}

/// The id of a set memory: it depends on the entity and the label alone.
pub open spec fn set_id(entity_id: Seq<char>, label: Seq<char>) -> Seq<char> {
    "eset-"@ + hashing::hex(
        hashing::hash_of_texts(seq!["entity_set"@, entity_id, label]) as int,
        16,
    )
}

/// The id of a set memory.
pub fn set_memory_id(entity_id: &str, label: &str) -> (r: String)
    ensures
        r@ == set_id(entity_id@, label@),
{
    let mut parts: Vec<String> = Vec::new();
    parts.push("entity_set".to_owned());
    parts.push(entity_id.to_owned());
    parts.push(label.to_owned());
    assert(text::views(parts@) =~= seq!["entity_set"@, entity_id@, label@]);
    let mut out: String = "eset-".to_owned();
    out.append(hex_text(hash_texts(&parts), 16).as_str());
    out
}

/// The id of a set memory is five characters and sixteen hexadecimal digits
/// behind them.
pub proof fn law_set_id_form(entity_id: Seq<char>, label: Seq<char>)
    ensures
        text::starts(set_id(entity_id, label), "eset-"@),
        set_id(entity_id, label).len() == 21,
        forall|k: int|
            5 <= k < 21 ==> '0' <= #[trigger] set_id(entity_id, label)[k] <= '9' || 'a' <= set_id(
                entity_id,
                label,
            )[k] <= 'f',
{
    reveal_strlit("eset-");
    let n = hashing::hash_of_texts(seq!["entity_set"@, entity_id, label]) as int;
    let id = set_id(entity_id, label);
    hashing::lemma_hex_digits(n, 16);
    assert(id.take(5) =~= "eset-"@);
    assert forall|k: int| 5 <= k < 21 implies '0' <= #[trigger] id[k] <= '9' || 'a' <= id[k]
        <= 'f' by {
        assert(id[k] == hashing::hex(n, 16)[k - 5]);
    }
}

/// Whether a text is one of the objects of an entity, in upper or lower case.
pub open spec fn is_object(t: Seq<char>, objects: Seq<EntityObject>) -> bool {
    exists|k: int|
        0 <= k < objects.len() && text::lowercase((#[trigger] objects[k]).object@)
            == text::lowercase(t)
}

fn check_object(t: &str, objects: &Vec<EntityObject>) -> (r: bool)
    ensures
        r == is_object(t@, objects@),
{
    let lower: String = to_lower(t);
    let mut i: usize = 0;
    while i < objects.len()
        invariant
            i <= objects@.len(),
            lower@ == text::lowercase(t@),
            forall|k: int|
                0 <= k < i ==> text::lowercase((#[trigger] objects@[k]).object@)
                    != text::lowercase(t@),
        decreases objects.len() - i,
    {
        if same(to_lower(objects[i].object.as_str()).as_str(), lower.as_str()) {
            return true;
        }
        i += 1;
    }
    false
}

/// The members of a group that are objects of the entity.
pub open spec fn present(members: Seq<Seq<char>>, objects: Seq<EntityObject>) -> Seq<Seq<char>>
    decreases members.len(),
{
    if members.len() == 0 {
        Seq::empty()
    } else {
        let rest = present(members.drop_last(), objects);
        if is_object(members.last(), objects) {
            rest.push(members.last())
        } else {
            rest
        }
    }
}

fn keep_present(members: &Vec<String>, objects: &Vec<EntityObject>) -> (r: Vec<String>)
    ensures
        text::views(r@) == present(text::views(members@), objects@),
{
    let ghost all = text::views(members@);
    let mut out: Vec<String> = Vec::new();
    assert(text::views(out@) =~= Seq::empty());
    let mut i: usize = 0;
    while i < members.len()
        invariant
            i <= members@.len(),
            all == text::views(members@),
            text::views(out@) == present(all.take(i as int), objects@),
        decreases members.len() - i,
    {
        assert(all.take(i + 1).drop_last() =~= all.take(i as int));
        if check_object(members[i].as_str(), objects) {
            let ghost before = text::views(out@);
            out.push(members[i].clone());
            assert(text::views(out@) =~= before.push(members@[i as int]@));
        }
        i += 1;
    }
    assert(all.take(i as int) =~= all);
    out
}

/// A set memory that is written, or updated where it is there.
#[derive(Clone, Debug, PartialEq, Eq)]
pub struct SetMemory {
    /// Its id.
    pub id: String,
    /// Its content.
    pub content: String,
    /// Its metadata, as JSON text.
    pub metadata: String,
}

/// The metadata of a set memory.
pub open spec fn set_metadata(
    c: EntitySetCandidate,
    label: Seq<char>,
    members: Seq<Seq<char>>,
) -> attributes::Entries {
    seq![
        ("attribute"@, json::json_string(label)),
        ("entity_id"@, json::json_string(c.entity_id@)),
        ("entity_name"@, json::json_string(c.entity_name@)),
        ("is_entity_set"@, json::bool_text(true)),
        ("members"@, json::json_array(json::string_texts(members))),
    ]
}

/// Whether a result is the memory of a group: its members that are objects of
/// the entity, where enough of them are.
pub open spec fn is_set_plan(
    c: EntitySetCandidate,
    set: BucketedSetOut,
    min_set_members: usize,
    r: Option<SetMemory>,
) -> bool {
    let members = present(text::views(set.members@), c.objects@);
    match r {
        Some(m) => {
            &&& members.len() >= min_set_members
            &&& m.id@ == set_id(c.entity_id@, set.label@)
            &&& m.content@ == set_text(c.entity_name@, set.label@, members)
            &&& m.metadata@ == json::json_object(set_metadata(c, set.label@, members))
        },
        None => members.len() < min_set_members,
    }
}

/// Plans the memory of a group: its members that are objects of the entity,
/// where enough of them are.
pub fn plan_set(candidate: &EntitySetCandidate, set: &BucketedSetOut, min_set_members: usize) -> (r:
    Option<SetMemory>)
    ensures
        ({
            let members = present(text::views(set.members@), candidate.objects@);
            match r {
                Some(m) => {
                    &&& members.len() >= min_set_members
                    &&& m.id@ == set_id(candidate.entity_id@, set.label@)
                    &&& m.content@ == set_text(candidate.entity_name@, set.label@, members)
                    &&& m.metadata@ == json::json_object(
                        set_metadata(*candidate, set.label@, members),
                    )
                },
                None => members.len() < min_set_members,
            }
        }),
        is_set_plan(*candidate, *set, min_set_members, r),
{
    let members: Vec<String> = keep_present(&set.members, &candidate.objects);
    let ghost kept = present(text::views(set.members@), candidate.objects@);
    assert(kept.len() == members@.len());
    if members.len() < min_set_members {
        return None;
    }
    let id: String = set_memory_id(candidate.entity_id.as_str(), set.label.as_str());
    let content: String = render_set_memory(
        candidate.entity_name.as_str(),
        set.label.as_str(),
        &members,
    );
    let mut v: Vec<(String, String)> = Vec::new();
    v.push(entry("attribute", text_value(set.label.as_str())));
    v.push(entry("entity_id", text_value(candidate.entity_id.as_str())));
    v.push(entry("entity_name", text_value(candidate.entity_name.as_str())));
    v.push(entry("is_entity_set", bool_value(true)));
    v.push(entry("members", strings_value(&members)));
    assert(json::entries_view(v@) =~= set_metadata(*candidate, set.label@, kept));
    Some(SetMemory { id, content, metadata: object_value(&v) })
}

/// No member of a set memory is made up: each is an object of the entity, in
/// upper or lower case.
pub proof fn law_members_are_objects(
    members: Seq<Seq<char>>,
    objects: Seq<EntityObject>,
    i: int,
)
    requires
        0 <= i < present(members, objects).len(),
    ensures
        is_object(present(members, objects)[i], objects),
    decreases members.len(),
{
    let rest = present(members.drop_last(), objects);
    if i < rest.len() {
        law_members_are_objects(members.drop_last(), objects, i);
    }
}

// ---------------------------------------------------------------------------
// The run
// ---------------------------------------------------------------------------

/// What a run did.
#[derive(Clone, Debug, Default, PartialEq, Eq)]
pub struct EntitySetReport {
    /// Entities with enough relations.
    pub candidates_considered: usize,
    /// Entities whose groups were read.
    pub entities_bucketed: usize,
    /// Set memories that are new.
    pub set_memories_written: usize,
    /// Set memories that were there.
    pub set_memories_updated: usize,
    /// Replies of the language model.
    pub llm_calls: usize,
    /// What went wrong.
    pub errors: Vec<String>,
}

/// The model of an [`EntitySetReport`].
pub struct ReportView {
    /// Entities with enough relations.
    pub candidates: nat,
    /// Entities whose groups were read.
    pub bucketed: nat,
    /// Set memories that are new.
    pub written: nat,
    /// Set memories that were there.
    pub updated: nat,
    /// Replies of the language model.
    pub calls: nat,
    /// What went wrong.
    pub errors: Seq<Seq<char>>,
}

impl View for EntitySetReport {
    type V = ReportView;

    open spec fn view(&self) -> ReportView {
        ReportView {
            candidates: self.candidates_considered as nat,
            bucketed: self.entities_bucketed as nat,
            written: self.set_memories_written as nat,
            updated: self.set_memories_updated as nat,
            calls: self.llm_calls as nat,
            errors: text::views(self.errors@),
        }
    }
}

/// What an error says: what was being done, to what, and what went wrong.
pub open spec fn complaint(doing: Seq<char>, what: Seq<char>, error: Seq<char>) -> Seq<char> {
    doing + what + ": "@ + error
}

impl EntitySetReport {
    /// Starts a run over the entities with enough relations, and tells how many
    /// of them it takes.
    pub fn start(settings: &EntitySetSettings, candidates: usize) -> (r: (EntitySetReport, usize))
        ensures
            r.0@ == (ReportView {
                candidates: if settings.enabled {
                    candidates as nat
                } else {
                    0
                },
                bucketed: 0,
                written: 0,
                updated: 0,
                calls: 0,
                errors: Seq::empty(),
            }),
            r.1 == if !settings.enabled {
                0
            } else if candidates < settings.max_entities_per_run {
                candidates as int
            } else {
                settings.max_entities_per_run as int
            },
    {
        let taken: usize = if !settings.enabled {
            0
        } else if candidates < settings.max_entities_per_run {
            candidates
        } else {
            settings.max_entities_per_run
        };
        let considered: usize = if settings.enabled {
            candidates
        } else {
            0
        };
        let report: EntitySetReport = EntitySetReport {
            candidates_considered: considered,
            entities_bucketed: 0,
            set_memories_written: 0,
            set_memories_updated: 0,
            llm_calls: 0,
            errors: Vec::new(),
        };
        assert(report@.errors =~= Seq::empty());
        (report, taken)
    }

    fn complain(&mut self, doing: &str, what: &str, error: &str)
        ensures
            final(self)@ == (ReportView {
                errors: old(self)@.errors.push(complaint(doing@, what@, error@)),
                ..old(self)@
            }),
    {
        let mut message: String = doing.to_owned();
        message.append(what);
        message.append(": ");
        message.append(error);
        let ghost before = text::views(self.errors@);
        let ghost added = message@;
        self.errors.push(message);
        assert(text::views(self.errors@) =~= before.push(added));
    }

    /// The language model did not answer for an entity.
    pub fn call_failed(&mut self, entity_name: &str, error: &str)
        ensures
            final(self)@ == (ReportView {
                errors: old(self)@.errors.push(complaint("bucketing "@, entity_name@, error@)),
                ..old(self)@
            }),
    {
        self.complain("bucketing ", entity_name, error);
    }

    /// The language model answered for an entity: its groups, or why they could
    /// not be read.
    pub fn answered(&mut self, entity_name: &str, groups: &Result<Vec<BucketedSetOut>, String>)
        requires
            old(self)@.calls < usize::MAX,
            old(self)@.bucketed < usize::MAX,
        ensures
            final(self)@ == match *groups {
                Ok(_) => ReportView {
                    calls: old(self)@.calls + 1,
                    bucketed: old(self)@.bucketed + 1,
                    ..old(self)@
                },
                Err(e) => ReportView {
                    calls: old(self)@.calls + 1,
                    errors: old(self)@.errors.push(complaint("parse "@, entity_name@, e@)),
                    ..old(self)@
                },
            },
    {
        self.llm_calls += 1;
        match groups {
            Ok(_) => {
                self.entities_bucketed += 1;
            },
            Err(e) => {
                self.complain("parse ", entity_name, e.as_str());
            },
        }
    }

    /// A set memory was stored, or was refused by the database.
    pub fn stored(
        &mut self,
        entity_name: &str,
        label: &str,
        existed: bool,
        result: &Result<(), String>,
    )
        requires
            old(self)@.written < usize::MAX,
            old(self)@.updated < usize::MAX,
        ensures
            final(self)@ == match *result {
                Ok(_) => if existed {
                    ReportView { updated: old(self)@.updated + 1, ..old(self)@ }
                } else {
                    ReportView { written: old(self)@.written + 1, ..old(self)@ }
                },
                Err(e) => ReportView {
                    errors: old(self)@.errors.push(
                        complaint("write set "@, entity_name@ + "/"@ + label@, e@),
                    ),
                    ..old(self)@
                },
            },
    {
        match result {
            Ok(_) => {
                if existed {
                    self.set_memories_updated += 1;
                } else {
                    self.set_memories_written += 1;
                }
            },
            Err(e) => {
                let mut what: String = entity_name.to_owned();
                what.append("/");
                what.append(label);
                self.complain("write set ", what.as_str(), e.as_str());
            },
        }
    }
}

// ---------------------------------------------------------------------------
// What prompts, replies and set memories are for
// ---------------------------------------------------------------------------

/// Every relation of an entity stands in its prompt, on a line of its own, and
/// the subject before them.
pub proof fn law_prompt_holds_every_fact(c: EntitySetCandidate, i: int)
    requires
        0 <= i < c.objects@.len(),
    ensures
        text::occurs(
            bucketing_prompt(c),
            "- "@ + c.objects@[i].predicate@ + " -> "@ + c.objects@[i].object@ + "\n"@,
        ),
        text::occurs(bucketing_prompt(c), "SUBJECT: "@ + c.entity_name@ + "\n\n"@),
{
    let p = bucketing_prompt(c);
    let lines = fact_lines(c.objects@);
    let subject = "SUBJECT: "@ + c.entity_name@ + "\n\n"@;
    let a = TASK@ + subject + "FACTS (predicate -> object):\n"@;
    assert(p =~= a + lines + REPLY_SHAPE@);
    lemma_fact_in_lines(c.objects@, i);
    text::lemma_occurs_within(a, lines, REPLY_SHAPE@, fact_line(c.objects@[i]));
    let b = "FACTS (predicate -> object):\n"@ + lines + REPLY_SHAPE@;
    assert(p =~= TASK@ + subject + b);
    text::lemma_occurs_between(TASK@, subject, b);
}

proof fn lemma_fact_in_lines(objects: Seq<EntityObject>, i: int)
    requires
        0 <= i < objects.len(),
    ensures
        text::occurs(fact_lines(objects), fact_line(objects[i])),
    decreases objects.len(),
{
    let before = fact_lines(objects.drop_last());
    let last = fact_line(objects.last());
    if i == objects.len() - 1 {
        assert(before + last =~= before + last + Seq::<char>::empty());
        text::lemma_occurs_between(before, last, Seq::empty());
    } else {
        lemma_fact_in_lines(objects.drop_last(), i);
        assert(before + last =~= Seq::<char>::empty() + before + last);
        text::lemma_occurs_within(Seq::empty(), before, last, fact_line(objects[i]));
    }
}

/// The members of a set memory are the members of the group that are objects of
/// the entity, in upper or lower case: all of them, and in order.
pub proof fn law_every_object_is_kept(members: Seq<Seq<char>>, objects: Seq<EntityObject>)
    ensures
        present(members, objects) == members.filter(
            |t: Seq<char>|
                exists|k: int|
                    0 <= k < objects.len() && text::lowercase((#[trigger] objects[k]).object@)
                        == text::lowercase(t),
        ),
    decreases members.len(),
{
    reveal(Seq::filter);
    if members.len() > 0 {
        law_every_object_is_kept(members.drop_last(), objects);
    }
}

/// A group becomes a memory exactly where enough of its members are objects of
/// the entity. The memory tells whose set it is and what of, and lists every
/// member of the group that is an object of the entity.
pub proof fn law_set_memory_lists_every_object(
    c: EntitySetCandidate,
    set: BucketedSetOut,
    min_set_members: usize,
    r: Option<SetMemory>,
    i: int,
    k: int,
)
    requires
        is_set_plan(c, set, min_set_members, r),
        0 <= i < set.members@.len(),
        0 <= k < c.objects@.len(),
        text::lowercase(set.members@[i]@) == text::lowercase(c.objects@[k].object@),
    ensures
        min_set_members <= 1 ==> r is Some,
        r matches Some(m) ==> text::starts(m.content@, c.entity_name@ + "'s "@ + set.label@ + ": "@)
            && text::occurs(m.content@, set.members@[i]@),
{
    let all = text::views(set.members@);
    let kept = present(all, c.objects@);
    let keep = |t: Seq<char>|
        exists|k: int|
            0 <= k < c.objects@.len() && text::lowercase((#[trigger] c.objects@[k]).object@)
                == text::lowercase(t);
    law_every_object_is_kept(all, c.objects@);
    assert(kept =~= all.filter(keep));
    assert(all[i] == set.members@[i]@);
    assert(keep(all[i]));
    all.lemma_filter_contains(keep, i);
    let at = choose|at: int| 0 <= at < kept.len() && kept[at] == all[i];
    if r is Some {
        let front = c.entity_name@ + "'s "@ + set.label@ + ": "@;
        let list = text::joined(kept, ", "@);
        text::law_joined_holds(kept, ", "@, at);
        let content = (r->0).content@;
        assert(content =~= front + list + Seq::<char>::empty());
        text::lemma_occurs_within(front, list, Seq::empty(), all[i]);
        assert(content.take(front.len() as int) =~= front);
    }
}

/// A group becomes a memory exactly where at least as many of its members as are
/// asked for are objects of the entity.
pub proof fn law_set_memory_needs_members(
    c: EntitySetCandidate,
    set: BucketedSetOut,
    min_set_members: usize,
    r: Option<SetMemory>,
)
    requires
        is_set_plan(c, set, min_set_members, r),
    ensures
        r is Some <==> text::views(set.members@).filter(
            |t: Seq<char>|
                exists|k: int|
                    0 <= k < c.objects@.len() && text::lowercase((#[trigger] c.objects@[k]).object@)
                        == text::lowercase(t),
        ).len() >= min_set_members,
{
    law_every_object_is_kept(text::views(set.members@), c.objects@);
}

/// The metadata of a set memory tell the attribute, the entity and the members,
/// and that it is a set.
pub proof fn law_set_metadata_tell_the_set(
    c: EntitySetCandidate,
    label: Seq<char>,
    members: Seq<Seq<char>>,
)
    ensures
        json::lookup(set_metadata(c, label, members), "attribute"@) == Some(
            json::json_string(label),
        ),
        json::lookup(set_metadata(c, label, members), "entity_id"@) == Some(
            json::json_string(c.entity_id@),
        ),
        json::lookup(set_metadata(c, label, members), "entity_name"@) == Some(
            json::json_string(c.entity_name@),
        ),
        json::lookup(set_metadata(c, label, members), "is_entity_set"@) == Some("true"@),
        json::lookup(set_metadata(c, label, members), "members"@) == Some(
            json::json_array(members.map_values(|t: Seq<char>| json::json_string(t))),
        ),
{
    reveal_strlit("attribute");
    reveal_strlit("entity_id");
    reveal_strlit("entity_name");
    reveal_strlit("is_entity_set");
    reveal_strlit("members");
    assert("attribute"@[0] == 'a' && "entity_id"@[0] == 'e');
    assert("attribute"@.len() == 9 && "entity_id"@.len() == 9 && "entity_name"@.len() == 11);
    assert("is_entity_set"@.len() == 13 && "members"@.len() == 7);
    assert(json::string_texts(members) =~= members.map_values(
        |t: Seq<char>| json::json_string(t),
    ));
    let e = set_metadata(c, label, members);
    assert(e.drop_last() =~= e.take(4));
    assert(e.take(4).drop_last() =~= e.take(3));
    assert(e.take(3).drop_last() =~= e.take(2));
    assert(e.take(2).drop_last() =~= e.take(1));
    reveal_with_fuel(json::lookup, 6);
}

/// What is kept of a list: every item that is not blank is there, trimmed, in
/// some case of its letters; and what is there is an item, trimmed, that no
/// earlier one repeats.
pub proof fn law_deduped_keeps_every_item(items: Seq<Seq<char>>, i: int)
    ensures
        0 <= i < items.len() && text::trimmed(items[i]).len() > 0 ==> exists|k: int|
            0 <= k < deduped(items).len() && text::lowercase(#[trigger] deduped(items)[k])
                == text::lowercase(text::trimmed(items[i])),
        0 <= i < deduped(items).len() ==> exists|j: int|
            0 <= j < items.len() && text::trimmed(#[trigger] items[j]) == deduped(items)[i]
                && forall|k: int|
                0 <= k < j && text::trimmed(#[trigger] items[k]).len() > 0 ==> text::lowercase(
                    text::trimmed(items[k]),
                ) != text::lowercase(deduped(items)[i]),
    decreases items.len(),
{
    if items.len() > 0 {
        let d = items.drop_last();
        let kept = deduped(d);
        let all = deduped(items);
        let t = text::trimmed(items.last());
        law_deduped_keeps_every_item(d, i);
        if 0 <= i < items.len() && text::trimmed(items[i]).len() > 0 {
            if i < d.len() {
                let k = choose|k: int|
                    0 <= k < kept.len() && text::lowercase(#[trigger] kept[k]) == text::lowercase(
                        text::trimmed(d[i]),
                    );
                assert(all[k] == kept[k]);
            } else if has_lower(kept, text::lowercase(t)) {
                let k = choose|k: int|
                    0 <= k < kept.len() && text::lowercase(#[trigger] kept[k]) == text::lowercase(
                        t,
                    );
                assert(all[k] == kept[k]);
            } else {
                assert(all[kept.len() as int] == t);
            }
        }
        if 0 <= i < all.len() {
            if i < kept.len() {
                let j = choose|j: int|
                    0 <= j < d.len() && text::trimmed(#[trigger] d[j]) == kept[i] && forall|k: int|
                        0 <= k < j && text::trimmed(#[trigger] d[k]).len() > 0 ==> text::lowercase(
                            text::trimmed(d[k]),
                        ) != text::lowercase(kept[i]);
                assert(items[j] == d[j]);
                assert forall|k: int|
                    0 <= k < j && text::trimmed(
                        #[trigger] items[k],
                    ).len() > 0 implies text::lowercase(text::trimmed(items[k]))
                    != text::lowercase(all[i]) by {
                    assert(items[k] == d[k]);
                }
            } else {
                let j = items.len() - 1;
                assert(text::trimmed(items[j]) == all[i]);
                assert forall|k: int|
                    0 <= k < j && text::trimmed(
                        #[trigger] items[k],
                    ).len() > 0 implies text::lowercase(text::trimmed(items[k]))
                    != text::lowercase(all[i]) by {
                    assert(items[k] == d[k]);
                    law_deduped_keeps_every_item(d, k);
                    let m = choose|m: int|
                        0 <= m < kept.len() && text::lowercase(#[trigger] kept[m])
                            == text::lowercase(text::trimmed(d[k]));
                    if text::lowercase(text::trimmed(items[k])) == text::lowercase(all[i]) {
                        assert(has_lower(kept, text::lowercase(t)));
                    }
                }
            }
        }
    }
}

/// Items that are kept stay in order: one more item at the end of a list changes
/// nothing of what is kept of the items before it.
pub proof fn law_deduped_keeps_order(items: Seq<Seq<char>>, more: Seq<Seq<char>>)
    ensures
        deduped(items).is_prefix_of(deduped(items + more)),
    decreases more.len(),
{
    if more.len() == 0 {
        assert(items + more =~= items);
    } else {
        law_deduped_keeps_order(items, more.drop_last());
        assert((items + more).drop_last() =~= items + more.drop_last());
    }
}

/// An object without strings ends where as many braces are closed as were
/// opened, and not before.
pub proof fn law_object_ends_where_braces_balance(s: Seq<char>, k: int)
    requires
        first_object(s) is Some,
        !(first_object(s)->0).contains('"'),
        0 < k <= (first_object(s)->0).len(),
    ensures
        ({
            let o = first_object(s)->0;
            let opened = o.take(k).filter(|c: char| c == '{').len();
            let closed = o.take(k).filter(|c: char| c == '}').len();
            if k == o.len() {
                opened == closed
            } else {
                opened > closed
            }
        }),
{
    let at = text::first_place(s, '{');
    let rest = s.skip(at);
    let n = choose|n: int| balances_at(rest, n);
    let o = rest.take(n);
    assert(balances_at(rest, n));
    assert forall|i: int| 0 <= i < n implies rest[i] != '"' by {
        if rest[i] == '"' {
            assert(o[i] == '"');
            assert(o.contains('"'));
        }
    }
    lemma_plain_depth(rest, k);
    assert(o.take(k) =~= rest.take(k));
    assert(scan_of(rest, k).depth >= 0);
}

proof fn lemma_plain_depth(s: Seq<char>, k: int)
    requires
        0 <= k <= s.len(),
        forall|i: int| 0 <= i < k ==> s[i] != '"',
    ensures
        !scan_of(s, k).in_str,
        scan_of(s, k).depth == s.take(k).filter(|c: char| c == '{').len() - s.take(k).filter(
            |c: char| c == '}',
        ).len(),
    decreases k,
{
    reveal(Seq::filter);
    if k > 0 {
        lemma_plain_depth(s, k - 1);
        assert(s.take(k).drop_last() =~= s.take(k - 1));
        assert(s.take(k).last() == s[k - 1]);
    }
}

/// Braces inside a string do not count: an object that holds one string, of any
/// characters but quotes and backslashes, is found whole, whatever stands before
/// and behind it.
pub proof fn law_braces_in_strings_do_not_count(
    before: Seq<char>,
    string: Seq<char>,
    behind: Seq<char>,
)
    requires
        !before.contains('{'),
        !string.contains('"'),
        !string.contains('\\'),
    ensures
        first_object(before + seq!['{', '"'] + string + seq!['"', '}'] + behind) == Some(
            seq!['{', '"'] + string + seq!['"', '}'],
        ),
{
    let o = seq!['{', '"'] + string + seq!['"', '}'];
    let s = before + seq!['{', '"'] + string + seq!['"', '}'] + behind;
    let at = before.len() as int;
    let rest = s.skip(at);
    assert(s[at] == '{');
    text::lemma_first_place(s, '{');
    assert forall|k: int| 0 <= k < at implies s[k] != '{' by {
        assert(s[k] == before[k]);
        if s[k] == '{' {
            assert(before.contains('{'));
        }
    }
    let found = text::first_place(s, '{');
    if found < at {
        assert(s[found] != '{');
    }
    assert(found == at);
    assert(rest.take(o.len() as int) =~= o);
    assert(rest.take(2 + string.len() as int) =~= seq!['{', '"'] + string);
    lemma_scan_string(rest, string, 2 + string.len() as int);
    let m = 2 + string.len() as int;
    assert(rest[m] == o[m] && o[m] == '"');
    assert(rest[m + 1] == o[m + 1] && o[m + 1] == '}');
    assert(scan_of(rest, m + 1) == scanned(scan_of(rest, m), rest[m]));
    assert(scan_of(rest, m + 2) == scanned(scan_of(rest, m + 1), rest[m + 1]));
    assert(o.len() == m + 2);
    assert forall|k: int| 0 < k < m + 2 implies (#[trigger] scan_of(rest, k)).depth > 0 by {
        if k <= m {
            lemma_scan_string(rest, string, k);
        }
    }
    assert(balances_at(rest, m + 2));
    lemma_one_balance(rest, m + 2, choose|n: int| balances_at(rest, n));
}

proof fn lemma_scan_string(rest: Seq<char>, string: Seq<char>, k: int)
    requires
        !string.contains('"'),
        !string.contains('\\'),
        1 <= k <= 2 + string.len() <= rest.len(),
        rest.take(2 + string.len() as int) == seq!['{', '"'] + string,
    ensures
        scan_of(rest, k).depth == 1,
        !scan_of(rest, k).esc,
        scan_of(rest, k).in_str <==> k > 1,
    decreases k,
{
    let front = seq!['{', '"'] + string;
    assert(rest[k - 1] == rest.take(2 + string.len() as int)[k - 1]);
    assert(rest[k - 1] == front[k - 1]);
    assert(scan_of(rest, k) == scanned(scan_of(rest, k - 1), rest[k - 1]));
    if k == 1 {
        assert(scan_of(rest, 0) == Scan { depth: 0, in_str: false, esc: false });
    } else {
        lemma_scan_string(rest, string, k - 1);
        if k > 2 {
            assert(front[k - 1] == string[k - 3]);
            if front[k - 1] == '"' {
                assert(string.contains('"'));
            }
            if front[k - 1] == '\\' {
                assert(string.contains('\\'));
            }
        }
    }
}

/// A group is read with its label in small letters, without white space around
/// it, and with every member that is not blank.
pub proof fn law_group_is_read(o: BucketedSetOut, s: BucketedSet, i: int)
    requires
        reads_set(o, s),
        0 <= i < s.members@.len(),
        text::trimmed(s.members@[i]@).len() > 0,
    ensures
        o.label@ == text::lowercase(text::trimmed(s.label@)),
        exists|k: int|
            0 <= k < o.members@.len() && text::lowercase((#[trigger] o.members@[k])@)
                == text::lowercase(text::trimmed(s.members@[i]@)),
{
    let items = text::views(s.members@);
    law_deduped_keeps_every_item(items, i);
    assert(items[i] == s.members@[i]@);
    let k = choose|k: int|
        0 <= k < deduped(items).len() && text::lowercase(#[trigger] deduped(items)[k])
            == text::lowercase(text::trimmed(items[i]));
    assert(text::views(o.members@)[k] == o.members@[k]@);
}

/// A complaint says what was done, to what, and how it failed.
pub proof fn law_complaint_tells_all(doing: Seq<char>, what: Seq<char>, error: Seq<char>)
    ensures
        text::starts(complaint(doing, what, error), doing + what),
        text::ends(complaint(doing, what, error), error),
        complaint(doing, what, error).len() == doing.len() + what.len() + ": "@.len() + error.len(),
{
    let c = complaint(doing, what, error);
    assert(c.take((doing + what).len() as int) =~= doing + what);
    assert(c.skip(c.len() - error.len()) =~= error);
}

/// The id of a set memory is sixteen hexadecimal digits behind a mark, the same
/// for the same entity and label.
pub proof fn law_set_ids_have_a_form(entity_id: Seq<char>, label: Seq<char>, i: int)
    ensures
        set_id(entity_id, label).len() == 21,
        text::starts(set_id(entity_id, label), "eset-"@),
        5 <= i < 21 ==> '0' <= set_id(entity_id, label)[i] <= '9' || 'a' <= set_id(
            entity_id,
            label,
        )[i] <= 'f',
{
    reveal_strlit("eset-");
    let h = hashing::hash_of_texts(seq!["entity_set"@, entity_id, label]) as int;
    hashing::law_hex_has_the_value(h, 16);
    let s = set_id(entity_id, label);
    assert("eset-"@.len() == 5);
    assert(s.take(5) =~= "eset-"@);
    if 5 <= i < 21 {
        assert(s[i] == hashing::hex(h, 16)[i - 5]);
    }
}

} // verus!
