//! Triple extraction: the prompts, the requests to a language model, and the
//! reading of its replies.

use crate::json;
use crate::json::{
    array_value, bool_value, double, element_at, entry, find, object_value, parse, read_nullable,
    read_text, text_value, JsonNode, JsonView,
};
use crate::score;
use crate::score::Score;
use crate::text;
use crate::text::{chars_of, find_char, same, same_lowered, u64_text, unfence};
use crate::triple;
use crate::triple::{EntityKind, Predicate, Triple, TripleSource};
use vstd::prelude::*;
use vstd::string::*;

verus! {

/// Something that extracts triples from the content of a memory.
pub trait TripleExtractor {
    /// Extracts the triples of a text, or tells why it could not.
    fn extract_triples(&self, content: &str) -> Result<Vec<Triple>, String>;
}

/// An extractor that finds nothing, for where there is no language model.
#[derive(Debug, Default, Clone, Copy)]
pub struct NoopTripleExtractor;

impl NoopTripleExtractor {
    /// An extractor that finds nothing.
    pub fn new() -> (r: NoopTripleExtractor)
        ensures
            r == NoopTripleExtractor,
    {
        NoopTripleExtractor
    }
}

impl TripleExtractor for NoopTripleExtractor {
    fn extract_triples(&self, content: &str) -> (r: Result<Vec<Triple>, String>)
        ensures
            r is Ok,
            (r->Ok_0)@.len() == 0,
    {
        Ok(Vec::new())
    }
}

// ---------------------------------------------------------------------------
// Prompts
// ---------------------------------------------------------------------------

/// The prompt for triples.
pub const TRIPLE_EXTRACTION_PROMPT: &'static str = r#"Extract subject-predicate-object triples from the following text.

Allowed predicates: is_a, part_of, uses, depends_on, caused_by, leads_to, implements, contradicts, related_to

Allowed entity kinds (optional, for subject_kind and object_kind):
  Person, Organization, Place, Concept, Artifact, Event, Topic

If the entity kind is unclear or doesn't fit the above, OMIT the field — do not
guess. Anything outside this allowlist is dropped (it does NOT fall through to
an "Other" bucket).

Return ONLY a JSON array (no markdown, no explanation):
[{"subject": "...", "predicate": "...", "object": "...", "confidence": 0.X, "subject_kind": "Person", "object_kind": "Organization"}]

Examples:
Input: "Rust's borrow checker prevents data races at compile time"
Output: [{"subject": "borrow checker", "predicate": "part_of", "object": "Rust", "confidence": 0.9, "object_kind": "Artifact"}, {"subject": "borrow checker", "predicate": "leads_to", "object": "prevention of data races", "confidence": 0.8}]

Input: "The Memory struct uses SQLite for persistence"
Output: [{"subject": "Memory struct", "predicate": "uses", "object": "SQLite", "confidence": 0.9, "object_kind": "Artifact"}, {"subject": "SQLite", "predicate": "implements", "object": "persistence", "confidence": 0.8, "subject_kind": "Artifact", "object_kind": "Concept"}]

If nothing worth extracting, return empty array [].

Text:
"#;

/// The prompt for triples between atomic entities: phrases that hold a relation
/// are taken apart.
pub const TRIPLE_EXTRACTION_PROMPT_V2: &'static str = r#"Extract subject-predicate-object triples from the following text.

Allowed predicates: is_a, part_of, belongs_to, uses, depends_on, caused_by, leads_to, implements, contradicts, associated_with, related_to

Allowed entity kinds (optional, for subject_kind and object_kind):
  Person, Organization, Place, Concept, Artifact, Event, Topic

If the entity kind is unclear or doesn't fit the above, OMIT the field — do not
guess. Anything outside this allowlist is dropped (it does NOT fall through to
an "Other" bucket).

ATOMICITY CONTRACT — subject and object must each be an ATOMIC ENTITY: a single
real-world thing (a person, place, organization, artifact, concept, event, or
topic). They must NOT be phrases that bury a relationship inside the name.

When a phrase encodes a relation, DECOMPOSE it into entity + relation + entity:
  - Possessive ("X's Y"): emit Y as the subject and X as the object with
    predicate `belongs_to`. "Caroline's paintings" → paintings belongs_to Caroline.
  - Prepositional ("Y from X", "Y with X", "Y of X"): emit Y and X as separate
    entities linked with `associated_with` (or a more specific predicate if one
    fits). "support from Caroline" → support associated_with Caroline.
  - Never emit a possessive or prepositional phrase as a single subject/object
    (no "Caroline's paintings", "support from Caroline", "conversation with Bob"
    as one entity).

Return ONLY a JSON array (no markdown, no explanation):
[{"subject": "...", "predicate": "...", "object": "...", "confidence": 0.X, "subject_kind": "Person", "object_kind": "Organization"}]

Examples:
Input: "Rust's borrow checker prevents data races at compile time"
Output: [{"subject": "borrow checker", "predicate": "belongs_to", "object": "Rust", "confidence": 0.9, "subject_kind": "Concept", "object_kind": "Artifact"}, {"subject": "borrow checker", "predicate": "leads_to", "object": "data races", "confidence": 0.8, "object_kind": "Concept"}]

Input: "Caroline showed her paintings at the LGBTQ art show"
Output: [{"subject": "paintings", "predicate": "belongs_to", "object": "Caroline", "confidence": 0.9, "subject_kind": "Artifact", "object_kind": "Person"}, {"subject": "paintings", "predicate": "part_of", "object": "LGBTQ art show", "confidence": 0.85, "object_kind": "Event"}]

Input: "The Memory struct uses SQLite for persistence"
Output: [{"subject": "Memory struct", "predicate": "uses", "object": "SQLite", "confidence": 0.9, "object_kind": "Artifact"}, {"subject": "SQLite", "predicate": "implements", "object": "persistence", "confidence": 0.8, "subject_kind": "Artifact", "object_kind": "Concept"}]

If nothing worth extracting, return empty array [].

Text:
"#;

/// Whether a switch is on: it is set to one of four words, in upper or lower
/// case.
pub open spec fn switched_on(value: Option<Seq<char>>) -> bool {
    match value {
        Some(v) => {
            let word = text::ascii_lowered(text::trimmed(v));
            word == "1"@ || word == "true"@ || word == "on"@ || word == "yes"@
        },
        None => false,
    }
}

/// Selects the prompt by the value of the switch for the second one.
pub fn select_triple_prompt(value: Option<&str>) -> (r: &'static str)
    ensures
        r@ == if switched_on(
            match value {
                Some(v) => Some(v@),
                None => None,
            },
        ) {
            TRIPLE_EXTRACTION_PROMPT_V2@
        } else {
            TRIPLE_EXTRACTION_PROMPT@
        },
{
    match value {
        Some(v) => {
            let word: &str = v.trim();
            if same_lowered(word, "1") || same_lowered(word, "true") || same_lowered(word, "on")
                || same_lowered(word, "yes") {
                TRIPLE_EXTRACTION_PROMPT_V2
            } else {
                TRIPLE_EXTRACTION_PROMPT
            }
        },
        None => TRIPLE_EXTRACTION_PROMPT,
    }
}

// ---------------------------------------------------------------------------
// Requests and replies
// ---------------------------------------------------------------------------

/// The message of a request, as JSON text.
pub open spec fn user_message(prompt: Seq<char>) -> Seq<char> {
    json::json_array(
        seq![
            json::json_object(
                seq![
                    ("content"@, json::json_string(prompt)),
                    ("role"@, json::json_string("user"@)),
                ],
            ),
        ],
    )
}

fn message_text(prompt: &str) -> (r: String)
    ensures
        r@ == user_message(prompt@),
{
    let mut v: Vec<(String, String)> = Vec::new();
    v.push(entry("content", text_value(prompt)));
    v.push(entry("role", text_value("user")));
    assert(json::entries_view(v@) =~= seq![
        ("content"@, json::json_string(prompt@)),
        ("role"@, json::json_string("user"@)),
    ]);
    let message: String = object_value(&v);
    let ghost inner = message@;
    let mut items: Vec<String> = Vec::new();
    items.push(message);
    assert(text::views(items@) =~= seq![inner]);
    array_value(&items)
}

/// A prompt with the content that it is about behind it.
fn whole_prompt(prompt: &str, content: &str) -> (r: String)
    ensures
        r@ == prompt@ + content@,
{
    let mut out: String = prompt.to_owned();
    out.append(content);
    out
}

/// The body of a request to the Anthropic messages API, as JSON text.
pub fn anthropic_request(model: &str, prompt: &str, content: &str) -> (r: String)
    ensures
        r@ == json::json_object(
            seq![
                ("max_tokens"@, text::decimal(1024)),
                ("messages"@, user_message(prompt@ + content@)),
                ("model"@, json::json_string(model@)),
            ],
        ),
{
    let mut v: Vec<(String, String)> = Vec::new();
    v.push(entry("max_tokens", u64_text(1024)));
    v.push(entry("messages", message_text(whole_prompt(prompt, content).as_str())));
    v.push(entry("model", text_value(model)));
    assert(json::entries_view(v@) =~= seq![
        ("max_tokens"@, text::decimal(1024)),
        ("messages"@, user_message(prompt@ + content@)),
        ("model"@, json::json_string(model@)),
    ]);
    object_value(&v)
}

/// The body of a request to the Ollama chat API, as JSON text.
pub fn ollama_request(model: &str, prompt: &str, content: &str) -> (r: String)
    ensures
        r@ == json::json_object(
            seq![
                ("messages"@, user_message(prompt@ + content@)),
                ("model"@, json::json_string(model@)),
                ("stream"@, json::bool_text(false)),
            ],
        ),
{
    let mut v: Vec<(String, String)> = Vec::new();
    v.push(entry("messages", message_text(whole_prompt(prompt, content).as_str())));
    v.push(entry("model", text_value(model)));
    v.push(entry("stream", bool_value(false)));
    assert(json::entries_view(v@) =~= seq![
        ("messages"@, user_message(prompt@ + content@)),
        ("model"@, json::json_string(model@)),
        ("stream"@, json::bool_text(false)),
    ]);
    object_value(&v)
}

/// The value under a key of a JSON text, where it is an object that has one.
pub open spec fn member(t: Seq<char>, key: Seq<char>) -> Option<Seq<char>> {
    match json::json_level(t) {
        Some(JsonView::Object(e)) => json::lookup(e, key),
        _ => None,
    }
}

fn member_of(t: &str, key: &str) -> (r: Option<String>)
    ensures
        text::opt_view(r) == member(t@, key@),
{
    match parse(t) {
        Some(JsonNode::Object(e)) => find(&e, key),
        _ => None,
    }
}

/// The first element of a JSON text, where it is an array that has one.
pub open spec fn first_element(t: Seq<char>) -> Option<Seq<char>> {
    match json::json_level(t) {
        Some(JsonView::Array(items)) => json::element(items, 0),
        _ => None,
    }
}

fn first_of(t: &str) -> (r: Option<String>)
    ensures
        text::opt_view(r) == first_element(t@),
{
    match parse(t) {
        Some(JsonNode::Array(items)) => element_at(&items, 0),
        _ => None,
    }
}

/// The text in a reply of the Anthropic messages API: that of the first part of
/// its content.
pub open spec fn anthropic_text(reply: Seq<char>) -> Option<Seq<char>> {
    match member(reply, "content"@) {
        Some(content) => match first_element(content) {
            Some(part) => json::text_in(member(part, "text"@)),
            None => None,
        },
        None => None,
    }
}

/// Finds the text in a reply of the Anthropic messages API.
pub fn anthropic_content(reply: &str) -> (r: Result<String, String>)
    ensures
        match anthropic_text(reply@) {
            Some(t) => r is Ok && (r->Ok_0)@ == t,
            None => r is Err && (r->Err_0)@ == "Invalid response structure from Anthropic API"@,
        },
{
    let found: Option<String> = match member_of(reply, "content") {
        Some(content) => match first_of(content.as_str()) {
            Some(part) => read_text(member_of(part.as_str(), "text")),
            None => None,
        },
        None => None,
    };
    match found {
        Some(t) => Ok(t),
        None => Err("Invalid response structure from Anthropic API".to_owned()),
    }
}

/// The text in a reply of the Ollama chat API: the content of its message.
pub open spec fn ollama_text(reply: Seq<char>) -> Option<Seq<char>> {
    match member(reply, "message"@) {
        Some(message) => json::text_in(member(message, "content"@)),
        None => None,
    }
}

/// Finds the text in a reply of the Ollama chat API.
pub fn ollama_content(reply: &str) -> (r: Result<String, String>)
    ensures
        match ollama_text(reply@) {
            Some(t) => r is Ok && (r->Ok_0)@ == t,
            None => r is Err && (r->Err_0)@ == "Invalid response structure from Ollama API"@,
        },
{
    let found: Option<String> = match member_of(reply, "message") {
        Some(message) => read_text(member_of(message.as_str(), "content")),
        None => None,
    };
    match found {
        Some(t) => Ok(t),
        None => Err("Invalid response structure from Ollama API".to_owned()),
    }
}

// ---------------------------------------------------------------------------
// The array in a reply
// ---------------------------------------------------------------------------

/// Where a scan through a reply stands: how many brackets are open, whether it
/// is inside a string, and whether a backslash stands before the next character.
pub struct Scan {
    /// Open brackets.
    pub depth: int,
    /// Inside a string.
    pub in_string: bool,
    /// Behind a backslash.
    pub escape: bool,
}

/// The scan after one more character. Brackets inside a string do not count, and
/// an escaped quote does not end one.
pub open spec fn scanned(s: Scan, c: char) -> Scan {
    if s.in_string {
        if s.escape {
            Scan { escape: false, ..s }
        } else if c == '\\' {
            Scan { escape: true, ..s }
        } else if c == '"' {
            Scan { in_string: false, ..s }
        } else {
            s
        }
    } else if c == '"' {
        Scan { in_string: true, ..s }
    } else if c == '[' {
        Scan { depth: s.depth + 1, ..s }
    } else if c == ']' {
        Scan { depth: s.depth - 1, ..s }
    } else {
        s
    }
}

/// The scan after the first `n` characters.
pub open spec fn scan_of(s: Seq<char>, n: int) -> Scan
    decreases n,
{
    if n <= 0 {
        Scan { depth: 0, in_string: false, escape: false }
    } else {
        scanned(scan_of(s, n - 1), s[n - 1])
    }
}

/// Whether the brackets of a text are balanced after `n` characters, and not
/// before.
pub open spec fn balances_at(s: Seq<char>, n: int) -> bool {
    &&& 0 < n <= s.len()
    &&& scan_of(s, n).depth == 0
    &&& forall|k: int| 0 < k < n ==> (#[trigger] scan_of(s, k)).depth > 0
}

/// The first balanced array of a text, from its first bracket to the one that
/// closes it.
pub open spec fn first_array(s: Seq<char>) -> Option<Seq<char>> {
    let rest = s.skip(text::first_place(s, '['));
    if exists|n: int| balances_at(rest, n) {
        Some(rest.take(choose|n: int| balances_at(rest, n)))
    } else {
        None
    }
}

proof fn lemma_one_balance(s: Seq<char>, a: int, b: int)
    requires
        balances_at(s, a),
        balances_at(s, b),
    ensures
        a == b,
{
    if a < b {
        assert(scan_of(s, a).depth > 0);
    } else if b < a {
        assert(scan_of(s, b).depth > 0);
    }
}

/// Finds the first balanced array of a text.
pub fn extract_first_top_level_array(s: &str) -> (r: Option<String>)
    ensures
        text::opt_view(r) == first_array(s@),
{
    let chars: Vec<char> = chars_of(s);
    let start: usize = find_char(&chars, '[');
    let ghost rest = s@.skip(start as int);
    if start == chars.len() {
        proof {
            assert forall|n: int| !balances_at(rest, n) by {}
        }
        return None;
    }
    let mut depth: usize = 0;
    let mut in_string: bool = false;
    let mut escape: bool = false;
    let mut out: String = String::new();
    let mut i: usize = start;
    assert(rest.take(0) =~= Seq::empty());
    while i < chars.len()
        invariant
            start <= i <= chars@.len(),
            start < chars@.len(),
            chars@ == s@,
            rest == s@.skip(start as int),
            start == text::first_place(s@, '['),
            rest[0] == '[',
            scan_of(rest, i - start) == (Scan { depth: depth as int, in_string, escape }),
            depth <= i - start,
            forall|k: int| 0 < k <= i - start ==> (#[trigger] scan_of(rest, k)).depth > 0,
            out@ == rest.take(i - start),
            start < i ==> depth > 0,
            start == i ==> !in_string,
        decreases chars.len() - i,
    {
        let c: char = chars[i];
        let ghost n = i - start;
        proof {
            assert(rest[n] == c);
            assert(scan_of(rest, n + 1) == scanned(scan_of(rest, n), c));
            assert(rest.take(n + 1) =~= rest.take(n).push(c));
        }
        out.push(c);
        if in_string {
            if escape {
                escape = false;
            } else if c == '\\' {
                escape = true;
            } else if c == '"' {
                in_string = false;
            }
        } else if c == '"' {
            in_string = true;
        } else if c == '[' {
            depth += 1;
        } else if c == ']' {
            depth -= 1;
            if depth == 0 {
                proof {
                    assert(balances_at(rest, n + 1));
                    lemma_one_balance(rest, n + 1, choose|m: int| balances_at(rest, m));
                }
                return Some(out);
            }
        }
        i += 1;
    }
    proof {
        assert forall|n: int| !balances_at(rest, n) by {
            if balances_at(rest, n) {
                assert(scan_of(rest, n).depth > 0);
            }
        }
    }
    None
}

/// An extracted array starts with the first bracket of the text and ends with
/// the bracket that closes it; what stands behind it makes no difference.
pub proof fn law_first_array_wins(s: Seq<char>, behind: Seq<char>)
    requires
        first_array(s) is Some,
    ensures
        first_array(s + behind) == first_array(s),
        text::stands_at(s, first_array(s)->0, text::first_place(s, '[')),
{
    text::lemma_first_place(s, '[');
    let at = text::first_place(s, '[');
    let rest = s.skip(at);
    let n = choose|n: int| balances_at(rest, n);
    assert(balances_at(rest, n));
    lemma_first_place_stays(s, behind, '[');
    let more = (s + behind).skip(at);
    assert(more =~= rest + behind);
    lemma_scan_stays(rest, behind, n);
    assert forall|k: int| 0 < k < n implies (#[trigger] scan_of(more, k)).depth > 0 by {
        lemma_scan_stays(rest, behind, k);
        assert(scan_of(rest, k).depth > 0);
    }
    assert(balances_at(more, n));
    let m = choose|m: int| balances_at(more, m);
    lemma_one_balance(more, n, m);
    assert(more.take(n) =~= rest.take(n));
    assert(s.subrange(at, at + n) =~= rest.take(n));
}

proof fn lemma_scan_stays(s: Seq<char>, behind: Seq<char>, n: int)
    requires
        n <= s.len(),
    ensures
        scan_of(s + behind, n) == scan_of(s, n),
    decreases n,
{
    if n > 0 {
        lemma_scan_stays(s, behind, n - 1);
        assert((s + behind)[n - 1] == s[n - 1]);
    }
}

proof fn lemma_first_place_stays(s: Seq<char>, behind: Seq<char>, c: char)
    requires
        text::first_place(s, c) < s.len(),
    ensures
        text::first_place(s + behind, c) == text::first_place(s, c),
    decreases s.len(),
{
    if s.len() > 0 && s.first() != c {
        text::lemma_first_place(s.drop_first(), c);
        lemma_first_place_stays(s.drop_first(), behind, c);
        assert((s + behind).drop_first() =~= s.drop_first() + behind);
        assert((s + behind).first() == s.first());
    } else {
        assert((s + behind).first() == s.first());
    }
}

// ---------------------------------------------------------------------------
// The triples in an array
// ---------------------------------------------------------------------------

/// A triple as a reply spells it.
pub struct RawTriple {
    /// The subject.
    pub subject: Seq<char>,
    /// The predicate.
    pub predicate: Seq<char>,
    /// The object.
    pub object: Seq<char>,
    /// How certain it is.
    pub confidence: Score,
    /// What the subject is.
    pub subject_kind: Option<Seq<char>>,
    /// What the object is.
    pub object_kind: Option<Seq<char>>,
}

/// The number that a JSON text holds, where it holds one.
pub open spec fn number_in(value: Option<Seq<char>>) -> Option<Score> {
    match value {
        Some(t) => match json::json_double(t) {
            Some(bits) => if (Score { bits }).nan() {
                None
            } else {
                Some(Score { bits })
            },
            None => None,
        },
        None => None,
    }
}

fn read_number(value: Option<String>) -> (r: Option<Score>)
    ensures
        r == number_in(text::opt_view(value)),
{
    match value {
        Some(t) => double(t.as_str()),
        None => None,
    }
}

/// The triple that six fields spell: all are strings but the confidence, and the
/// kinds may be missing or null.
pub open spec fn raw_of(
    subject: Option<Seq<char>>,
    predicate: Option<Seq<char>>,
    object: Option<Seq<char>>,
    confidence: Option<Seq<char>>,
    subject_kind: Option<Seq<char>>,
    object_kind: Option<Seq<char>>,
) -> Option<RawTriple> {
    match (
        json::text_in(subject),
        json::text_in(predicate),
        json::text_in(object),
        number_in(confidence),
        json::nullable_text(subject_kind),
        json::nullable_text(object_kind),
    ) {
        (Some(s), Some(p), Some(o), Some(c), Some(sk), Some(ok)) => Some(
            RawTriple {
                subject: s,
                predicate: p,
                object: o,
                confidence: c,
                subject_kind: sk,
                object_kind: ok,
            },
        ),
        _ => None,
    }
}

/// The triple that an element spells: an object with the fields by name, others
/// passed over, or an array with them in order.
pub open spec fn raw_triple(t: Seq<char>) -> Option<RawTriple> {
    match json::json_level(t) {
        Some(JsonView::Object(e)) => raw_of(
            json::lookup(e, "subject"@),
            json::lookup(e, "predicate"@),
            json::lookup(e, "object"@),
            json::lookup(e, "confidence"@),
            json::lookup(e, "subject_kind"@),
            json::lookup(e, "object_kind"@),
        ),
        Some(JsonView::Array(v)) => if v.len() > 6 {
            None
        } else {
            raw_of(
                json::element(v, 0),
                json::element(v, 1),
                json::element(v, 2),
                json::element(v, 3),
                json::element(v, 4),
                json::element(v, 5),
            )
        },
        _ => None,
    }
}

/// The kind of an entity by its name.
pub open spec fn kind_named(s: Seq<char>) -> Option<EntityKind> {
    if s == "Person"@ {
        Some(EntityKind::Person)
    } else if s == "Organization"@ {
        Some(EntityKind::Organization)
    } else if s == "Place"@ {
        Some(EntityKind::Place)
    } else if s == "Concept"@ {
        Some(EntityKind::Concept)
    } else if s == "Artifact"@ {
        Some(EntityKind::Artifact)
    } else if s == "Event"@ {
        Some(EntityKind::Event)
    } else if s == "Topic"@ {
        Some(EntityKind::Topic)
    } else {
        None
    }
}

/// The kind that a hint names, where it names one: the hint is trimmed, and the
/// name has to be spelled exactly.
pub open spec fn kind_hint(s: Option<Seq<char>>) -> Option<EntityKind> {
    match s {
        Some(t) => kind_named(text::trimmed(t)),
        None => None,
    }
}

/// Reads the hint of a kind. A hint outside the list of kinds is dropped.
pub fn parse_kind_hint(s: Option<&str>) -> (r: Option<EntityKind>)
    ensures
        r == kind_hint(
            match s {
                Some(t) => Some(t@),
                None => None,
            },
        ),
{
    match s {
        Some(t) => {
            let name: &str = t.trim();
            if same(name, "Person") {
                Some(EntityKind::Person)
            } else if same(name, "Organization") {
                Some(EntityKind::Organization)
            } else if same(name, "Place") {
                Some(EntityKind::Place)
            } else if same(name, "Concept") {
                Some(EntityKind::Concept)
            } else if same(name, "Artifact") {
                Some(EntityKind::Artifact)
            } else if same(name, "Event") {
                Some(EntityKind::Event)
            } else if same(name, "Topic") {
                Some(EntityKind::Topic)
            } else {
                None
            }
        },
        None => None,
    }
}

/// The model of a [`Triple`].
pub struct TripleView {
    /// The subject.
    pub subject: Seq<char>,
    /// The predicate.
    pub predicate: Predicate,
    /// The object.
    pub object: Seq<char>,
    /// How certain it is.
    pub confidence: Score,
    /// Where it comes from.
    pub source: TripleSource,
    /// What the subject is.
    pub subject_kind_hint: Option<EntityKind>,
    /// What the object is.
    pub object_kind_hint: Option<EntityKind>,
}

impl View for Triple {
    type V = TripleView;

    open spec fn view(&self) -> TripleView {
        TripleView {
            subject: self.subject@,
            predicate: self.predicate,
            object: self.object@,
            confidence: self.confidence,
            source: self.source,
            subject_kind_hint: self.subject_kind_hint,
            object_kind_hint: self.object_kind_hint,
        }
    }
}

/// The models of a list of triples.
pub open spec fn triple_views(v: Seq<Triple>) -> Seq<TripleView> {
    v.map_values(|t: Triple| t@)
}

/// The triple that a spelled one stands for.
pub open spec fn triple_for(r: RawTriple) -> TripleView {
    TripleView {
        subject: r.subject,
        predicate: triple::predicate_named(triple::underscored(text::lowercase(r.predicate))),
        object: r.object,
        confidence: r.confidence.bounded(Score { bits: score::ZERO }, Score { bits: score::ONE }),
        source: TripleSource::Llm,
        subject_kind_hint: kind_hint(r.subject_kind),
        object_kind_hint: kind_hint(r.object_kind),
    }
}

/// The triples of a list of elements: those that can be read and whose subject
/// and object are not empty.
pub open spec fn triples_of(items: Seq<Seq<char>>) -> Seq<TripleView>
    decreases items.len(),
{
    if items.len() == 0 {
        Seq::empty()
    } else {
        let rest = triples_of(items.drop_last());
        match raw_triple(items.last()) {
            Some(r) => if r.subject.len() == 0 || r.object.len() == 0 {
                rest
            } else {
                rest.push(triple_for(r))
            },
            None => rest,
        }
    }
}

/// The triples of a reply: those of its first array, where there is one.
pub open spec fn reply_triples(content: Seq<char>) -> Seq<TripleView> {
    match first_array(text::unfenced(content)) {
        Some(a) => match json::json_level(a) {
            Some(JsonView::Array(items)) => triples_of(items),
            _ => Seq::empty(),
        },
        None => Seq::empty(),
    }
}

/// The fields of an element, in order.
fn fields_of(t: &str) -> (r: Option<
    (
        Option<String>,
        Option<String>,
        Option<String>,
        Option<String>,
        Option<String>,
        Option<String>,
    ),
>)
    ensures
        raw_triple(t@) == (match r {
            Some(f) => raw_of(
                text::opt_view(f.0),
                text::opt_view(f.1),
                text::opt_view(f.2),
                text::opt_view(f.3),
                text::opt_view(f.4),
                text::opt_view(f.5),
            ),
            None => None,
        }),
{
    match parse(t) {
        Some(JsonNode::Object(e)) => {
            Some(
                (
                    find(&e, "subject"),
                    find(&e, "predicate"),
                    find(&e, "object"),
                    find(&e, "confidence"),
                    find(&e, "subject_kind"),
                    find(&e, "object_kind"),
                ),
            )
        },
        Some(JsonNode::Array(v)) => {
            if v.len() > 6 {
                None
            } else {
                Some(
                    (
                        element_at(&v, 0),
                        element_at(&v, 1),
                        element_at(&v, 2),
                        element_at(&v, 3),
                        element_at(&v, 4),
                        element_at(&v, 5),
                    ),
                )
            }
        },
        _ => None,
    }
}

fn hint_of(s: &Option<String>) -> (r: Option<EntityKind>)
    ensures
        r == kind_hint(text::opt_view(*s)),
{
    match s {
        Some(t) => parse_kind_hint(Some(t.as_str())),
        None => None,
    }
}

/// Reads a triple from an element.
fn read_triple(t: &str) -> (r: Option<Triple>)
    ensures
        match raw_triple(t@) {
            Some(raw) => r is Some && (r->0)@ == triple_for(raw),
            None => r is None,
        },
{
    let fields = match fields_of(t) {
        Some(f) => f,
        None => {
            return None;
        },
    };
    let subject: Option<String> = read_text(fields.0);
    let predicate: Option<String> = read_text(fields.1);
    let object: Option<String> = read_text(fields.2);
    let confidence: Option<Score> = read_number(fields.3);
    let subject_kind: Option<Option<String>> = read_nullable(fields.4);
    let object_kind: Option<Option<String>> = read_nullable(fields.5);
    match (subject, predicate, object, confidence, subject_kind, object_kind) {
        (Some(s), Some(p), Some(o), Some(c), Some(sk), Some(ok)) => {
            let mut triple: Triple = Triple::new(s, Predicate::from_str_lossy(p.as_str()), o, c);
            triple.subject_kind_hint = hint_of(&sk);
            triple.object_kind_hint = hint_of(&ok);
            Some(triple)
        },
        _ => None,
    }
}

/// Reads the triples of a reply. What cannot be read is dropped, element by
/// element, and a reply without an array has none.
pub fn parse_triple_response(content: &str) -> (r: Result<Vec<Triple>, String>)
    ensures
        r is Ok,
        triple_views((r->Ok_0)@) == reply_triples(content@),
        forall|i: int|
            0 <= i < (r->Ok_0)@.len() ==> !(#[trigger] (r->Ok_0)@[i]).confidence.nan(),
{
    let cleaned: String = unfence(content);
    let mut out: Vec<Triple> = Vec::new();
    assert(triple_views(out@) =~= Seq::empty());
    let array: String = match extract_first_top_level_array(cleaned.as_str()) {
        Some(a) => a,
        None => {
            return Ok(out);
        },
    };
    let items: Vec<String> = match parse(array.as_str()) {
        Some(JsonNode::Array(items)) => items,
        _ => {
            return Ok(out);
        },
    };
    let ghost all = text::views(items@);
    let mut i: usize = 0;
    while i < items.len()
        invariant
            i <= items@.len(),
            all == text::views(items@),
            triple_views(out@) == triples_of(all.take(i as int)),
            forall|k: int| 0 <= k < out@.len() ==> !(#[trigger] out@[k]).confidence.nan(),
        decreases items.len() - i,
    {
        assert(all.take(i + 1).drop_last() =~= all.take(i as int));
        assert(all.take(i + 1).last() == items@[i as int]@);
        match read_triple(items[i].as_str()) {
            Some(t) => {
                if !t.subject.as_str().is_empty() && !t.object.as_str().is_empty() {
                    let ghost before = triple_views(out@);
                    let ghost added = t@;
                    out.push(t);
                    assert(triple_views(out@) =~= before.push(added));
                }
            },
            None => {},
        }
        i += 1;
    }
    assert(all.take(i as int) =~= all);
    Ok(out)
}

/// Every triple of a reply has a subject, an object, and a confidence between
/// zero and one.
pub proof fn law_triples_are_whole(items: Seq<Seq<char>>, i: int)
    requires
        0 <= i < triples_of(items).len(),
    ensures
        triples_of(items)[i].subject.len() > 0,
        triples_of(items)[i].object.len() > 0,
        !triples_of(items)[i].confidence.nan(),
        triples_of(items)[i].confidence.reaches(Score { bits: score::ZERO }),
        (Score { bits: score::ONE }).reaches(triples_of(items)[i].confidence),
    decreases items.len(),
{
    let rest = triples_of(items.drop_last());
    if i < rest.len() {
        law_triples_are_whole(items.drop_last(), i);
    }
}

// ---------------------------------------------------------------------------
// What a reply is read for
// ---------------------------------------------------------------------------

/// The hint of a kind names it, with or without white space around it; anything
/// else is no hint.
pub proof fn law_kind_hint_is_the_one_named(t: Seq<char>, k: EntityKind)
    ensures
        kind_hint(Some(t)) == Some(k) <==> text::trimmed(t) == match k {
            EntityKind::Person => "Person"@,
            EntityKind::Organization => "Organization"@,
            EntityKind::Place => "Place"@,
            EntityKind::Concept => "Concept"@,
            EntityKind::Artifact => "Artifact"@,
            EntityKind::Event => "Event"@,
            EntityKind::Topic => "Topic"@,
        },
        kind_hint(None) is None,
{
    reveal_strlit("Person");
    reveal_strlit("Organization");
    reveal_strlit("Place");
    reveal_strlit("Concept");
    reveal_strlit("Artifact");
    reveal_strlit("Event");
    reveal_strlit("Topic");
    assert("Person"@.len() == 6 && "Organization"@.len() == 12 && "Concept"@.len() == 7
        && "Artifact"@.len() == 8);
    assert("Place"@.len() == 5 && "Event"@.len() == 5 && "Topic"@.len() == 5);
    assert("Place"@[0] == 'P' && "Event"@[0] == 'E' && "Topic"@[0] == 'T');
}

/// An element with a subject, a predicate and an object as texts, a number as
/// its confidence, and kinds that are texts, is read as the triple of these,
/// with its confidence brought between zero and one.
pub proof fn law_element_is_read_as_its_fields(
    t: Seq<char>,
    e: Seq<(Seq<char>, Seq<char>)>,
    values: Seq<Seq<char>>,
    subject: Seq<char>,
    predicate: Seq<char>,
    object: Seq<char>,
    bits: u64,
    kinds: (Seq<char>, Seq<char>),
)
    requires
        json::json_level(t) == Some(JsonView::Object(e)),
        values.len() == 6,
        json::lookup(e, "subject"@) == Some(values[0]),
        json::lookup(e, "predicate"@) == Some(values[1]),
        json::lookup(e, "object"@) == Some(values[2]),
        json::lookup(e, "confidence"@) == Some(values[3]),
        json::lookup(e, "subject_kind"@) == Some(values[4]),
        json::lookup(e, "object_kind"@) == Some(values[5]),
        json::json_level(values[0]) == Some(JsonView::Text(subject)),
        json::json_level(values[1]) == Some(JsonView::Text(predicate)),
        json::json_level(values[2]) == Some(JsonView::Text(object)),
        json::json_double(values[3]) == Some(bits),
        json::json_level(values[4]) == Some(JsonView::Text(kinds.0)),
        json::json_level(values[5]) == Some(JsonView::Text(kinds.1)),
        subject.len() > 0,
        object.len() > 0,
        !(Score { bits }).nan(),
    ensures
        triples_of(seq![t]).len() == 1,
        ({
            let found = triples_of(seq![t])[0];
            &&& found.subject == subject
            &&& found.object == object
            &&& found.predicate == triple::predicate_named(
                triple::underscored(text::lowercase(predicate)),
            )
            &&& found.confidence.reaches(Score { bits: 0 })
            &&& (Score { bits: 0x3ff0_0000_0000_0000 }).reaches(found.confidence)
            &&& (Score { bits }).reaches(Score { bits: 0 }) && (Score {
                bits: 0x3ff0_0000_0000_0000,
            }).reaches(Score { bits }) ==> found.confidence == (Score { bits })
            &&& found.source is Llm
            &&& found.subject_kind_hint == kind_named(text::trimmed(kinds.0))
            &&& found.object_kind_hint == kind_named(text::trimmed(kinds.1))
        }),
{
    assert(seq![t].drop_last() =~= Seq::<Seq<char>>::empty());
    assert(seq![t].last() == t);
    assert(triples_of(seq![t].drop_last()) =~= Seq::<TripleView>::empty());
}

/// A list of six values is read like an element with the six fields in that
/// order; a longer one is not read.
pub proof fn law_list_is_read_in_order(t: Seq<char>, v: Seq<Seq<char>>, u: Seq<char>)
    requires
        json::json_level(t) == Some(JsonView::Array(v)),
        json::json_level(u) == Some(
            JsonView::Object(
                seq![
                    ("confidence"@, v[3]),
                    ("object"@, v[2]),
                    ("object_kind"@, v[5]),
                    ("predicate"@, v[1]),
                    ("subject"@, v[0]),
                    ("subject_kind"@, v[4]),
                ],
            ),
        ),
    ensures
        v.len() == 6 ==> raw_triple(t) == raw_triple(u),
        v.len() > 6 ==> raw_triple(t) is None,
{
    reveal_strlit("confidence");
    reveal_strlit("object");
    reveal_strlit("object_kind");
    reveal_strlit("predicate");
    reveal_strlit("subject");
    reveal_strlit("subject_kind");
    assert("confidence"@.len() == 10 && "object"@.len() == 6 && "object_kind"@.len() == 11);
    assert("predicate"@.len() == 9 && "subject"@.len() == 7 && "subject_kind"@.len() == 12);
    let e = seq![
        ("confidence"@, v[3]),
        ("object"@, v[2]),
        ("object_kind"@, v[5]),
        ("predicate"@, v[1]),
        ("subject"@, v[0]),
        ("subject_kind"@, v[4]),
    ];
    assert(e.drop_last() =~= e.take(5));
    assert(e.take(5).drop_last() =~= e.take(4));
    assert(e.take(4).drop_last() =~= e.take(3));
    assert(e.take(3).drop_last() =~= e.take(2));
    assert(e.take(2).drop_last() =~= e.take(1));
    reveal_with_fuel(json::lookup, 7);
    assert(json::lookup(e, "confidence"@) == Some(v[3]));
    assert(json::lookup(e, "object"@) == Some(v[2]));
    assert(json::lookup(e, "object_kind"@) == Some(v[5]));
    assert(json::lookup(e, "predicate"@) == Some(v[1]));
    assert(json::lookup(e, "subject"@) == Some(v[0]));
    assert(json::lookup(e, "subject_kind"@) == Some(v[4]));
}

/// Elements are read one by one and in order: what cannot be read is left out,
/// and takes nothing else with it.
pub proof fn law_elements_are_read_one_by_one(
    a: Seq<Seq<char>>,
    b: Seq<Seq<char>>,
    t: Seq<char>,
)
    ensures
        triples_of(a + b) == triples_of(a) + triples_of(b),
        triples_of(seq![t]).len() <= 1,
        triples_of(seq![t]).len() == 1 <==> (raw_triple(t) matches Some(r) && r.subject.len() > 0
            && r.object.len() > 0),
    decreases b.len(),
{
    assert(seq![t].drop_last() =~= Seq::<Seq<char>>::empty());
    assert(seq![t].last() == t);
    assert(triples_of(seq![t].drop_last()) =~= Seq::<TripleView>::empty());
    if b.len() == 0 {
        assert(a + b =~= a);
        assert(triples_of(a) + triples_of(b) =~= triples_of(a));
    } else {
        law_elements_are_read_one_by_one(a, b.drop_last(), t);
        assert((a + b).drop_last() =~= a + b.drop_last());
        assert((a + b).last() == b.last());
        let rest = triples_of(b.drop_last());
        assert(triples_of(a + b) =~= triples_of(a) + triples_of(b));
    }
}

/// The text of a reply stands in the first part of its content, or in its
/// message, as the service has it.
pub proof fn law_reply_text_is_found(
    reply: Seq<char>,
    e: Seq<(Seq<char>, Seq<char>)>,
    inner: Seq<char>,
    parts: Seq<Seq<char>>,
    part: Seq<(Seq<char>, Seq<char>)>,
    value: Seq<char>,
    found: Seq<char>,
)
    requires
        json::json_level(reply) == Some(JsonView::Object(e)),
        json::json_level(value) == Some(JsonView::Text(found)),
    ensures
        json::lookup(e, "content"@) == Some(inner) && json::json_level(inner) == Some(
            JsonView::Array(parts),
        ) && parts.len() > 0 && json::json_level(parts[0]) == Some(JsonView::Object(part))
            && json::lookup(part, "text"@) == Some(value) ==> anthropic_text(reply) == Some(found),
        json::lookup(e, "message"@) == Some(inner) && json::json_level(inner) == Some(
            JsonView::Object(part),
        ) && json::lookup(part, "content"@) == Some(value) ==> ollama_text(reply) == Some(found),
{
}

/// The newer prompt is switched on by four words, in any case and with white
/// space around them, and by nothing else.
pub proof fn law_prompt_is_switched_on_by(value: Seq<char>)
    ensures
        !switched_on(None),
        switched_on(Some(value)) <==> seq!["1"@, "true"@, "on"@, "yes"@].contains(
            text::ascii_lowered(text::trimmed(value)),
        ),
{
    let words = seq!["1"@, "true"@, "on"@, "yes"@];
    let word = text::ascii_lowered(text::trimmed(value));
    assert(words[0] == "1"@ && words[1] == "true"@ && words[2] == "on"@ && words[3] == "yes"@);
    if words.contains(word) {
        let i = choose|i: int| 0 <= i < words.len() && words[i] == word;
        assert(i == 0 || i == 1 || i == 2 || i == 3);
    }
}

/// An array without strings ends where as many brackets are closed as were
/// opened, and not before.
pub proof fn law_array_ends_where_brackets_balance(s: Seq<char>, k: int)
    requires
        first_array(s) is Some,
        !(first_array(s)->0).contains('"'),
        0 < k <= (first_array(s)->0).len(),
    ensures
        ({
            let a = first_array(s)->0;
            let opened = a.take(k).filter(|c: char| c == '[').len();
            let closed = a.take(k).filter(|c: char| c == ']').len();
            if k == a.len() {
                opened == closed
            } else {
                opened > closed
            }
        }),
{
    let at = text::first_place(s, '[');
    let rest = s.skip(at);
    let n = choose|n: int| balances_at(rest, n);
    let a = rest.take(n);
    assert(balances_at(rest, n));
    assert forall|i: int| 0 <= i < n implies rest[i] != '"' by {
        if rest[i] == '"' {
            assert(a[i] == '"');
            assert(a.contains('"'));
        }
    }
    lemma_plain_depth(rest, k);
    assert(a.take(k) =~= rest.take(k));
    assert(scan_of(rest, k).depth >= 0);
}

proof fn lemma_plain_depth(s: Seq<char>, k: int)
    requires
        0 <= k <= s.len(),
        forall|i: int| 0 <= i < k ==> s[i] != '"',
    ensures
        !scan_of(s, k).in_string,
        scan_of(s, k).depth == s.take(k).filter(|c: char| c == '[').len() - s.take(k).filter(
            |c: char| c == ']',
        ).len(),
    decreases k,
{
    reveal(Seq::filter);
    if k > 0 {
        lemma_plain_depth(s, k - 1);
        assert(s.take(k).drop_last() =~= s.take(k - 1));
        assert(s.take(k).last() == s[k - 1]);
    }
}

/// Brackets inside a string do not count, and an escaped quote does not end one:
/// an array that holds one string, with an escaped quote between two parts free
/// of quotes and backslashes, is found whole.
pub proof fn law_brackets_in_strings_do_not_count(
    before: Seq<char>,
    one: Seq<char>,
    two: Seq<char>,
    behind: Seq<char>,
)
    requires
        !before.contains('['),
        !one.contains('"'),
        !one.contains('\\'),
        !two.contains('"'),
        !two.contains('\\'),
    ensures
        first_array(
            before + (seq!['[', '"'] + one + seq!['\\', '"'] + two + seq!['"', ']']) + behind,
        ) == Some(seq!['[', '"'] + one + seq!['\\', '"'] + two + seq!['"', ']']),
{
    let a = seq!['[', '"'] + one + seq!['\\', '"'] + two + seq!['"', ']'];
    let s = before + a + behind;
    let at = before.len() as int;
    let rest = s.skip(at);
    let n = a.len() as int;
    text::lemma_first_place(s, '[');
    let found = text::first_place(s, '[');
    assert(s[at] == a[0]);
    if found < at {
        assert(s[found] == before[found]);
        assert(before.contains('['));
    }
    assert(found == at);
    assert(rest.take(n) =~= a);
    let p = 2 + one.len() as int;
    let q = p + 2 + two.len() as int;
    assert forall|k: int| 0 <= k < n implies #[trigger] rest[k] == a[k] by {
        assert(rest[k] == rest.take(n)[k]);
    }
    assert(scan_of(rest, 0) == Scan { depth: 0, in_string: false, escape: false });
    assert(scan_of(rest, 1) == scanned(scan_of(rest, 0), rest[0]));
    assert(scan_of(rest, 2) == scanned(scan_of(rest, 1), rest[1]));
    assert forall|i: int| 2 <= i < p implies rest[i] != '"' && rest[i] != '\\' by {
        assert(rest[i] == a[i] && a[i] == one[i - 2]);
        if one[i - 2] == '"' {
            assert(one.contains('"'));
        }
        if one[i - 2] == '\\' {
            assert(one.contains('\\'));
        }
    }
    lemma_inside_string(rest, 2, p);
    assert(rest[p] == a[p] && a[p] == '\\');
    assert(rest[p + 1] == a[p + 1] && a[p + 1] == '"');
    assert(scan_of(rest, p + 1) == scanned(scan_of(rest, p), rest[p]));
    assert(scan_of(rest, p + 2) == scanned(scan_of(rest, p + 1), rest[p + 1]));
    assert forall|i: int| p + 2 <= i < q implies rest[i] != '"' && rest[i] != '\\' by {
        assert(rest[i] == a[i] && a[i] == two[i - p - 2]);
        if two[i - p - 2] == '"' {
            assert(two.contains('"'));
        }
        if two[i - p - 2] == '\\' {
            assert(two.contains('\\'));
        }
    }
    lemma_inside_string(rest, p + 2, q);
    assert(rest[q] == a[q] && a[q] == '"');
    assert(rest[q + 1] == a[q + 1] && a[q + 1] == ']');
    assert(scan_of(rest, q + 1) == scanned(scan_of(rest, q), rest[q]));
    assert(scan_of(rest, q + 2) == scanned(scan_of(rest, q + 1), rest[q + 1]));
    assert(n == q + 2);
    assert forall|k: int| 0 < k < n implies (#[trigger] scan_of(rest, k)).depth > 0 by {
        if 2 <= k <= p {
            lemma_inside_string(rest, 2, k);
        } else if p + 2 <= k <= q {
            lemma_inside_string(rest, p + 2, k);
        }
    }
    assert(balances_at(rest, n));
    let m = choose|m: int| balances_at(rest, m);
    if m < n {
        assert(scan_of(rest, m).depth > 0);
    } else if n < m {
        assert(scan_of(rest, n).depth > 0);
    }
}

proof fn lemma_inside_string(s: Seq<char>, from: int, to: int)
    requires
        0 <= from <= to <= s.len(),
        scan_of(s, from) == (Scan { depth: 1, in_string: true, escape: false }),
        forall|i: int| from <= i < to ==> s[i] != '"' && s[i] != '\\',
    ensures
        scan_of(s, to) == (Scan { depth: 1, in_string: true, escape: false }),
    decreases to - from,
{
    if from < to {
        lemma_inside_string(s, from, to - 1);
        assert(scan_of(s, to) == scanned(scan_of(s, to - 1), s[to - 1]));
    }
}

/// A reply is read by its first array, also where that stands in a code block.
pub proof fn law_reply_is_read_by_its_first_array(
    content: Seq<char>,
    array: Seq<char>,
    items: Seq<Seq<char>>,
)
    requires
        first_array(text::trimmed(content)) == Some(array),
        json::json_level(array) == Some(JsonView::Array(items)),
        !text::starts(text::trimmed(content), "```"@),
    ensures
        reply_triples(content) == triples_of(items),
        reply_triples("```json"@ + content + "```"@) == triples_of(items),
{
    text::law_fences_are_taken_off(content);
}

/// A model is asked with one message: the prompt, as the user's.
pub proof fn law_prompt_is_the_users(prompt: Seq<char>)
    ensures
        exists|e: Seq<(Seq<char>, Seq<char>)>|
            {
                &&& user_message(prompt) == json::json_array(seq![#[trigger] json::json_object(e)])
                &&& json::lookup(e, "content"@) == Some(json::json_string(prompt))
                &&& json::lookup(e, "role"@) == Some(json::json_string("user"@))
            },
{
    reveal_strlit("content");
    reveal_strlit("role");
    assert("content"@.len() == 7 && "role"@.len() == 4);
    let e = seq![
        ("content"@, json::json_string(prompt)),
        ("role"@, json::json_string("user"@)),
    ];
    json::law_last_entry_counts(e, "content"@, 0);
    json::law_last_entry_counts(e, "role"@, 1);
    assert(user_message(prompt) == json::json_array(seq![json::json_object(e)]));
}

} // verus!
