//! Grounding of relative time phrases: "yesterday" becomes
//! "yesterday (2024-03-14)", so that a text carries its own dates.

use crate::temporal_dim;
use crate::temporal_dim::parse_dimension_time;
use crate::text;
use crate::text::chars_of;
use crate::time;
use crate::time::{TimeRange, Timestamp};
use vstd::prelude::*;
use vstd::string::*;

verus! {

/// The relative time phrases that are looked for: a day by name, a week, month
/// or year next to the reference, and a number of days or weeks ago. Longer
/// spans are not among them, as the time grammar does not resolve them.
pub const PHRASE_PATTERN: &'static str = r"(?ix)
            \b(
                yesterday
              | today
              | tomorrow
              | (?:last|this|next)\s+(?:week|month|year)
              | \d+\s+(?:days?|weeks?)\s+ago
            )\b
            ";

/// What grounding reads and rewrites of an extracted fact.
#[derive(Clone, Debug, PartialEq, Eq)]
pub struct ExtractedFact {
    /// The fact itself.
    pub core_fact: String,
    /// When it holds.
    pub temporal: Option<String>,
    /// The situation it stands in.
    pub context: Option<String>,
}

impl Default for ExtractedFact {
    fn default() -> (r: Self)
        ensures
            r.core_fact@ == Seq::<char>::empty(),
            r.temporal is None,
            r.context is None,
    {
        ExtractedFact { core_fact: String::new(), temporal: None, context: None }
    }
}

/// Outcome of grounding one fact.
#[derive(Clone, Debug, PartialEq, Eq)]
pub struct GroundingResult {
    /// Whether a phrase was rewritten in any text of the fact.
    pub modified: bool,
    /// The core fact before it was rewritten, where it was.
    pub original_core_fact: Option<String>,
}

impl Default for GroundingResult {
    fn default() -> (r: Self)
        ensures
            !r.modified,
            r.original_core_fact is None,
    {
        GroundingResult { modified: false, original_core_fact: None }
    }
}

// ---------------------------------------------------------------------------
// Places of phrases
// ---------------------------------------------------------------------------

/// Where a pattern matches in a text: the byte offsets of the successive
/// matches.
pub uninterp spec fn pattern_spans(pattern: Seq<char>, text: Seq<char>) -> Seq<(usize, usize)>;

/// Whether `k` characters of a text take up `offset` bytes.
pub open spec fn boundary(s: Seq<char>, k: int, offset: int) -> bool {
    0 <= k <= s.len() && text::byte_len(s.take(k)) == offset
}

/// Whether byte offsets stand between characters, in order and without
/// overlap.
pub open spec fn spans_fit(spans: Seq<(usize, usize)>, s: Seq<char>) -> bool {
    &&& forall|i: int| 0 <= i < spans.len() ==> (#[trigger] spans[i]).0 <= spans[i].1
    &&& forall|i: int, j: int|
        0 <= i < j < spans.len() ==> (#[trigger] spans[i]).1 <= (#[trigger] spans[j]).0
    &&& forall|i: int|
        0 <= i < spans.len() ==> exists|k: int| boundary(s, k, (#[trigger] spans[i]).0 as int)
    &&& forall|i: int|
        0 <= i < spans.len() ==> exists|k: int| boundary(s, k, (#[trigger] spans[i]).1 as int)
}

/// `regex::Regex::new` and `Regex::find_iter`: the byte offsets of the
/// successive matches, which do not overlap and stand between characters.
#[verifier::external_body]
fn find_spans(pattern: &str, text: &str) -> (r: Vec<(usize, usize)>)
    requires
        pattern@ == PHRASE_PATTERN@,
    ensures
        r@ == pattern_spans(pattern@, text@),
        spans_fit(r@, text@),
{
    let re = regex::Regex::new(pattern).unwrap();
    re.find_iter(text).map(|m| (m.start(), m.end())).collect()
}

proof fn lemma_encode_concat(a: Seq<char>, b: Seq<char>)
    ensures
        text::byte_len(a + b) == text::byte_len(a) + text::byte_len(b),
    decreases a.len(),
{
    if a.len() == 0 {
        assert(a + b =~= b);
    } else {
        assert((a + b).drop_first() =~= a.drop_first() + b);
        lemma_encode_concat(a.drop_first(), b);
    }
}

/// How many bytes a character takes up.
pub open spec fn width(c: char) -> nat {
    text::byte_len(seq![c])
}

fn char_width(c: char) -> (r: usize)
    ensures
        r == width(c),
        r >= 1,
{
    proof {
        assert(seq![c].drop_first() =~= Seq::<char>::empty());
        reveal_with_fuel(vstd::utf8::encode_utf8, 2);
        vstd::utf8::char_is_scalar(c);
    }
    let n: u32 = c as u32;
    if n <= 0x7f {
        1
    } else if n <= 0x7ff {
        2
    } else if n <= 0xffff {
        3
    } else {
        4
    }
}

proof fn lemma_boundary_step(s: Seq<char>, k: int)
    requires
        0 <= k < s.len(),
    ensures
        text::byte_len(s.take(k + 1)) == text::byte_len(s.take(k)) + width(s[k]),
{
    assert(s.take(k + 1) =~= s.take(k) + seq![s[k]]);
    lemma_encode_concat(s.take(k), seq![s[k]]);
}

proof fn lemma_width(c: char)
    ensures
        width(c) >= 1,
{
    assert(seq![c].drop_first() =~= Seq::<char>::empty());
    reveal_with_fuel(vstd::utf8::encode_utf8, 2);
    vstd::utf8::char_is_scalar(c);
}

proof fn lemma_boundaries_grow(s: Seq<char>, a: int, b: int)
    requires
        0 <= a <= b <= s.len(),
    ensures
        text::byte_len(s.take(a)) <= text::byte_len(s.take(b)),
        a < b ==> text::byte_len(s.take(a)) < text::byte_len(s.take(b)),
    decreases b - a,
{
    if a < b {
        lemma_boundaries_grow(s, a, b - 1);
        lemma_boundary_step(s, b - 1);
        lemma_width(s[b - 1]);
    }
}

/// How many characters of a text stand before a byte offset.
pub open spec fn place(s: Seq<char>, offset: int) -> int {
    choose|k: int| boundary(s, k, offset)
}

fn char_place(s: &Vec<char>, offset: usize) -> (r: usize)
    requires
        exists|k: int| boundary(s@, k, offset as int),
    ensures
        r == place(s@, offset as int),
        boundary(s@, r as int, offset as int),
{
    let ghost target = place(s@, offset as int);
    let size: usize = s.len();
    let mut k: usize = 0;
    let mut bytes: usize = 0;
    proof {
        assert(s@.take(0) =~= Seq::<char>::empty());
    }
    while bytes < offset
        invariant
            size == s@.len(),
            boundary(s@, target, offset as int),
            k <= target,
            boundary(s@, k as int, bytes as int),
            bytes <= offset,
        decreases offset - bytes,
    {
        proof {
            if k == target {
                assert(false);
            }
            lemma_boundary_step(s@, k as int);
            lemma_boundaries_grow(s@, k + 1, target);
        }
        bytes = bytes + char_width(s[k]);
        k += 1;
    }
    proof {
        if k < target {
            lemma_boundaries_grow(s@, k as int, target);
        }
    }
    k
}

/// Where a pattern matches in a text, in characters.
pub open spec fn char_spans(s: Seq<char>, spans: Seq<(usize, usize)>) -> Seq<(int, int)> {
    spans.map_values(|p: (usize, usize)| (place(s, p.0 as int), place(s, p.1 as int)))
}

/// Whether spans lie within a text of a given length, in order and without
/// overlap.
pub open spec fn spans_ordered(spans: Seq<(int, int)>, len: int) -> bool {
    &&& forall|i: int|
        0 <= i < spans.len() ==> 0 <= (#[trigger] spans[i]).0 <= spans[i].1 <= len
    &&& forall|i: int, j: int|
        0 <= i < j < spans.len() ==> (#[trigger] spans[i]).1 <= (#[trigger] spans[j]).0
}

proof fn lemma_places_ordered(s: Seq<char>, a: int, b: int)
    requires
        a <= b,
        exists|k: int| boundary(s, k, a),
        exists|k: int| boundary(s, k, b),
    ensures
        0 <= place(s, a) <= place(s, b) <= s.len(),
{
    assert(boundary(s, place(s, a), a));
    assert(boundary(s, place(s, b), b));
    if place(s, b) < place(s, a) {
        lemma_boundaries_grow(s, place(s, b), place(s, a));
    }
}

proof fn lemma_spans_ordered(s: Seq<char>, spans: Seq<(usize, usize)>)
    requires
        spans_fit(spans, s),
    ensures
        spans_ordered(char_spans(s, spans), s.len() as int),
{
    let out = char_spans(s, spans);
    assert forall|i: int| 0 <= i < out.len() implies 0 <= (#[trigger] out[i]).0 <= out[i].1
        <= s.len() by {
        lemma_places_ordered(s, spans[i].0 as int, spans[i].1 as int);
    }
    assert forall|i: int, j: int| 0 <= i < j < out.len() implies (#[trigger] out[i]).1 <= (
    #[trigger] out[j]).0 by {
        lemma_places_ordered(s, spans[i].1 as int, spans[j].0 as int);
    }
}

/// The spans of a list, as numbers.
pub open spec fn span_ints(v: Seq<(usize, usize)>) -> Seq<(int, int)> {
    v.map_values(|p: (usize, usize)| (p.0 as int, p.1 as int))
}

/// Where the relative time phrases of a text stand, in characters.
pub open spec fn phrase_places(s: Seq<char>) -> Seq<(int, int)> {
    char_spans(s, pattern_spans(PHRASE_PATTERN@, s))
}

/// Finds the relative time phrases of a text: for each the position of its
/// first character and the position after its last.
pub fn find_phrases(s: &str) -> (r: Vec<(usize, usize)>)
    ensures
        span_ints(r@) == phrase_places(s@),
        spans_ordered(span_ints(r@), s@.len() as int),
{
    let sc: Vec<char> = chars_of(s);
    let spans: Vec<(usize, usize)> = find_spans(PHRASE_PATTERN, s);
    let ghost places = phrase_places(s@);
    let mut out: Vec<(usize, usize)> = Vec::new();
    let mut i: usize = 0;
    assert(span_ints(out@) =~= places.take(0));
    while i < spans.len()
        invariant
            i <= spans@.len(),
            sc@ == s@,
            spans_fit(spans@, s@),
            places == char_spans(s@, spans@),
            span_ints(out@) == places.take(i as int),
        decreases spans.len() - i,
    {
        let (from, to) = spans[i];
        let first: usize = char_place(&sc, from);
        let end: usize = char_place(&sc, to);
        let ghost before = out@;
        out.push((first, end));
        assert(span_ints(out@) =~= span_ints(before).push((first as int, end as int)));
        assert(places.take(i + 1) =~= places.take(i as int).push(places[i as int]));
        i += 1;
    }
    assert(places.take(i as int) =~= places);
    proof {
        lemma_spans_ordered(s@, spans@);
    }
    out
}

// ---------------------------------------------------------------------------
// Rewriting
// ---------------------------------------------------------------------------

/// Whether `n` decimal digits stand in `s` from position `at`.
pub open spec fn digits_at(s: Seq<char>, n: int, at: int) -> bool {
    &&& 0 <= at
    &&& at + n <= s.len()
    &&& forall|k: int| at <= k < at + n ==> '0' <= #[trigger] s[k] <= '9'
}

/// Whether a text begins with an annotation of the form ` (YYYY-MM-DD)`.
pub open spec fn annotated(tail: Seq<char>) -> bool {
    &&& tail.len() >= 13
    &&& tail[0] == ' '
    &&& tail[1] == '('
    &&& digits_at(tail, 4, 2)
    &&& tail[6] == '-'
    &&& digits_at(tail, 2, 7)
    &&& tail[9] == '-'
    &&& digits_at(tail, 2, 10)
    &&& tail[12] == ')'
}

fn is_digit(c: char) -> (r: bool)
    ensures
        r == ('0' <= c <= '9'),
{
    '0' <= c && c <= '9'
}

/// Whether the characters from a position on begin with an annotation.
fn already_annotated(s: &Vec<char>, at: usize) -> (r: bool)
    requires
        at <= s@.len(),
    ensures
        r == annotated(s@.skip(at as int)),
{
    let ghost tail = s@.skip(at as int);
    if s.len() - at < 13 {
        return false;
    }
    assert(forall|k: int| 0 <= k < 13 ==> #[trigger] tail[k] == s@[at + k]);
    let r: bool = s[at] == ' ' && s[at + 1] == '(' && is_digit(s[at + 2]) && is_digit(s[at + 3])
        && is_digit(s[at + 4]) && is_digit(s[at + 5]) && s[at + 6] == '-' && is_digit(s[at + 7])
        && is_digit(s[at + 8]) && s[at + 9] == '-' && is_digit(s[at + 10]) && is_digit(s[at + 11])
        && s[at + 12] == ')';
    proof {
        if annotated(tail) {
            assert('0' <= tail[2] <= '9' && '0' <= tail[3] <= '9' && '0' <= tail[4] <= '9'
                && '0' <= tail[5] <= '9');
            assert('0' <= tail[7] <= '9' && '0' <= tail[8] <= '9');
            assert('0' <= tail[10] <= '9' && '0' <= tail[11] <= '9');
        }
    }
    r
}

/// A phrase with the day on which its range starts.
pub open spec fn with_date(phrase: Seq<char>, range: TimeRange) -> Seq<char> {
    phrase + " ("@ + time::date_of(range.start.day_number()).text() + ")"@
}

/// What an occurrence of a phrase becomes, unless it stays: it stays where it
/// carries its date already, and where it cannot be resolved.
pub open spec fn rewrite(s: Seq<char>, span: (int, int), reference: Timestamp) -> Option<Seq<char>> {
    let phrase = s.subrange(span.0, span.1);
    if annotated(s.skip(span.1)) {
        None
    } else {
        match temporal_dim::dimension_time(phrase, reference) {
            Some(range) => Some(with_date(phrase, range)),
            None => None,
        }
    }
}

/// An occurrence after grounding.
pub open spec fn shown(s: Seq<char>, span: (int, int), reference: Timestamp) -> Seq<char> {
    match rewrite(s, span, reference) {
        Some(new) => new,
        None => s.subrange(span.0, span.1),
    }
}

/// Where the last of some spans ends.
pub open spec fn end_of(spans: Seq<(int, int)>) -> int {
    if spans.len() == 0 {
        0
    } else {
        spans.last().1
    }
}

/// The beginning of a text up to the end of the last span, with each span as
/// grounding shows it.
pub open spec fn grounded_start(
    s: Seq<char>,
    spans: Seq<(int, int)>,
    reference: Timestamp,
) -> Seq<char>
    decreases spans.len(),
{
    if spans.len() == 0 {
        Seq::empty()
    } else {
        grounded_start(s, spans.drop_last(), reference) + s.subrange(
            end_of(spans.drop_last()),
            spans.last().0,
        ) + shown(s, spans.last(), reference)
    }
}

/// A text with each span as grounding shows it, and everything else kept.
pub open spec fn grounded_at(
    s: Seq<char>,
    spans: Seq<(int, int)>,
    reference: Timestamp,
) -> Seq<char> {
    grounded_start(s, spans, reference) + s.skip(end_of(spans))
}

/// Whether grounding rewrites one of the spans.
pub open spec fn rewrites_any(
    s: Seq<char>,
    spans: Seq<(int, int)>,
    reference: Timestamp,
) -> bool {
    exists|i: int|
        0 <= i < spans.len() && rewrite(s, #[trigger] spans[i], reference) is Some
}

/// A text after grounding.
pub open spec fn grounded(s: Seq<char>, reference: Timestamp) -> Seq<char> {
    grounded_at(s, phrase_places(s), reference)
}

/// Whether grounding changes a text.
pub open spec fn groundable(s: Seq<char>, reference: Timestamp) -> bool {
    rewrites_any(s, phrase_places(s), reference)
}

fn push_chars(out: &mut String, s: &Vec<char>, from: usize, to: usize)
    requires
        from <= to <= s@.len(),
    ensures
        final(out)@ == old(out)@ + s@.subrange(from as int, to as int),
{
    let ghost before = out@;
    let mut i: usize = from;
    assert(out@ =~= before + s@.subrange(from as int, from as int));
    while i < to
        invariant
            from <= i <= to <= s@.len(),
            out@ == before + s@.subrange(from as int, i as int),
        decreases to - i,
    {
        out.push(s[i]);
        assert(s@.subrange(from as int, i + 1) =~= s@.subrange(from as int, i as int).push(
            s@[i as int],
        ));
        assert(out@ =~= before + s@.subrange(from as int, i + 1));
        i += 1;
    }
}

fn ground_span(
    out: &mut String,
    sc: &Vec<char>,
    first: usize,
    end: usize,
    reference: Timestamp,
) -> (r: bool)
    requires
        first <= end <= sc@.len(),
    ensures
        r == (rewrite(sc@, (first as int, end as int), reference) is Some),
        final(out)@ == old(out)@ + shown(sc@, (first as int, end as int), reference),
{
    let ghost before = out@;
    let ghost phrase_text = sc@.subrange(first as int, end as int);
    push_chars(out, sc, first, end);
    if already_annotated(sc, end) {
        return false;
    }
    let mut phrase: String = String::new();
    push_chars(&mut phrase, sc, first, end);
    assert(phrase@ =~= phrase_text);
    match parse_dimension_time(phrase.as_str(), reference) {
        Some(range) => {
            let date: String = range.start.date().as_text();
            out.append(" (");
            out.append(date.as_str());
            out.append(")");
            assert(out@ =~= before + with_date(phrase_text, range));
            true
        },
        None => false,
    }
}

proof fn lemma_rewrites_push(s: Seq<char>, spans: Seq<(int, int)>, reference: Timestamp)
    requires
        spans.len() > 0,
    ensures
        rewrites_any(s, spans, reference) <==> rewrites_any(s, spans.drop_last(), reference)
            || rewrite(s, spans.last(), reference) is Some,
{
    let rest = spans.drop_last();
    if rewrites_any(s, spans, reference) {
        let k = choose|k: int|
            0 <= k < spans.len() && rewrite(s, #[trigger] spans[k], reference) is Some;
        if k < rest.len() {
            assert(rest[k] == spans[k]);
        }
    }
    if rewrites_any(s, rest, reference) {
        let k = choose|k: int|
            0 <= k < rest.len() && rewrite(s, #[trigger] rest[k], reference) is Some;
        assert(rest[k] == spans[k]);
    }
    if rewrite(s, spans.last(), reference) is Some {
        assert(rewrite(s, spans[spans.len() - 1], reference) is Some);
    }
}

/// Rewrites the given occurrences of phrases in a text, and tells whether one
/// was rewritten.
pub fn ground_spans(s: &str, spans: &Vec<(usize, usize)>, reference: Timestamp) -> (r: (
    String,
    bool,
))
    requires
        spans_ordered(span_ints(spans@), s@.len() as int),
    ensures
        r.0@ == grounded_at(s@, span_ints(spans@), reference),
        r.1 == rewrites_any(s@, span_ints(spans@), reference),
{
    let sc: Vec<char> = chars_of(s);
    let ghost all = span_ints(spans@);
    let mut out: String = String::new();
    let mut changed: bool = false;
    let mut last: usize = 0;
    let mut i: usize = 0;
    assert(out@ =~= Seq::<char>::empty());
    while i < spans.len()
        invariant
            i <= spans@.len(),
            sc@ == s@,
            all == span_ints(spans@),
            spans_ordered(all, s@.len() as int),
            last == end_of(all.take(i as int)),
            last <= s@.len(),
            out@ == grounded_start(s@, all.take(i as int), reference),
            changed == rewrites_any(s@, all.take(i as int), reference),
        decreases spans.len() - i,
    {
        let (first, end) = spans[i];
        let ghost span = (first as int, end as int);
        let ghost done = all.take(i as int);
        let ghost next = all.take(i + 1);
        proof {
            assert(all[i as int] == span);
            assert(next.drop_last() =~= done);
            assert(next.last() == span);
            if i > 0 {
                assert(done.last() == all[i - 1]);
            }
        }
        push_chars(&mut out, &sc, last, first);
        let new: bool = ground_span(&mut out, &sc, first, end, reference);
        proof {
            lemma_rewrites_push(s@, next, reference);
            assert(out@ == grounded_start(s@, next, reference));
        }
        changed = changed || new;
        last = end;
        i += 1;
    }
    assert(all.take(i as int) =~= all);
    let ghost so_far = out@;
    push_chars(&mut out, &sc, last, sc.len());
    assert(s@.subrange(last as int, s@.len() as int) =~= s@.skip(last as int));
    (out, changed)
}

/// Grounds one text in place, and tells whether it was changed.
pub fn ground_field(field: &mut String, reference: Timestamp) -> (r: bool)
    ensures
        r == groundable(old(field)@, reference),
        final(field)@ == grounded(old(field)@, reference),
        !r ==> final(field)@ == old(field)@,
{
    let spans: Vec<(usize, usize)> = find_phrases(field.as_str());
    let (new, changed) = ground_spans(field.as_str(), &spans, reference);
    proof {
        if !changed {
            lemma_unchanged(field@, phrase_places(field@), reference);
        }
    }
    if changed {
        *field = new;
    }
    changed
}

proof fn lemma_unchanged(s: Seq<char>, spans: Seq<(int, int)>, reference: Timestamp)
    requires
        spans_ordered(spans, s.len() as int),
        !rewrites_any(s, spans, reference),
    ensures
        end_of(spans) >= 0,
        grounded_start(s, spans, reference) == s.take(end_of(spans)),
        grounded_at(s, spans, reference) == s,
    decreases spans.len(),
{
    if spans.len() == 0 {
        assert(s.take(0) =~= Seq::<char>::empty());
        assert(Seq::<char>::empty() + s.skip(0) =~= s);
    } else {
        let rest = spans.drop_last();
        let span = spans.last();
        lemma_rewrites_push(s, spans, reference);
        assert(spans_ordered(rest, s.len() as int) && end_of(rest) <= span.0 <= span.1
            <= s.len()) by {
            assert(span == spans[spans.len() - 1]);
            assert forall|i: int| 0 <= i < rest.len() implies rest[i] == spans[i] by {}
            if rest.len() > 0 {
                assert(rest.last() == spans[spans.len() - 2]);
            }
        }
        lemma_unchanged(s, rest, reference);
        lemma_rejoin(s, end_of(rest), span.0, span.1);
    }
}

proof fn lemma_rejoin(s: Seq<char>, a: int, b: int, c: int)
    requires
        0 <= a <= b <= c <= s.len(),
    ensures
        s.take(a) + s.subrange(a, b) + s.subrange(b, c) == s.take(c),
        s.take(c) + s.skip(c) == s,
{
    assert(s.take(a) + s.subrange(a, b) + s.subrange(b, c) =~= s.take(c));
    assert(s.take(c) + s.skip(c) =~= s);
}

/// Whether grounding changes a text that may be absent.
pub open spec fn optional_groundable(s: Option<String>, reference: Timestamp) -> bool {
    match s {
        Some(t) => groundable(t@, reference),
        None => false,
    }
}

/// A text that may be absent, after grounding.
pub open spec fn optional_grounded(s: Option<String>, reference: Timestamp) -> Option<Seq<char>> {
    match s {
        Some(t) => Some(grounded(t@, reference)),
        None => None,
    }
}

fn ground_optional(field: &mut Option<String>, reference: Timestamp) -> (r: bool)
    ensures
        r == optional_groundable(*old(field), reference),
        text::opt_view(*final(field)) == optional_grounded(*old(field), reference),
{
    match field.take() {
        Some(t) => {
            let mut t: String = t;
            let changed: bool = ground_field(&mut t, reference);
            *field = Some(t);
            changed
        },
        None => false,
    }
}

/// Rewrites the resolved time phrases in the texts of a fact, against a
/// reference. Of the core fact the text before the change is handed back; the
/// other two are replaced for good.
pub fn ground_fact(fact: &mut ExtractedFact, reference: Timestamp) -> (r: GroundingResult)
    ensures
        final(fact).core_fact@ == grounded(old(fact).core_fact@, reference),
        text::opt_view(final(fact).temporal) == optional_grounded(old(fact).temporal, reference),
        text::opt_view(final(fact).context) == optional_grounded(old(fact).context, reference),
        r.modified == (groundable(old(fact).core_fact@, reference) || optional_groundable(
            old(fact).temporal,
            reference,
        ) || optional_groundable(old(fact).context, reference)),
        text::opt_view(r.original_core_fact) == if groundable(old(fact).core_fact@, reference) {
            Some(old(fact).core_fact@)
        } else {
            None
        },
{
    let original: String = fact.core_fact.clone();
    let core_changed: bool = ground_field(&mut fact.core_fact, reference);
    let temporal_changed: bool = ground_optional(&mut fact.temporal, reference);
    let context_changed: bool = ground_optional(&mut fact.context, reference);
    GroundingResult {
        modified: core_changed || temporal_changed || context_changed,
        original_core_fact: if core_changed {
            Some(original)
        } else {
            None
        },
    }
}

// ---------------------------------------------------------------------------
// Laws
// ---------------------------------------------------------------------------

/// The date that grounding adds is one that grounding recognises, in the years
/// that four digits can write.
pub proof fn law_annotation_is_recognised(date: time::Date, rest: Seq<char>)
    requires
        date.valid(),
        0 <= date.year <= 9999,
    ensures
        annotated(" ("@ + date.text() + ")"@ + rest),
{
    reveal_strlit(" (");
    reveal_strlit(")");
    let body = date.text();
    assert(body.len() == 10);
    let tail = " ("@ + body + ")"@ + rest;
    assert forall|k: int| 0 <= k < 10 implies #[trigger] tail[k + 2] == body[k] by {}
    lemma_digits(date.year as nat / 100);
    lemma_digits(date.year as nat);
    lemma_digits(date.month as nat);
    lemma_digits(date.day as nat);
    assert(body[0] == time::two_digits(date.year as nat / 100)[0]);
    assert(body[1] == time::two_digits(date.year as nat / 100)[1]);
    assert(body[2] == time::two_digits(date.year as nat)[0]);
    assert(body[3] == time::two_digits(date.year as nat)[1]);
    assert(body[4] == '-');
    assert(body[5] == time::two_digits(date.month as nat)[0]);
    assert(body[6] == time::two_digits(date.month as nat)[1]);
    assert(body[7] == '-');
    assert(body[8] == time::two_digits(date.day as nat)[0]);
    assert(body[9] == time::two_digits(date.day as nat)[1]);
    assert(tail[2] == body[0] && tail[3] == body[1] && tail[4] == body[2] && tail[5] == body[3]);
    assert(tail[6] == body[4] && tail[7] == body[5] && tail[8] == body[6] && tail[9] == body[7]);
    assert(tail[10] == body[8] && tail[11] == body[9]);
}

proof fn lemma_digits(n: nat)
    ensures
        '0' <= time::two_digits(n)[0] <= '9',
        '0' <= time::two_digits(n)[1] <= '9',
{
}

/// An occurrence that was rewritten is not rewritten again, whatever stands
/// around it and whatever the reference.
pub proof fn law_rewritten_once(
    before: Seq<char>,
    phrase: Seq<char>,
    range: TimeRange,
    after: Seq<char>,
    reference: Timestamp,
)
    requires
        time::date_of(range.start.day_number()).valid(),
        0 <= time::date_of(range.start.day_number()).year <= 9999,
    ensures
        rewrite(
            before + with_date(phrase, range) + after,
            (before.len() as int, (before.len() + phrase.len()) as int),
            reference,
        ) is None,
{
    let date = time::date_of(range.start.day_number());
    law_annotation_is_recognised(date, after);
    let s = before + with_date(phrase, range) + after;
    assert(s.skip((before.len() + phrase.len()) as int) =~= " ("@ + date.text() + ")"@ + after);
}

/// Grounding keeps each phrase and only adds to it.
pub proof fn law_phrase_is_kept(s: Seq<char>, span: (int, int), reference: Timestamp)
    requires
        0 <= span.0 <= span.1 <= s.len(),
    ensures
        text::starts(shown(s, span, reference), s.subrange(span.0, span.1)),
{
    let phrase = s.subrange(span.0, span.1);
    assert(phrase.take(phrase.len() as int) =~= phrase);
    if let Some(range) = temporal_dim::dimension_time(phrase, reference) {
        assert(with_date(phrase, range).take(phrase.len() as int) =~= phrase);
    }
}

/// A text in which no occurrence is rewritten stays as it is.
pub proof fn law_untouched_text_is_kept(s: Seq<char>, spans: Seq<(int, int)>, reference: Timestamp)
    requires
        spans_ordered(spans, s.len() as int),
        !rewrites_any(s, spans, reference),
    ensures
        grounded_at(s, spans, reference) == s,
{
    lemma_unchanged(s, spans, reference);
}

/// Where the spans stand once each of them is as grounding shows it: a span is
/// moved by what was added before it.
pub open spec fn moved(
    s: Seq<char>,
    spans: Seq<(int, int)>,
    reference: Timestamp,
) -> Seq<(int, int)>
    decreases spans.len(),
{
    if spans.len() == 0 {
        Seq::empty()
    } else {
        let rest = spans.drop_last();
        let at = grounded_start(s, rest, reference).len() + spans.last().0 - end_of(rest);
        moved(s, rest, reference).push((at, at + spans.last().1 - spans.last().0))
    }
}

/// Whether no span begins within the date that another one carries.
pub open spec fn dates_stand_apart(s: Seq<char>, spans: Seq<(int, int)>) -> bool {
    forall|i: int, j: int|
        0 <= i < j < spans.len() && annotated(s.skip((#[trigger] spans[i]).1)) ==> spans[i].1 + 13
            <= (#[trigger] spans[j]).0
}

/// Whether the days that grounding adds lie in the years that four digits can
/// write.
pub open spec fn years_fit(s: Seq<char>, spans: Seq<(int, int)>, reference: Timestamp) -> bool {
    forall|i: int|
        0 <= i < spans.len() ==> match temporal_dim::dimension_time(
            s.subrange((#[trigger] spans[i]).0, spans[i].1),
            reference,
        ) {
            Some(range) => {
                let date = time::date_of(range.start.day_number());
                date.valid() && 0 <= date.year <= 9999
            },
            None => true,
        }
}

proof fn lemma_ordered_prefix(spans: Seq<(int, int)>, len: int)
    requires
        spans.len() > 0,
        spans_ordered(spans, len),
    ensures
        spans_ordered(spans.drop_last(), len),
        0 <= end_of(spans.drop_last()) <= spans.last().0 <= spans.last().1 <= len,
{
    let rest = spans.drop_last();
    assert(spans.last() == spans[spans.len() - 1]);
    assert forall|i: int| 0 <= i < rest.len() implies rest[i] == spans[i] by {}
    if rest.len() > 0 {
        assert(rest.last() == spans[spans.len() - 2]);
    }
}

/// The beginning of a grounded text around one of its spans: what stands before
/// it, the span as grounding shows it, and what stands behind it, which begins
/// with the text up to the next span.
proof fn lemma_around(
    s: Seq<char>,
    spans: Seq<(int, int)>,
    reference: Timestamp,
    i: int,
) -> (r: (Seq<char>, Seq<char>))
    requires
        spans_ordered(spans, s.len() as int),
        0 <= i < spans.len(),
    ensures
        moved(s, spans, reference).len() == spans.len(),
        moved(s, spans, reference)[i] == (
            r.0.len() as int,
            r.0.len() + spans[i].1 - spans[i].0,
        ),
        grounded_start(s, spans, reference) == r.0 + shown(s, spans[i], reference) + r.1,
        i == spans.len() - 1 ==> r.1.len() == 0,
        i < spans.len() - 1 ==> text::starts(r.1, s.subrange(spans[i].1, spans[i + 1].0)),
    decreases spans.len(),
{
    let rest = spans.drop_last();
    let last = spans.last();
    lemma_ordered_prefix(spans, s.len() as int);
    lemma_moved_len(s, rest, reference);
    let gap = s.subrange(end_of(rest), last.0);
    if i == spans.len() - 1 {
        let before = grounded_start(s, rest, reference) + gap;
        assert(grounded_start(s, spans, reference) =~= before + shown(s, last, reference)
            + Seq::<char>::empty());
        (before, Seq::empty())
    } else {
        let (before, between) = lemma_around(s, rest, reference, i);
        let after = between + gap + shown(s, last, reference);
        assert(rest[i] == spans[i]);
        assert(grounded_start(s, spans, reference) =~= before + shown(s, spans[i], reference)
            + after);
        assert(moved(s, spans, reference)[i] == moved(s, rest, reference)[i]);
        let next = s.subrange(spans[i].1, spans[i + 1].0);
        if i == rest.len() - 1 {
            assert(end_of(rest) == spans[i].1);
            assert(after.take(next.len() as int) =~= next);
        } else {
            assert(rest[i + 1] == spans[i + 1]);
            assert(after.take(next.len() as int) =~= between.take(next.len() as int));
        }
        (before, after)
    }
}

proof fn lemma_moved_len(s: Seq<char>, spans: Seq<(int, int)>, reference: Timestamp)
    ensures
        moved(s, spans, reference).len() == spans.len(),
    decreases spans.len(),
{
    if spans.len() > 0 {
        lemma_moved_len(s, spans.drop_last(), reference);
    }
}

proof fn lemma_moved_ordered(s: Seq<char>, spans: Seq<(int, int)>, reference: Timestamp)
    requires
        spans_ordered(spans, s.len() as int),
    ensures
        spans_ordered(
            moved(s, spans, reference),
            grounded_start(s, spans, reference).len() as int,
        ),
    decreases spans.len(),
{
    if spans.len() > 0 {
        let rest = spans.drop_last();
        let last = spans.last();
        lemma_ordered_prefix(spans, s.len() as int);
        lemma_moved_ordered(s, rest, reference);
        lemma_moved_len(s, rest, reference);
        law_phrase_is_kept(s, last, reference);
        let a = moved(s, rest, reference);
        let b = moved(s, spans, reference);
        let size = grounded_start(s, spans, reference).len();
        assert forall|i: int| 0 <= i < b.len() implies 0 <= (#[trigger] b[i]).0 <= b[i].1
            <= size by {
            if i < a.len() {
                assert(b[i] == a[i]);
            }
        }
        assert forall|i: int, j: int| 0 <= i < j < b.len() implies (#[trigger] b[i]).1 <= (
        #[trigger] b[j]).0 by {
            assert(b[i] == a[i]);
            if j < a.len() {
                assert(b[j] == a[j]);
            }
        }
    }
}

/// No span of a grounded text is rewritten again, as long as the spans are those
/// of the text before, moved by what was added.
proof fn lemma_settled(s: Seq<char>, spans: Seq<(int, int)>, reference: Timestamp, i: int)
    requires
        spans_ordered(spans, s.len() as int),
        dates_stand_apart(s, spans),
        years_fit(s, spans, reference),
        0 <= i < spans.len(),
    ensures
        rewrite(
            grounded_at(s, spans, reference),
            moved(s, spans, reference)[i],
            reference,
        ) is None,
{
    let g = grounded_at(s, spans, reference);
    let (before, between) = lemma_around(s, spans, reference, i);
    let after = between + s.skip(end_of(spans));
    let span = spans[i];
    let phrase = s.subrange(span.0, span.1);
    assert(0 <= span.0 <= span.1 <= s.len());
    let at = moved(s, spans, reference)[i];
    assert(g =~= before + shown(s, span, reference) + after);
    law_phrase_is_kept(s, span, reference);
    assert(g.subrange(at.0, at.1) =~= phrase) by {
        let kept = shown(s, span, reference);
        assert(kept.take(phrase.len() as int) =~= phrase);
        assert forall|k: int| 0 <= k < phrase.len() implies g.subrange(at.0, at.1)[k]
            == phrase[k] by {
            assert(kept.take(phrase.len() as int)[k] == kept[k]);
        }
    }
    match rewrite(s, span, reference) {
        Some(_) => {
            let range = temporal_dim::dimension_time(phrase, reference)->0;
            law_rewritten_once(before, phrase, range, after, reference);
        },
        None => {
            if annotated(s.skip(span.1)) {
                assert(g.skip(at.1) =~= after);
                lemma_date_kept(s, spans, after, between, i);
            }
        },
    }
}

/// The date that a span carries is kept behind it.
proof fn lemma_date_kept(
    s: Seq<char>,
    spans: Seq<(int, int)>,
    after: Seq<char>,
    between: Seq<char>,
    i: int,
)
    requires
        spans_ordered(spans, s.len() as int),
        dates_stand_apart(s, spans),
        0 <= i < spans.len(),
        annotated(s.skip(spans[i].1)),
        after == between + s.skip(end_of(spans)),
        i == spans.len() - 1 ==> between.len() == 0,
        i < spans.len() - 1 ==> text::starts(between, s.subrange(spans[i].1, spans[i + 1].0)),
    ensures
        annotated(after),
{
    let tail = s.skip(spans[i].1);
    if i == spans.len() - 1 {
        assert(after =~= tail);
    } else {
        let next = s.subrange(spans[i].1, spans[i + 1].0);
        assert(spans[i].1 + 13 <= spans[i + 1].0);
        assert(0 <= spans[i].1 && spans[i + 1].0 <= s.len());
        assert forall|k: int| 0 <= k < 13 implies #[trigger] after[k] == tail[k] by {
            assert(next[k] == tail[k]);
            assert(between.take(next.len() as int)[k] == between[k]);
        }
        assert(digits_at(after, 4, 2)) by {
            assert forall|k: int| 2 <= k < 6 implies '0' <= #[trigger] after[k] <= '9' by {
                assert('0' <= tail[k] <= '9');
            }
        }
        assert(digits_at(after, 2, 7)) by {
            assert forall|k: int| 7 <= k < 9 implies '0' <= #[trigger] after[k] <= '9' by {
                assert('0' <= tail[k] <= '9');
            }
        }
        assert(digits_at(after, 2, 10)) by {
            assert forall|k: int| 10 <= k < 12 implies '0' <= #[trigger] after[k] <= '9' by {
                assert('0' <= tail[k] <= '9');
            }
        }
    }
}

/// Grounding a text twice is grounding it once, in the years that four digits can
/// write, where the phrases that are found in the grounded text are those of the
/// text before, moved by what was added, and none of them stands within a date.
pub proof fn law_grounding_is_idempotent(s: Seq<char>, reference: Timestamp)
    requires
        spans_ordered(phrase_places(s), s.len() as int),
        dates_stand_apart(s, phrase_places(s)),
        years_fit(s, phrase_places(s), reference),
        phrase_places(grounded(s, reference)) == moved(s, phrase_places(s), reference),
    ensures
        !groundable(grounded(s, reference), reference),
        grounded(grounded(s, reference), reference) == grounded(s, reference),
{
    let spans = phrase_places(s);
    let g = grounded(s, reference);
    let again = moved(s, spans, reference);
    lemma_moved_len(s, spans, reference);
    lemma_moved_ordered(s, spans, reference);
    assert forall|i: int| 0 <= i < again.len() implies rewrite(
        g,
        #[trigger] again[i],
        reference,
    ) is None by {
        lemma_settled(s, spans, reference, i);
    }
    lemma_unchanged(g, again, reference);
}

/// A phrase that has a meaning gets its date behind it, in brackets; one that has a
/// date already, or no meaning, stays as it is.
pub proof fn law_phrase_gets_its_date(
    s: Seq<char>,
    span: (int, int),
    reference: Timestamp,
    date: time::Date,
    range: TimeRange,
)
    requires
        0 <= span.0 <= span.1 <= s.len(),
        date.valid(),
        date.number() == range.start.secs as int / 86_400,
    ensures
        temporal_dim::dimension_time(s.subrange(span.0, span.1), reference) is None ==> shown(
            s,
            span,
            reference,
        ) == s.subrange(span.0, span.1),
        annotated(s.skip(span.1)) ==> shown(s, span, reference) == s.subrange(span.0, span.1),
        temporal_dim::dimension_time(s.subrange(span.0, span.1), reference) == Some(range)
            && !annotated(s.skip(span.1)) ==> shown(s, span, reference) == s.subrange(
            span.0,
            span.1,
        ) + " ("@ + date.text() + ")"@,
{
    let n = range.start.day_number();
    let d = time::date_of(n);
    assert(d.valid() && d.number() == n);
    time::law_date_unique(d, date);
}

/// A text has a date behind a phrase where it goes on with a blank, and four, two
/// and two digits in brackets, with hyphens between.
pub proof fn law_annotation_has_the_form(tail: Seq<char>, i: int)
    ensures
        annotated(tail) ==> tail.len() >= 13 && tail[0] == ' ' && tail[1] == '(' && tail[6] == '-'
            && tail[9] == '-' && tail[12] == ')',
        annotated(tail) && 2 <= i < 12 && i != 6 && i != 9 ==> '0' <= tail[i] <= '9',
        tail.len() < 13 ==> !annotated(tail),
{
}

/// One more phrase changes the text at that phrase alone.
pub proof fn law_one_phrase_at_a_time(
    s: Seq<char>,
    spans: Seq<(int, int)>,
    span: (int, int),
    reference: Timestamp,
)
    requires
        spans_ordered(spans.push(span), s.len() as int),
    ensures
        grounded_at(s, Seq::empty(), reference) == s,
        ({
            let before = grounded_at(s, spans, reference);
            grounded_at(s, spans.push(span), reference) == before.take(
                before.len() - (s.len() - span.0),
            ) + shown(s, span, reference) + s.skip(span.1)
        }),
{
    let all = spans.push(span);
    assert(all.drop_last() =~= spans);
    let end = end_of(spans);
    assert(0 <= end <= span.0 <= span.1 <= s.len()) by {
        assert(all[spans.len() as int] == span);
        if spans.len() > 0 {
            assert(all[spans.len() - 1] == spans.last());
        }
    }
    let before = grounded_at(s, spans, reference);
    let start = grounded_start(s, spans, reference);
    assert(before.take(before.len() - (s.len() - span.0)) =~= start + s.subrange(end, span.0));
    assert(grounded_at(s, all, reference) =~= start + s.subrange(end, span.0) + shown(
        s,
        span,
        reference,
    ) + s.skip(span.1));
    assert(grounded_at(s, Seq::empty(), reference) =~= s);
}

/// A text is changed where one of its phrases gets a date, and only there.
pub proof fn law_changed_where_dated(s: Seq<char>, reference: Timestamp, i: int)
    ensures
        0 <= i < phrase_places(s).len() && temporal_dim::dimension_time(
            s.subrange(phrase_places(s)[i].0, phrase_places(s)[i].1),
            reference,
        ) is Some && !annotated(s.skip(phrase_places(s)[i].1)) ==> groundable(s, reference),
        phrase_places(s).len() == 0 ==> !groundable(s, reference) && grounded(s, reference) == s,
{
    if phrase_places(s).len() == 0 {
        assert(phrase_places(s) =~= Seq::<(int, int)>::empty());
        assert(grounded(s, reference) =~= s);
    }
}

/// A field that is there is grounded as any text is; one that is not stays away.
pub proof fn law_fields_are_grounded_as_texts(field: Option<String>, reference: Timestamp)
    ensures
        field is None ==> optional_grounded(field, reference) is None && !optional_groundable(
            field,
            reference,
        ),
        field matches Some(t) ==> optional_grounded(field, reference) == Some(
            grounded(t@, reference),
        ) && optional_groundable(field, reference) == groundable(t@, reference),
{
}

} // verus!
