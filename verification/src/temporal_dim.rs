//! Natural-language time phrases, resolved against a reference moment, and a
//! least-recently-used cache of what they resolve to.
//!
//! The reference is the moment a memory was stored, not the present: a memory
//! that says "yesterday" means the day before it was written.

use crate::text;
use crate::time::{TimeRange, Timestamp};
use crate::time_phrases;
use crate::time_phrases::{is_covered, is_within_calendar};
use vstd::prelude::*;
use vstd::string::*;

verus! {

/// How many phrases a cache holds by default.
pub const CACHE_CAPACITY_DEFAULT: usize = 4096;

// ---------------------------------------------------------------------------
// Resolving a phrase
// ---------------------------------------------------------------------------

/// A range of time in plain values: seconds and nanoseconds of its start and
/// of its end.
pub type PlainRange = ((i64, u32), (i64, u32));

/// What the time grammar resolves a phrase to, with the reference as the
/// present: nothing where the phrase is no time expression.
pub uninterp spec fn phrase_range(phrase: Seq<char>, secs: i64, nanos: u32) -> Option<
    ((i64, u32), (i64, u32)),
>;

/// Whether a phrase can be resolved against a reference.
pub open spec fn resolvable(phrase: Seq<char>, reference: Timestamp) -> bool {
    &&& time_phrases::within_calendar(phrase, reference.secs as int)
    &&& time_phrases::covered(phrase, crate::time::date_of(reference.day_number()))
}

/// `two_timer::parse` with `Config::new().now(..)` set to the reference: the
/// start and the end of the range that the phrase names, taken as UTC, or
/// nothing where it reports an error. The present is overwritten by the
/// reference, so the result depends on the two arguments alone. The phrases on
/// which it panics are among those that cannot be resolved.
#[verifier::external_body]
fn resolve(phrase: &str, reference: Timestamp) -> (r: Option<PlainRange>)
    requires
        resolvable(phrase@, reference),
    ensures
        r == phrase_range(phrase@, reference.secs, reference.nanos),
{
    let now = chrono::DateTime::from_timestamp(reference.secs, reference.nanos)?.naive_utc();
    let config = two_timer::Config::new().now(now);
    let (start, end, _) = two_timer::parse(phrase, Some(config)).ok()?;
    let (start, end) = (start.and_utc(), end.and_utc());
    Some((
        (start.timestamp(), start.timestamp_subsec_nanos()),
        (end.timestamp(), end.timestamp_subsec_nanos()),
    ))
}

/// A range of plain values as a range of time.
pub open spec fn range_of(found: PlainRange) -> TimeRange {
    TimeRange {
        start: Timestamp { secs: (found.0).0, nanos: (found.0).1 },
        end: Timestamp { secs: (found.1).0, nanos: (found.1).1 },
    }
}

/// The range that was found, unless it ends before it starts.
pub open spec fn ordered_range(found: Option<PlainRange>) -> Option<TimeRange> {
    match found {
        Some(range) => if range_of(range).end.precedes(range_of(range).start) {
            None
        } else {
            Some(range_of(range))
        },
        None => None,
    }
}

/// Takes the range that a phrase was resolved to, and rejects an inverted one.
pub fn accept_range(found: Option<PlainRange>) -> (r: Option<TimeRange>)
    ensures
        r == ordered_range(found),
{
    match found {
        Some((start, end)) => {
            let range = TimeRange {
                start: Timestamp { secs: start.0, nanos: start.1 },
                end: Timestamp { secs: end.0, nanos: end.1 },
            };
            if range.end.is_before(range.start) {
                None
            } else {
                Some(range)
            }
        },
        None => None,
    }
}

/// What a phrase means at a reference.
pub open spec fn dimension_time(phrase: Seq<char>, reference: Timestamp) -> Option<TimeRange> {
    let short = text::trimmed(phrase);
    if short.len() == 0 || !resolvable(short, reference) {
        None
    } else {
        ordered_range(phrase_range(short, reference.secs, reference.nanos))
    }
}

/// Resolves a time phrase against a reference. A phrase that is empty, that the
/// grammar does not cover or that it cannot resolve gives nothing, and so does
/// an inverted range.
pub fn parse_dimension_time(phrase: &str, reference: Timestamp) -> (r: Option<TimeRange>)
    ensures
        r == dimension_time(phrase@, reference),
{
    let short: &str = phrase.trim();
    if short.is_empty() {
        return None;
    }
    if !is_within_calendar(short, reference.secs) {
        return None;
    }
    if !is_covered(short, reference.date()) {
        return None;
    }
    accept_range(resolve(short, reference))
}

/// A resolved range never ends before it starts.
pub proof fn law_ranges_ordered(phrase: Seq<char>, reference: Timestamp)
    ensures
        dimension_time(phrase, reference) matches Some(range) ==> !range.end.precedes(range.start),
{
}

/// White space around a phrase changes nothing.
pub proof fn law_outer_space_is_ignored(a: Seq<char>, b: Seq<char>, reference: Timestamp)
    requires
        text::trimmed(a) == text::trimmed(b),
    ensures
        dimension_time(a, reference) == dimension_time(b, reference),
{
}

/// A blank phrase means nothing.
pub proof fn law_blank_means_nothing(phrase: Seq<char>, reference: Timestamp)
    requires
        text::trimmed(phrase).len() == 0,
    ensures
        dimension_time(phrase, reference) is None,
{
}

// ---------------------------------------------------------------------------
// The cache
// ---------------------------------------------------------------------------

/// `lru::LruCache`, a map of bounded size that drops the entry that was used
/// least recently.
#[verifier::external_type_specification]
#[verifier::external_body]
#[verifier::reject_recursive_types(K)]
#[verifier::reject_recursive_types(V)]
#[verifier::reject_recursive_types(S)]
pub struct ExLruCache<K, V, S>(lru::LruCache<K, V, S>);

/// `lru::DefaultHasher`, which places the keys of a cache.
#[verifier::external_type_specification]
#[verifier::external_body]
pub struct ExDefaultHasher(lru::DefaultHasher);

/// One entry of a cache: a phrase and a day, and what they resolve to.
pub type Entry = ((Seq<char>, i64), Option<PlainRange>);

/// What a cache holds, the entry used last first.
pub uninterp spec fn cache_entries(
    cache: lru::LruCache<(String, i64), Option<((i64, u32), (i64, u32))>>,
) -> Seq<((Seq<char>, i64), Option<((i64, u32), (i64, u32))>)>;

/// How many entries a cache holds at most.
pub uninterp spec fn cache_limit(
    cache: lru::LruCache<(String, i64), Option<((i64, u32), (i64, u32))>>,
) -> nat;

/// The largest capacity of a cache. Its table is set aside when it is made, with
/// a slot of two pointers and a byte in eight sevenths as many places, rounded up
/// to a power of two, and no allocation is larger than half of the address space.
pub const CACHE_CAPACITY_MAX: usize = usize::MAX / 512 * 7;

/// Whether the entry at a position has a key.
pub open spec fn placed(
    entries: Seq<Entry>,
    key: (Seq<char>, i64),
    i: int,
) -> bool {
    0 <= i < entries.len() && entries[i].0 == key
}

/// The entries after the one at a position was used.
pub open spec fn touched(
    entries: Seq<Entry>,
    i: int,
) -> Seq<Entry> {
    seq![entries[i]] + entries.remove(i)
}

/// The entries after one with a new key came in: the entry used least recently
/// makes room where there is none.
pub open spec fn admitted(
    entries: Seq<Entry>,
    limit: nat,
    entry: Entry,
) -> Seq<Entry> {
    if entries.len() == limit {
        seq![entry] + entries.drop_last()
    } else {
        seq![entry] + entries
    }
}

/// `LruCache::new`: an empty cache with the given capacity. It sets its table
/// aside at once, and panics where the capacity is zero or past what a table
/// can have.
#[verifier::external_body]
fn new_cache(capacity: usize) -> (r: lru::LruCache<(String, i64), Option<PlainRange>>)
    requires
        0 < capacity <= CACHE_CAPACITY_MAX,
    ensures
        cache_entries(r).len() == 0,
        cache_limit(r) == capacity,
{
    lru::LruCache::new(std::num::NonZeroUsize::new(capacity).unwrap())
}

/// `LruCache::get`: the value of a key, whose entry moves to the front.
#[verifier::external_body]
fn cache_get(
    cache: &mut lru::LruCache<(String, i64), Option<PlainRange>>,
    phrase: &str,
    day: i64,
) -> (r: Option<Option<PlainRange>>)
    ensures
        cache_limit(*final(cache)) == cache_limit(*old(cache)),
        match r {
            Some(value) => exists|i: int|
                #[trigger] placed(cache_entries(*old(cache)), (phrase@, day), i)
                    && cache_entries(*old(cache))[i].1 == value
                    && cache_entries(*final(cache)) == touched(cache_entries(*old(cache)), i),
            None => (forall|i: int|
                !#[trigger] placed(cache_entries(*old(cache)), (phrase@, day), i))
                && cache_entries(*final(cache)) == cache_entries(*old(cache)),
        },
{
    cache.get(&(phrase.to_string(), day)).copied()
}

/// `LruCache::put` of a key that the cache does not hold: the entry comes to
/// the front, and where the cache is full the last entry leaves.
#[verifier::external_body]
fn cache_put(
    cache: &mut lru::LruCache<(String, i64), Option<PlainRange>>,
    phrase: &str,
    day: i64,
    value: Option<PlainRange>,
)
    requires
        forall|i: int| !#[trigger] placed(cache_entries(*old(cache)), (phrase@, day), i),
    ensures
        cache_limit(*final(cache)) == cache_limit(*old(cache)),
        cache_entries(*final(cache)) == admitted(
            cache_entries(*old(cache)),
            cache_limit(*old(cache)),
            ((phrase@, day), value),
        ),
{
    cache.put((phrase.to_string(), day), value);
}

/// `LruCache::len`: the number of entries.
#[verifier::external_body]
fn cache_len(
    cache: &lru::LruCache<(String, i64), Option<PlainRange>>,
) -> (r: usize)
    ensures
        r == cache_entries(*cache).len(),
{
    cache.len()
}

/// A range of time in plain values.
pub open spec fn plain_of(range: Option<TimeRange>) -> Option<PlainRange> {
    match range {
        Some(r) => Some(((r.start.secs, r.start.nanos), (r.end.secs, r.end.nanos))),
        None => None,
    }
}

/// A range of time from plain values.
pub open spec fn from_plain(found: Option<PlainRange>) -> Option<TimeRange> {
    match found {
        Some(range) => Some(range_of(range)),
        None => None,
    }
}

fn write_plain(range: Option<TimeRange>) -> (r: Option<PlainRange>)
    ensures
        r == plain_of(range),
{
    match range {
        Some(r) => Some(((r.start.secs, r.start.nanos), (r.end.secs, r.end.nanos))),
        None => None,
    }
}

fn read_plain(found: Option<PlainRange>) -> (r: Option<TimeRange>)
    ensures
        r == from_plain(found),
{
    match found {
        Some((start, end)) => Some(
            TimeRange {
                start: Timestamp { secs: start.0, nanos: start.1 },
                end: Timestamp { secs: end.0, nanos: end.1 },
            },
        ),
        None => None,
    }
}

/// Whether no two entries have the same key.
pub open spec fn distinct_keys(
    entries: Seq<Entry>,
) -> bool {
    forall|i: int, j: int|
        0 <= i < j < entries.len() ==> (#[trigger] entries[i]).0 != (#[trigger] entries[j]).0
}

/// A phrase that was found is found again at the front with the same answer,
/// and asking once more changes nothing.
pub proof fn law_found_again(
    entries: Seq<Entry>,
    key: (Seq<char>, i64),
    i: int,
)
    requires
        distinct_keys(entries),
        placed(entries, key, i),
    ensures
        distinct_keys(touched(entries, i)),
        touched(entries, i).len() == entries.len(),
        forall|j: int| #[trigger] placed(touched(entries, i), key, j) <==> j == 0,
        touched(entries, i)[0] == entries[i],
        touched(touched(entries, i), 0) == touched(entries, i),
{
    lemma_touched(entries, i);
    let after = touched(entries, i);
    assert(placed(after, key, 0));
    assert forall|j: int| #[trigger] placed(after, key, j) implies j == 0 by {
        if j > 0 {
            assert(after[0].0 != after[j].0);
        }
    }
    assert(touched(after, 0) =~= after);
}

/// A new answer stands at the front, the cache stays within its limit, and of
/// the entries that were there only the one used least recently can leave.
pub proof fn law_new_answer_is_kept(
    entries: Seq<Entry>,
    limit: nat,
    entry: Entry,
)
    requires
        0 < limit,
        entries.len() <= limit,
    ensures
        admitted(entries, limit, entry)[0] == entry,
        admitted(entries, limit, entry).len() <= limit,
        forall|i: int|
            0 <= i < entries.len() && (i + 1 < entries.len() || entries.len() < limit)
                ==> #[trigger] admitted(entries, limit, entry)[i + 1] == entries[i],
{
}

proof fn lemma_touched(
    entries: Seq<Entry>,
    i: int,
)
    requires
        0 <= i < entries.len(),
        distinct_keys(entries),
    ensures
        touched(entries, i).len() == entries.len(),
        distinct_keys(touched(entries, i)),
        forall|j: int|
            0 <= j < entries.len() ==> #[trigger] touched(entries, i)[j] == entries[if j == 0 {
                i
            } else if j <= i {
                j - 1
            } else {
                j
            }],
{
    let after = touched(entries, i);
    assert forall|a: int, b: int| 0 <= a < b < after.len() implies (#[trigger] after[a]).0 != (
    #[trigger] after[b]).0 by {
        let x = if a == 0 { i } else if a <= i { a - 1 } else { a };
        let y = if b <= i { b - 1 } else { b };
        assert(after[a] == entries[x]);
        assert(after[b] == entries[y]);
        if x < y {
            assert(entries[x].0 != entries[y].0);
        } else {
            assert(entries[y].0 != entries[x].0);
        }
    }
}

/// Whether an entry is what its phrase means at a reference of its day.
pub open spec fn answers(
    entry: Entry,
    reference: Timestamp,
) -> bool {
    &&& reference.day_number() == (entry.0).1
    &&& entry.1 == plain_of(dimension_time((entry.0).0, reference))
}

/// Whether an entry is what its phrase means at some moment of its day.
pub open spec fn faithful(entry: Entry) -> bool {
    exists|reference: Timestamp| answers(entry, reference)
}

/// A cache of resolved phrases, by phrase and day of the reference. It keeps
/// failures as well as ranges.
pub struct DimParseCache {
    inner: lru::LruCache<(String, i64), Option<PlainRange>>,
}

impl DimParseCache {
    /// The entries, the one used last first.
    pub closed spec fn entries(&self) -> Seq<Entry> {
        cache_entries(self.inner)
    }

    /// How many entries the cache holds at most.
    pub closed spec fn limit(&self) -> nat {
        cache_limit(self.inner)
    }

    /// No more entries than the limit, one for each key, and each of them what
    /// its phrase means at some moment of its day.
    pub open spec fn valid(&self) -> bool {
        &&& self.limit() > 0
        &&& self.entries().len() <= self.limit()
        &&& distinct_keys(self.entries())
        &&& forall|i: int|
            0 <= i < self.entries().len() ==> faithful(#[trigger] self.entries()[i])
    }

    /// A cache with the given capacity, at least one entry.
    pub fn new(capacity: usize) -> (r: Self)
        requires
            capacity <= CACHE_CAPACITY_MAX,
        ensures
            r.valid(),
            r.entries().len() == 0,
            r.limit() == if capacity == 0 {
                1
            } else {
                capacity as int
            },
    {
        DimParseCache { inner: new_cache(if capacity == 0 { 1 } else { capacity }) }
    }

    /// What the phrase means at the reference. A phrase that was asked for on
    /// the same day before, and is still held, gives the answer of that time;
    /// any other is resolved and kept.
    pub fn get_or_parse(&mut self, phrase: &str, reference: Timestamp) -> (r: Option<TimeRange>)
        requires
            old(self).valid(),
        ensures
            final(self).valid(),
            final(self).limit() == old(self).limit(),
            forall|i: int|
                #[trigger] placed(
                    old(self).entries(),
                    (phrase@, reference.day_number() as i64),
                    i,
                ) ==> r == from_plain(old(self).entries()[i].1) && final(self).entries() == touched(
                    old(self).entries(),
                    i,
                ),
            (forall|i: int|
                !#[trigger] placed(
                    old(self).entries(),
                    (phrase@, reference.day_number() as i64),
                    i,
                )) ==> r == dimension_time(phrase@, reference) && final(self).entries()
                == admitted(
                old(self).entries(),
                old(self).limit(),
                ((phrase@, reference.day_number() as i64), plain_of(r)),
            ),
    {
        let day: i64 = reference.day();
        let ghost before = self.entries();
        let ghost key = (phrase@, day);
        match cache_get(&mut self.inner, phrase, day) {
            Some(found) => {
                proof {
                    let i = choose|i: int|
                        #[trigger] placed(before, key, i) && before[i].1 == found
                            && self.entries() == touched(before, i);
                    lemma_touched(before, i);
                    let after = self.entries();
                    assert forall|j: int| 0 <= j < after.len() implies faithful(
                        #[trigger] after[j],
                    ) by {
                        assert(after[j] == touched(before, i)[j]);
                    }
                }
                read_plain(found)
            },
            None => {
                let parsed: Option<TimeRange> = parse_dimension_time(phrase, reference);
                cache_put(&mut self.inner, phrase, day, write_plain(parsed));
                proof {
                    let entry = (key, plain_of(parsed));
                    assert(answers(entry, reference));
                    let after = self.entries();
                    assert(after == admitted(before, self.limit(), entry));
                    assert forall|i: int, j: int| 0 <= i < j < after.len() implies (
                    #[trigger] after[i]).0 != (#[trigger] after[j]).0 by {
                        assert(after[j] == before[j - 1]);
                        if i > 0 {
                            assert(after[i] == before[i - 1]);
                        } else {
                            assert(!placed(before, key, j - 1));
                        }
                    }
                    assert(faithful(entry));
                    assert forall|i: int| 0 <= i < after.len() implies faithful(
                        #[trigger] after[i],
                    ) by {
                        if i > 0 {
                            assert(after[i] == before[i - 1]);
                        }
                    }
                }
                parsed
            },
        }
    }

    /// Number of entries.
    pub fn len(&self) -> (r: usize)
        ensures
            r == self.entries().len(),
    {
        cache_len(&self.inner)
    }

    /// Whether the cache has no entries.
    pub fn is_empty(&self) -> (r: bool)
        ensures
            r == (self.entries().len() == 0),
    {
        self.len() == 0
    }
}

impl Default for DimParseCache {
    fn default() -> (r: Self)
        ensures
            r.valid(),
            r.entries().len() == 0,
            r.limit() == CACHE_CAPACITY_DEFAULT,
    {
        DimParseCache::new(CACHE_CAPACITY_DEFAULT)
    }
}

/// A phrase is resolved to the range that it means, unless that ends before it
/// starts.
pub proof fn law_phrase_gives_its_range(phrase: Seq<char>, reference: Timestamp, found: PlainRange)
    requires
        text::trimmed(phrase).len() > 0,
        resolvable(text::trimmed(phrase), reference),
        phrase_range(text::trimmed(phrase), reference.secs, reference.nanos) == Some(found),
    ensures
        ({
            let start = Timestamp { secs: (found.0).0, nanos: (found.0).1 };
            let end = Timestamp { secs: (found.1).0, nanos: (found.1).1 };
            let r = dimension_time(phrase, reference);
            &&& r is None <==> end.secs < start.secs || (end.secs == start.secs && end.nanos
                < start.nanos)
            &&& r matches Some(range) ==> range.start == start && range.end == end
        }),
{
}

/// What is kept of a range gives it back.
pub proof fn law_kept_ranges_are_given_back(range: Option<TimeRange>)
    ensures
        from_plain(plain_of(range)) == range,
{
}

/// Where an answer is used again it comes first, and the others keep their order.
pub proof fn law_others_keep_their_order(entries: Seq<Entry>, i: int, j: int)
    requires
        0 <= i < entries.len(),
        0 <= j < entries.len(),
    ensures
        j < i ==> touched(entries, i)[j + 1] == entries[j],
        j > i ==> touched(entries, i)[j] == entries[j],
        j == i ==> touched(entries, i)[0] == entries[j],
{
}

/// What the cache answers is what the phrase meant at some moment of the day.
pub proof fn law_cached_answers_were_parsed(
    cache: DimParseCache,
    phrase: Seq<char>,
    day: i64,
    i: int,
)
    requires
        cache.valid(),
        placed(cache.entries(), (phrase, day), i),
    ensures
        exists|reference: Timestamp| #[trigger]
            dimension_time(phrase, reference) == from_plain(cache.entries()[i].1)
                && reference.secs as int / 86_400 == day,
{
    let entry = cache.entries()[i];
    assert(faithful(entry));
    let reference = choose|reference: Timestamp| answers(entry, reference);
    law_kept_ranges_are_given_back(dimension_time(phrase, reference));
    assert(dimension_time(phrase, reference) == from_plain(entry.1));
}

/// A phrase that leads out of the calendar is not resolved.
pub proof fn law_calendar_is_not_left(phrase: Seq<char>, reference: Timestamp)
    ensures
        !time_phrases::within_calendar(text::trimmed(phrase), reference.secs as int)
            ==> dimension_time(phrase, reference) is None,
        !time_phrases::covered(
            text::trimmed(phrase),
            crate::time::date_of(reference.day_number()),
        ) ==> dimension_time(phrase, reference) is None,
{
}

} // verus!
