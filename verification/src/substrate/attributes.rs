//! Attribute objects of nodes and edges: merging them, and projecting them from
//! the columns and the metadata of a legacy row.

use crate::json;
use crate::json::{object_value, parse, JsonNode, JsonView};
use crate::text;
use crate::text::{less, same};
use vstd::prelude::*;
use vstd::string::*;

verus! {

/// The entries of a JSON object: its keys and the texts of their values.
pub type Entries = Seq<(Seq<char>, Seq<char>)>;

/// Whether the keys of `e` ascend, each of them once.
pub open spec fn ascending(e: Entries) -> bool {
    text::strictly_sorted(json::keys_of(e))
}

/// Whether each value of `e` is a printed JSON text.
pub open spec fn printed(e: Entries) -> bool {
    forall|i: int| 0 <= i < e.len() ==> json::is_canonical((#[trigger] e[i]).1)
}

/// `e` with the entry `p` at its place, unless the key of `p` stands there.
pub open spec fn with_absent(e: Entries, p: (Seq<char>, Seq<char>)) -> Entries
    decreases e.len(),
{
    if e.len() == 0 {
        seq![p]
    } else if e.last().0 == p.0 {
        e
    } else if text::text_lt(e.last().0, p.0) {
        e.push(p)
    } else {
        with_absent(e.drop_last(), p).push(e.last())
    }
}

/// `e` with the entries of `n` whose keys `e` lacks.
pub open spec fn overlay(e: Entries, n: Entries) -> Entries
    decreases n.len(),
{
    if n.len() == 0 {
        e
    } else {
        with_absent(overlay(e, n.drop_last()), n.last())
    }
}

proof fn lemma_keys(e: Entries)
    ensures
        json::keys_of(e).len() == e.len(),
        forall|i: int| 0 <= i < e.len() ==> #[trigger] json::keys_of(e)[i] == e[i].0,
        e.len() > 0 ==> json::keys_of(e.drop_last()) == json::keys_of(e).drop_last(),
{
    if e.len() > 0 {
        assert(json::keys_of(e.drop_last()) =~= json::keys_of(e).drop_last());
    }
}

proof fn lemma_lookup_present(e: Entries, i: int)
    requires
        ascending(e),
        0 <= i < e.len(),
    ensures
        json::lookup(e, e[i].0) == Some(e[i].1),
    decreases e.len(),
{
    lemma_keys(e);
    lemma_keys(e.drop_last());
    if i < e.len() - 1 {
        assert(text::text_lt(json::keys_of(e)[i], json::keys_of(e)[e.len() - 1]));
        text::lemma_text_lt_irreflexive(e[i].0);
        lemma_ascending_prefix(e);
        lemma_lookup_present(e.drop_last(), i);
        assert(e.drop_last()[i] == e[i]);
    }
}

proof fn lemma_ascending_prefix(e: Entries)
    requires
        ascending(e),
        e.len() > 0,
    ensures
        ascending(e.drop_last()),
{
    lemma_keys(e);
    let k = json::keys_of(e);
    let d = json::keys_of(e.drop_last());
    assert forall|i: int, j: int| 0 <= i < j < d.len() implies text::text_lt(
        #[trigger] d[i],
        #[trigger] d[j],
    ) by {
        assert(d[i] == k[i] && d[j] == k[j]);
    }
}

proof fn lemma_ascending_push(e: Entries, p: (Seq<char>, Seq<char>))
    requires
        ascending(e),
        e.len() > 0 ==> text::text_lt(e.last().0, p.0),
    ensures
        ascending(e.push(p)),
{
    lemma_keys(e);
    lemma_keys(e.push(p));
    let k = json::keys_of(e);
    let d = json::keys_of(e.push(p));
    assert forall|i: int, j: int| 0 <= i < j < d.len() implies text::text_lt(
        #[trigger] d[i],
        #[trigger] d[j],
    ) by {
        if j < e.len() {
            assert(d[i] == k[i] && d[j] == k[j]);
        } else if i < e.len() - 1 {
            assert(text::text_lt(k[i], k[e.len() - 1]));
            text::lemma_text_lt_transitive(k[i], k[e.len() - 1], p.0);
        }
    }
}

/// A key outside an ascending list of smaller keys has no entry there.
proof fn lemma_lookup_above(e: Entries, key: Seq<char>)
    requires
        ascending(e),
        e.len() > 0 ==> text::text_lt(e.last().0, key),
    ensures
        json::lookup(e, key) is None,
    decreases e.len(),
{
    if e.len() > 0 {
        lemma_keys(e);
        text::lemma_text_lt_irreflexive(key);
        lemma_ascending_prefix(e);
        if e.len() > 1 {
            let k = json::keys_of(e);
            assert(text::text_lt(k[e.len() - 2], k[e.len() - 1]));
            text::lemma_text_lt_transitive(k[e.len() - 2], k[e.len() - 1], key);
        }
        lemma_lookup_above(e.drop_last(), key);
    }
}

proof fn lemma_lookup_push(e: Entries, p: (Seq<char>, Seq<char>), k: Seq<char>)
    ensures
        json::lookup(e.push(p), k) == (if p.0 == k {
            Some(p.1)
        } else {
            json::lookup(e, k)
        }),
{
    assert(e.push(p).drop_last() == e);
    assert(e.push(p).last() == p);
}

proof fn lemma_with_absent(e: Entries, p: (Seq<char>, Seq<char>))
    requires
        ascending(e),
    ensures
        ascending(with_absent(e, p)),
        forall|k: Seq<char>| #[trigger]
            json::lookup(with_absent(e, p), k) == (if k == p.0 && json::lookup(e, k) is None {
                Some(p.1)
            } else {
                json::lookup(e, k)
            }),
        e.len() > 0 ==> with_absent(e, p).len() > 0 && (with_absent(e, p).last().0 == e.last().0
            || with_absent(e, p).last().0 == p.0),
        printed(e) && json::is_canonical(p.1) ==> printed(with_absent(e, p)),
    decreases e.len(),
{
    let r = with_absent(e, p);
    if e.len() == 0 {
        lemma_keys(r);
        assert(r =~= e.push(p));
        assert forall|k: Seq<char>| #[trigger]
            json::lookup(r, k) == (if k == p.0 && json::lookup(e, k) is None {
                Some(p.1)
            } else {
                json::lookup(e, k)
            }) by {
            lemma_lookup_push(e, p, k);
        }
    } else if e.last().0 == p.0 {
    } else if text::text_lt(e.last().0, p.0) {
        lemma_ascending_push(e, p);
        lemma_lookup_above(e, p.0);
        assert forall|k: Seq<char>| #[trigger]
            json::lookup(r, k) == (if k == p.0 && json::lookup(e, k) is None {
                Some(p.1)
            } else {
                json::lookup(e, k)
            }) by {
            lemma_lookup_push(e, p, k);
        }
        if printed(e) && json::is_canonical(p.1) {
            assert forall|i: int| 0 <= i < r.len() implies json::is_canonical(
                (#[trigger] r[i]).1,
            ) by {
                if i < e.len() {
                    assert(r[i] == e[i]);
                }
            }
        }
    } else {
        lemma_ascending_prefix(e);
        let d = e.drop_last();
        lemma_with_absent(d, p);
        let rd = with_absent(d, p);
        text::lemma_text_lt_total(e.last().0, p.0);
        lemma_keys(e);
        if d.len() > 0 {
            assert(text::text_lt(json::keys_of(e)[e.len() - 2], json::keys_of(e)[e.len() - 1]));
        }
        lemma_ascending_push(rd, e.last());
        assert(e == d.push(e.last()));
        assert forall|k: Seq<char>| #[trigger]
            json::lookup(r, k) == (if k == p.0 && json::lookup(e, k) is None {
                Some(p.1)
            } else {
                json::lookup(e, k)
            }) by {
            lemma_lookup_push(rd, e.last(), k);
            lemma_lookup_push(d, e.last(), k);
        }
        if printed(e) && json::is_canonical(p.1) {
            assert(printed(d)) by {
                assert forall|i: int| 0 <= i < d.len() implies json::is_canonical(
                    (#[trigger] d[i]).1,
                ) by {
                    assert(d[i] == e[i]);
                }
            }
            assert forall|i: int| 0 <= i < r.len() implies json::is_canonical(
                (#[trigger] r[i]).1,
            ) by {
                if i < rd.len() {
                    assert(r[i] == rd[i]);
                } else {
                    assert(r[i] == e[e.len() - 1]);
                }
            }
        }
    }
}

proof fn lemma_overlay(e: Entries, n: Entries)
    requires
        ascending(e),
        ascending(n),
    ensures
        ascending(overlay(e, n)),
        forall|k: Seq<char>| #[trigger]
            json::lookup(overlay(e, n), k) == (match json::lookup(e, k) {
                Some(v) => Some(v),
                None => json::lookup(n, k),
            }),
        printed(e) && printed(n) ==> printed(overlay(e, n)),
    decreases n.len(),
{
    if n.len() > 0 {
        lemma_ascending_prefix(n);
        let d = n.drop_last();
        lemma_overlay(e, d);
        lemma_with_absent(overlay(e, d), n.last());
        lemma_keys(n);
        if d.len() > 0 {
            assert(text::text_lt(json::keys_of(n)[n.len() - 2], json::keys_of(n)[n.len() - 1]));
        }
        lemma_lookup_above(d, n.last().0);
        if printed(e) && printed(n) {
            assert forall|i: int| 0 <= i < d.len() implies json::is_canonical(
                (#[trigger] d[i]).1,
            ) by {
                assert(d[i] == n[i]);
            }
            assert(json::is_canonical(n[n.len() - 1].1));
        }
    }
}

/// Existing keys win: what was there stays as it was, and a key that was not
/// there gets the new value.
pub proof fn law_existing_wins(existing: Entries, new: Entries, key: Seq<char>)
    requires
        ascending(existing),
        ascending(new),
    ensures
        ascending(overlay(existing, new)),
        json::lookup(existing, key) is Some ==> json::lookup(overlay(existing, new), key)
            == json::lookup(existing, key),
        json::lookup(existing, key) is None ==> json::lookup(overlay(existing, new), key)
            == json::lookup(new, key),
{
    lemma_overlay(existing, new);
}

proof fn lemma_with_absent_present(e: Entries, p: (Seq<char>, Seq<char>))
    requires
        ascending(e),
        json::lookup(e, p.0) is Some,
    ensures
        with_absent(e, p) == e,
    decreases e.len(),
{
    if e.last().0 != p.0 {
        lemma_ascending_prefix(e);
        lemma_keys(e);
        if text::text_lt(e.last().0, p.0) {
            lemma_lookup_above(e, p.0);
        }
        lemma_with_absent_present(e.drop_last(), p);
        assert(e == e.drop_last().push(e.last()));
    }
}

proof fn lemma_overlay_absorbs(e: Entries, n: Entries)
    requires
        ascending(e),
        ascending(n),
        forall|i: int| 0 <= i < n.len() ==> json::lookup(e, (#[trigger] n[i]).0) is Some,
    ensures
        overlay(e, n) == e,
    decreases n.len(),
{
    if n.len() > 0 {
        lemma_ascending_prefix(n);
        let d = n.drop_last();
        assert forall|i: int| 0 <= i < d.len() implies json::lookup(
            e,
            (#[trigger] d[i]).0,
        ) is Some by {
            assert(d[i] == n[i]);
        }
        lemma_overlay_absorbs(e, d);
        assert(n[n.len() - 1] == n.last());
        lemma_with_absent_present(e, n.last());
    }
}

/// Merging the same object once more changes nothing.
pub proof fn law_overlay_idempotent(existing: Entries, new: Entries)
    requires
        ascending(existing),
        ascending(new),
    ensures
        overlay(overlay(existing, new), new) == overlay(existing, new),
{
    lemma_overlay(existing, new);
    assert forall|i: int| 0 <= i < new.len() implies json::lookup(
        overlay(existing, new),
        (#[trigger] new[i]).0,
    ) is Some by {
        lemma_lookup_present(new, i);
    }
    lemma_overlay_absorbs(overlay(existing, new), new);
}

/// Puts an entry at its place, unless its key stands there.
fn insert_absent(e: &mut Vec<(String, String)>, p: (String, String))
    ensures
        json::entries_view(final(e)@) == with_absent(json::entries_view(old(e)@), (p.0@, p.1@)),
{
    let ghost all = json::entries_view(e@);
    let ghost item = (p.0@, p.1@);
    let mut i: usize = e.len();
    assert(all.take(i as int) == all);
    assert(with_absent(all, item) =~= with_absent(all.take(i as int), item) + all.skip(i as int));
    while i > 0
        invariant
            i <= e@.len(),
            all == json::entries_view(e@),
            all == json::entries_view(old(e)@),
            item == (p.0@, p.1@),
            with_absent(all, item) == with_absent(all.take(i as int), item) + all.skip(i as int),
        decreases i,
    {
        let ghost head = all.take(i as int);
        assert(head.last() == all[i - 1]);
        assert(head.drop_last() == all.take(i - 1));
        if same(e[i - 1].0.as_str(), p.0.as_str()) {
            assert(all == head + all.skip(i as int));
            return ;
        }
        if less(e[i - 1].0.as_str(), p.0.as_str()) {
            e.insert(i, p);
            assert(json::entries_view(e@) =~= head.push(item) + all.skip(i as int));
            return ;
        }
        assert(with_absent(all, item) =~= with_absent(all.take(i - 1), item) + all.skip(i - 1));
        i -= 1;
    }
    e.insert(0, p);
    assert(json::entries_view(e@) =~= seq![item] + all.skip(0));
}

/// The entries of one object with those of another whose keys it lacks.
pub fn overlay_entries(e: Vec<(String, String)>, n: Vec<(String, String)>) -> (r: Vec<
    (String, String),
>)
    ensures
        json::entries_view(r@) == overlay(json::entries_view(e@), json::entries_view(n@)),
{
    let mut out: Vec<(String, String)> = e;
    let mut i: usize = 0;
    let ghost all = json::entries_view(n@);
    assert(all.take(0) == Seq::<(Seq<char>, Seq<char>)>::empty());
    while i < n.len()
        invariant
            i <= n@.len(),
            all == json::entries_view(n@),
            json::entries_view(out@) == overlay(json::entries_view(e@), all.take(i as int)),
        decreases n.len() - i,
    {
        insert_absent(&mut out, (n[i].0.clone(), n[i].1.clone()));
        assert(all.take(i + 1).drop_last() == all.take(i as int));
        assert(all.take(i + 1).last() == all[i as int]);
        i += 1;
    }
    assert(all.take(n@.len() as int) == all);
    out
}

/// The object that two attribute texts merge to; the first text itself, where
/// one of them is no object.
pub open spec fn merged_attributes(existing: Seq<char>, new_keys: Seq<char>) -> Seq<char> {
    match (json::json_level(existing), json::json_level(new_keys)) {
        (Some(JsonView::Object(e)), Some(JsonView::Object(n))) => json::json_object(
            overlay(e, n),
        ),
        _ => existing,
    }
}

/// Merges two attribute objects; on a key that both have, the existing value
/// stays. Where either text is no JSON object, the existing one stays as it is.
pub fn merge_attributes_existing_wins(existing: &str, new_keys: &str) -> (r: String)
    ensures
        r@ == merged_attributes(existing@, new_keys@),
        match (json::json_level(existing@), json::json_level(new_keys@)) {
            (Some(JsonView::Object(e)), Some(JsonView::Object(n))) => ascending(e) && ascending(n)
                && (json::json_level(r@) matches Some(level) ==> level == JsonView::Object(
                overlay(e, n),
            )),
            _ => true,
        },
{
    match (parse(existing), parse(new_keys)) {
        (Some(JsonNode::Object(e)), Some(JsonNode::Object(n))) => {
            proof {
                let ev = json::entries_view(e@);
                let nv = json::entries_view(n@);
                assert(printed(ev) && printed(nv));
                lemma_overlay(ev, nv);
            }
            let merged: Vec<(String, String)> = overlay_entries(e, n);
            assert forall|i: int| 0 <= i < merged@.len() implies json::is_canonical(
                (#[trigger] json::entries_view(merged@)[i]).1,
            ) by {}
            object_value(&merged)
        },
        _ => existing.to_owned(),
    }
}

/// Merging the same attributes into the result of a merge leaves that result:
/// `merged` is what the first merge printed, with what is read from it as the
/// first merge promises.
pub proof fn law_merge_idempotent(existing: Seq<char>, new_keys: Seq<char>, merged: Seq<char>)
    requires
        merged == merged_attributes(existing, new_keys),
        match (json::json_level(existing), json::json_level(new_keys)) {
            (Some(JsonView::Object(e)), Some(JsonView::Object(n))) => ascending(e) && ascending(n)
                && (json::json_level(merged) matches Some(level) ==> level == JsonView::Object(
                overlay(e, n),
            )),
            _ => true,
        },
    ensures
        merged_attributes(merged, new_keys) == merged,
{
    match (json::json_level(existing), json::json_level(new_keys)) {
        (Some(JsonView::Object(e)), Some(JsonView::Object(n))) => {
            law_overlay_idempotent(e, n);
        },
        _ => {},
    }
}

/// The attributes that a row projects: a seed from its columns, with the keys of
/// its metadata object that the seed lacks.
pub open spec fn projected(seed: Entries, metadata: Option<Seq<char>>) -> Entries {
    match metadata {
        Some(t) => match json::json_level(t) {
            Some(JsonView::Object(m)) => overlay(seed, m),
            _ => seed,
        },
        None => seed,
    }
}

/// Whether a row has metadata that is no JSON object.
pub open spec fn malformed(metadata: Option<Seq<char>>) -> bool {
    match metadata {
        Some(t) => !(json::json_level(t) matches Some(JsonView::Object(_))),
        None => false,
    }
}

/// A key of the seed cannot be shadowed by the metadata.
pub proof fn law_column_wins(seed: Entries, metadata: Option<Seq<char>>, key: Seq<char>)
    requires
        ascending(seed),
        json::lookup(seed, key) is Some,
        metadata matches Some(t) ==> (json::json_level(t) matches Some(JsonView::Object(m))
            ==> ascending(m)),
    ensures
        json::lookup(projected(seed, metadata), key) == json::lookup(seed, key),
{
    match metadata {
        Some(t) => match json::json_level(t) {
            Some(JsonView::Object(m)) => {
                lemma_overlay(seed, m);
            },
            _ => {},
        },
        None => {},
    }
}

/// The projected attributes as JSON text, and whether the metadata was no
/// object. What is printed for a seed of ascending keys and printed values reads
/// back, where it reads at all, as the projected attributes, in which every key
/// of the seed has its value from the seed.
pub fn project_attributes(seed: Vec<(String, String)>, metadata: &Option<String>) -> (r: (String, bool))
    ensures
        r.0@ == json::json_object(projected(json::entries_view(seed@), text::opt_view(*metadata))),
        r.1 == malformed(text::opt_view(*metadata)),
        ({
            let s = json::entries_view(seed@);
            let all = projected(s, text::opt_view(*metadata));
            ascending(s) && printed(s) ==> {
                &&& json::json_level(r.0@) matches Some(level) ==> level == JsonView::Object(all)
                    && json::is_canonical(r.0@)
                &&& forall|k: Seq<char>| #[trigger]
                    json::lookup(s, k) is Some ==> json::lookup(all, k) == json::lookup(s, k)
            }
        }),
{
    match metadata {
        Some(t) => match parse(t.as_str()) {
            Some(JsonNode::Object(m)) => {
                proof {
                    let s = json::entries_view(seed@);
                    let n = json::entries_view(m@);
                    assert(printed(n));
                    if ascending(s) {
                        lemma_overlay(s, n);
                    }
                }
                let all: Vec<(String, String)> = overlay_entries(seed, m);
                (object_value(&all), false)
            },
            _ => (object_value(&seed), true),
        },
        None => (object_value(&seed), false),
    }
}

/// Attributes that are no object are left as they are, and so are those that are
/// to be merged with something that is none.
pub proof fn law_only_objects_are_merged(existing: Seq<char>, new_keys: Seq<char>)
    ensures
        !(json::json_level(existing) matches Some(JsonView::Object(_))) ==> merged_attributes(
            existing,
            new_keys,
        ) == existing,
        !(json::json_level(new_keys) matches Some(JsonView::Object(_))) ==> merged_attributes(
            existing,
            new_keys,
        ) == existing,
{
}

/// Metadata that are an object are taken over; metadata that are not are left out
/// and reported; and where there are none nothing is reported.
pub proof fn law_metadata_are_taken_over_or_reported(
    seed: Entries,
    metadata: Option<Seq<char>>,
    key: Seq<char>,
)
    requires
        ascending(seed),
        metadata matches Some(t) ==> (json::json_level(t) matches Some(JsonView::Object(m))
            ==> ascending(m)),
    ensures
        malformed(metadata) || metadata is None ==> projected(seed, metadata) == seed,
        metadata is None ==> !malformed(metadata),
        metadata matches Some(t) ==> match json::json_level(t) {
            Some(JsonView::Object(m)) => !malformed(metadata) && (json::lookup(seed, key) is None
                ==> json::lookup(projected(seed, metadata), key) == json::lookup(m, key)),
            _ => malformed(metadata),
        },
{
    match metadata {
        Some(t) => match json::json_level(t) {
            Some(JsonView::Object(m)) => {
                law_existing_wins(seed, m, key);
            },
            _ => {},
        },
        None => {},
    }
}

} // verus!
