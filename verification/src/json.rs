//! JSON texts, one level at a time.
//!
//! A JSON value is held as its text. [`parse`] shows the outermost level of
//! it, with what stands below as texts again; [`text_value`], [`array_value`]
//! and [`object_value`] build a level from the texts below.

use crate::score::Score;
use crate::text;
use crate::text::same;
use serde_json::Value;
use vstd::prelude::*;
use vstd::string::*;

verus! {

/// The outermost level of a JSON value.
#[derive(Debug)]
pub enum JsonNode {
    /// `null`
    Null,
    /// `true` or `false`
    Bool(bool),
    /// A number, by its text.
    Number(String),
    /// A string, unescaped.
    Text(String),
    /// An array, by the texts of its elements.
    Array(Vec<String>),
    /// An object, by its keys in ascending order and the texts of their values.
    Object(Vec<(String, String)>),
}

/// The model of a [`JsonNode`].
pub enum JsonView {
    /// `null`
    Null,
    /// `true` or `false`
    Bool(bool),
    /// A number, by its text.
    Number(Seq<char>),
    /// A string, unescaped.
    Text(Seq<char>),
    /// An array, by the texts of its elements.
    Array(Seq<Seq<char>>),
    /// An object, by its keys and the texts of their values.
    Object(Seq<(Seq<char>, Seq<char>)>),
}

/// The model of a list of keys with values.
pub open spec fn entries_view(v: Seq<(String, String)>) -> Seq<(Seq<char>, Seq<char>)> {
    v.map_values(|e: (String, String)| (e.0@, e.1@))
}

/// The keys of a list of entries.
pub open spec fn keys_of(e: Seq<(Seq<char>, Seq<char>)>) -> Seq<Seq<char>> {
    e.map_values(|p: (Seq<char>, Seq<char>)| p.0)
}

impl View for JsonNode {
    type V = JsonView;

    open spec fn view(&self) -> JsonView {
        match self {
            JsonNode::Null => JsonView::Null,
            JsonNode::Bool(b) => JsonView::Bool(*b),
            JsonNode::Number(n) => JsonView::Number(n@),
            JsonNode::Text(s) => JsonView::Text(s@),
            JsonNode::Array(a) => JsonView::Array(text::views(a@)),
            JsonNode::Object(o) => JsonView::Object(entries_view(o@)),
        }
    }
}

/// What `serde_json` reads from a text: the outermost level, or nothing where
/// the text is no JSON.
pub uninterp spec fn json_level(text: Seq<char>) -> Option<JsonView>;

/// The compact text that `serde_json` prints for the value it reads from a
/// text, or nothing where the text is no JSON.
pub uninterp spec fn json_canonical(text: Seq<char>) -> Option<Seq<char>>;

/// The text that `serde_json` prints for a string.
pub uninterp spec fn json_string(s: Seq<char>) -> Seq<char>;

/// The text that `serde_json` prints for an array of the values of some texts.
pub uninterp spec fn json_array(items: Seq<Seq<char>>) -> Seq<char>;

/// The text that `serde_json` prints for a map from keys to the values of some
/// texts.
pub uninterp spec fn json_object(entries: Seq<(Seq<char>, Seq<char>)>) -> Seq<char>;

/// Whether `serde_json` reads two equal values, or none, from two texts.
pub uninterp spec fn json_equal(a: Seq<char>, b: Seq<char>) -> bool;

/// The double, by its bits, that `serde_json` reads from the text of a number.
pub uninterp spec fn json_double(text: Seq<char>) -> Option<u64>;

/// Whether a text is what `serde_json` prints for the value it holds.
pub open spec fn is_canonical(text: Seq<char>) -> bool {
    json_canonical(text) == Some(text)
}

/// `serde_json::from_str` into a `Value`: the variant read, with the elements
/// or members below it printed by `Value::to_string`. An object's members come
/// in the order of `serde_json::Map`, which is ascending by key and holds each
/// key once; what is printed reads back as the value it was printed from.
#[verifier::external_body]
pub(crate) fn parse(text: &str) -> (r: Option<JsonNode>)
    ensures
        json_level(text@) == (match r {
            Some(n) => Some(n@),
            None => None,
        }),
        r matches Some(JsonNode::Object(o)) ==> text::strictly_sorted(keys_of(entries_view(o@)))
            && (forall|i: int|
            0 <= i < o@.len() ==> is_canonical((#[trigger] entries_view(o@)[i]).1)),
        r is Some <==> json_canonical(text@) is Some,
{
    match serde_json::from_str::<Value>(text) {
        Err(_) => None,
        Ok(Value::Null) => Some(JsonNode::Null),
        Ok(Value::Bool(b)) => Some(JsonNode::Bool(b)),
        Ok(Value::Number(n)) => Some(JsonNode::Number(n.to_string())),
        Ok(Value::String(s)) => Some(JsonNode::Text(s)),
        Ok(Value::Array(a)) => Some(JsonNode::Array(a.iter().map(|v| v.to_string()).collect())),
        Ok(Value::Object(m)) => Some(
            JsonNode::Object(m.into_iter().map(|(k, v)| (k, v.to_string())).collect()),
        ),
    }
}

/// `serde_json::from_str` into a `Value`, then `Value::to_string`: the compact
/// text of the value read.
#[verifier::external_body]
pub(crate) fn canonical(text: &str) -> (r: Option<String>)
    ensures
        json_canonical(text@) == text::opt_view(r),
{
    serde_json::from_str::<Value>(text).ok().map(|v| v.to_string())
}

/// `serde_json::to_string` of a string: a JSON string that reads back as it.
#[verifier::external_body]
pub(crate) fn text_value(s: &str) -> (r: String)
    ensures
        r@ == json_string(s@),
        is_canonical(r@),
        json_level(r@) == Some(JsonView::Text(s@)),
{
    Value::from(s).to_string()
}

/// Whether a text is the printed form of a JSON string.
pub open spec fn is_string(text: Seq<char>) -> bool {
    is_canonical(text) && json_level(text) matches Some(JsonView::Text(_))
}

/// `Value::to_string` of an array of the values that `serde_json::from_str`
/// reads from the given texts, `null` where a text is no JSON. What it prints
/// for printed strings reads back as the array of them.
#[verifier::external_body]
pub(crate) fn array_value(items: &Vec<String>) -> (r: String)
    ensures
        r@ == json_array(text::views(items@)),
        (forall|i: int| 0 <= i < items@.len() ==> is_string(#[trigger] text::views(items@)[i]))
            ==> is_canonical(r@) && json_level(r@) == Some(
            JsonView::Array(text::views(items@)),
        ),
{
    let values: Vec<Value> = items
        .iter()
        .map(|v| serde_json::from_str::<Value>(v).unwrap_or_default())
        .collect();
    Value::Array(values).to_string()
}

/// `Value::to_string` of an object from the keys to the values that
/// `serde_json::from_str` reads from the given texts, `null` where a text is no
/// JSON. What it prints for ascending keys and printed values is, where it is
/// read back at all (`serde_json` bounds the depth it reads), an object of those
/// entries, and is printed the same again.
#[verifier::external_body]
pub(crate) fn object_value(entries: &Vec<(String, String)>) -> (r: String)
    ensures
        r@ == json_object(entries_view(entries@)),
        text::strictly_sorted(keys_of(entries_view(entries@))) && (forall|i: int|
            0 <= i < entries@.len() ==> is_canonical((#[trigger] entries_view(entries@)[i]).1))
            ==> (json_level(r@) matches Some(level) ==> level == JsonView::Object(
            entries_view(entries@),
        ) && is_canonical(r@)),
{
    let members: serde_json::Map<String, Value> = entries
        .iter()
        .map(|(k, v)| (k.clone(), serde_json::from_str::<Value>(v).unwrap_or_default()))
        .collect();
    Value::Object(members).to_string()
}

/// Equality of the `Value`s that `serde_json::from_str` reads from two texts,
/// objects compared whatever the order of their members; two texts of which
/// none is JSON count as equal.
#[verifier::external_body]
pub(crate) fn equal(a: &str, b: &str) -> (r: bool)
    ensures
        r == json_equal(a@, b@),
        a@ == b@ ==> r,
{
    serde_json::from_str::<Value>(a).ok() == serde_json::from_str::<Value>(b).ok()
}

/// `Value::as_f64` of the text of a number, by its bits: nothing where the text
/// is no JSON number. JSON has no number that is none.
#[verifier::external_body]
pub(crate) fn double(text: &str) -> (r: Option<Score>)
    ensures
        json_double(text@) == (match r {
            Some(s) => Some(s.bits),
            None => None,
        }),
        r matches Some(s) ==> !s.nan(),
{
    let value = serde_json::from_str::<Value>(text).ok().and_then(|v| v.as_f64());
    value.map(|x| Score { bits: x.to_bits() })
}

/// The value of a key in a list of entries, where it stands there.
pub open spec fn lookup(e: Seq<(Seq<char>, Seq<char>)>, key: Seq<char>) -> Option<Seq<char>>
    decreases e.len(),
{
    if e.len() == 0 {
        None
    } else if e.last().0 == key {
        Some(e.last().1)
    } else {
        lookup(e.drop_last(), key)
    }
}

/// The value of a key in a list of entries.
pub fn find(entries: &Vec<(String, String)>, key: &str) -> (r: Option<String>)
    ensures
        text::opt_view(r) == lookup(entries_view(entries@), key@),
{
    let mut i: usize = entries.len();
    assert(entries_view(entries@).take(i as int) == entries_view(entries@));
    while i > 0
        invariant
            i <= entries@.len(),
            lookup(entries_view(entries@), key@) == lookup(
                entries_view(entries@).take(i as int),
                key@,
            ),
        decreases i,
    {
        let ghost all = entries_view(entries@);
        i -= 1;
        assert(all.take(i + 1).drop_last() == all.take(i as int));
        assert(all.take(i + 1).last() == all[i as int]);
        if same(entries[i].0.as_str(), key) {
            return Some(entries[i].1.clone());
        }
    }
    None
}

/// An element of an array, where there is one.
pub open spec fn element(items: Seq<Seq<char>>, i: int) -> Option<Seq<char>> {
    if i < items.len() {
        Some(items[i])
    } else {
        None
    }
}

/// An element of an array, where there is one.
pub fn element_at(items: &Vec<String>, i: usize) -> (r: Option<String>)
    ensures
        text::opt_view(r) == element(text::views(items@), i as int),
{
    if i < items.len() {
        Some(items[i].clone())
    } else {
        None
    }
}

/// The string that a JSON text holds, where it holds one.
pub open spec fn text_in(value: Option<Seq<char>>) -> Option<Seq<char>> {
    match value {
        Some(t) => match json_level(t) {
            Some(JsonView::Text(s)) => Some(s),
            _ => None,
        },
        None => None,
    }
}

/// Reads the string that a JSON text holds.
pub fn read_text(value: Option<String>) -> (r: Option<String>)
    ensures
        text::opt_view(r) == text_in(text::opt_view(value)),
{
    match value {
        Some(t) => match parse(t.as_str()) {
            Some(JsonNode::Text(s)) => Some(s),
            _ => None,
        },
        None => None,
    }
}

/// The string under a field that may be missing or null; nothing where another
/// value stands there.
pub open spec fn nullable_text(value: Option<Seq<char>>) -> Option<Option<Seq<char>>> {
    match value {
        None => Some(None),
        Some(t) => match json_level(t) {
            Some(JsonView::Null) => Some(None),
            Some(JsonView::Text(s)) => Some(Some(s)),
            _ => None,
        },
    }
}

/// Reads the string under a field that may be missing or null.
pub fn read_nullable(value: Option<String>) -> (r: Option<Option<String>>)
    ensures
        nullable_text(text::opt_view(value)) == (match r {
            Some(s) => Some(text::opt_view(s)),
            None => None,
        }),
{
    match value {
        None => Some(None),
        Some(t) => match parse(t.as_str()) {
            Some(JsonNode::Null) => Some(None),
            Some(JsonNode::Text(s)) => Some(Some(s)),
            _ => None,
        },
    }
}

/// The JSON text of an optional string.
pub open spec fn optional_text(s: Option<Seq<char>>) -> Seq<char> {
    match s {
        Some(t) => json_string(t),
        None => "null"@,
    }
}

/// The JSON text of an optional string.
pub fn optional_value(s: &Option<String>) -> (r: String)
    ensures
        r@ == optional_text(text::opt_view(*s)),
{
    match s {
        Some(t) => text_value(t.as_str()),
        None => "null".to_owned(),
    }
}

/// The JSON text of a truth value.
pub open spec fn bool_text(b: bool) -> Seq<char> {
    if b {
        "true"@
    } else {
        "false"@
    }
}

/// The JSON text of a truth value.
pub fn bool_value(b: bool) -> (r: String)
    ensures
        r@ == bool_text(b),
{
    if b {
        "true".to_owned()
    } else {
        "false".to_owned()
    }
}

/// The JSON texts of a list of strings.
pub open spec fn string_texts(v: Seq<Seq<char>>) -> Seq<Seq<char>> {
    v.map_values(|s: Seq<char>| json_string(s))
}

/// The JSON text of a list of strings.
pub fn strings_value(v: &Vec<String>) -> (r: String)
    ensures
        r@ == json_array(string_texts(text::views(v@))),
        is_canonical(r@),
        json_level(r@) == Some(JsonView::Array(string_texts(text::views(v@)))),
        forall|i: int|
            0 <= i < v@.len() ==> json_level(#[trigger] string_texts(text::views(v@))[i]) == Some(
                JsonView::Text(v@[i]@),
            ),
{
    let mut items: Vec<String> = Vec::new();
    let mut i: usize = 0;
    while i < v.len()
        invariant
            i <= v@.len(),
            text::views(items@) == string_texts(text::views(v@)).take(i as int),
            forall|k: int|
                0 <= k < i ==> is_string(#[trigger] string_texts(text::views(v@))[k])
                    && json_level(string_texts(text::views(v@))[k]) == Some(
                    JsonView::Text(v@[k]@),
                ),
        decreases v.len() - i,
    {
        items.push(text_value(v[i].as_str()));
        proof {
            let all = string_texts(text::views(v@));
            assert(all.take(i + 1) == all.take(i as int).push(all[i as int]));
            assert(text::views(items@) == all.take(i + 1));
        }
        i += 1;
    }
    proof {
        let all = string_texts(text::views(v@));
        assert(all.take(v@.len() as int) == all);
    }
    array_value(&items)
}

/// An entry of an object.
pub fn entry(key: &str, value: String) -> (r: (String, String))
    ensures
        (r.0@, r.1@) == (key@, value@),
{
    (key.to_owned(), value)
}

/// The value of a key is that of its last entry; a key without an entry has none.
pub proof fn law_last_entry_counts(e: Seq<(Seq<char>, Seq<char>)>, key: Seq<char>, i: int)
    ensures
        0 <= i < e.len() && e[i].0 == key && (forall|k: int|
            i < k < e.len() ==> (#[trigger] e[k]).0 != key) ==> lookup(e, key) == Some(e[i].1),
        lookup(e, key) is None <==> forall|k: int| 0 <= k < e.len() ==> (#[trigger] e[k]).0 != key,
    decreases e.len(),
{
    if e.len() > 0 {
        let d = e.drop_last();
        let n = e.len() - 1;
        law_last_entry_counts(d, key, i);
        assert(forall|k: int| 0 <= k < d.len() ==> #[trigger] d[k] == e[k]);
        assert(e[n] == e.last());
        if e.last().0 != key {
            if lookup(d, key) is None {
                assert forall|k: int| 0 <= k < e.len() implies (#[trigger] e[k]).0 != key by {
                    if k < n {
                        assert(d[k].0 != key);
                    }
                }
            } else {
                let k = choose|k: int| 0 <= k < d.len() && (#[trigger] d[k]).0 == key;
                assert(e[k].0 == key);
            }
            if 0 <= i < n && (forall|k: int| i < k < e.len() ==> (#[trigger] e[k]).0 != key) {
                assert forall|k: int| i < k < d.len() implies (#[trigger] d[k]).0 != key by {
                    assert(d[k] == e[k]);
                }
            }
        }
    }
}

/// An array has an element at every place up to its length, and none behind; and
/// a string is read only where a value is one.
pub proof fn law_values_are_read_as_they_are(items: Seq<Seq<char>>, i: int, t: Seq<char>)
    requires
        0 <= i,
    ensures
        element(items, i) is Some <==> i < items.len(),
        i < items.len() ==> element(items, i) == Some(items[i]),
        text_in(None) is None,
        text_in(Some(t)) is Some <==> (json_level(t) matches Some(JsonView::Text(_))),
        text_in(Some(t)) matches Some(s) ==> json_level(t) == Some(JsonView::Text(s)),
        nullable_text(None) == Some(None::<Seq<char>>),
        nullable_text(Some(t)) == Some(None::<Seq<char>>) <==> json_level(t) == Some(
            JsonView::Null,
        ),
        nullable_text(Some(t)) is None <==> !(json_level(t) matches Some(JsonView::Null))
            && text_in(Some(t)) is None,
{
}

} // verus!
