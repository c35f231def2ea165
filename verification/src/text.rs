//! Text helpers shared by the whole library, with exact models over the
//! characters of a string.

use vstd::prelude::*;
use vstd::string::*;

verus! {

/// The Unicode `White_Space` property.
pub open spec fn is_white_space(c: char) -> bool {
    ||| '\u{9}' <= c <= '\u{d}'
    ||| c == ' '
    ||| c == '\u{85}'
    ||| c == '\u{a0}'
    ||| c == '\u{1680}'
    ||| '\u{2000}' <= c <= '\u{200a}'
    ||| c == '\u{2028}'
    ||| c == '\u{2029}'
    ||| c == '\u{202f}'
    ||| c == '\u{205f}'
    ||| c == '\u{3000}'
}

/// Whether a character is white space.
pub fn white_space(c: char) -> (r: bool)
    ensures
        r == is_white_space(c),
{
    ('\u{9}' <= c && c <= '\u{d}') || c == ' ' || c == '\u{85}' || c == '\u{a0}'
        || c == '\u{1680}' || ('\u{2000}' <= c && c <= '\u{200a}') || c == '\u{2028}'
        || c == '\u{2029}' || c == '\u{202f}' || c == '\u{205f}' || c == '\u{3000}'
}

/// `s` without its leading white space.
pub open spec fn trim_front(s: Seq<char>) -> Seq<char>
    decreases s.len(),
{
    if s.len() > 0 && is_white_space(s.first()) {
        trim_front(s.drop_first())
    } else {
        s
    }
}

/// `s` without its trailing white space.
pub open spec fn trim_back(s: Seq<char>) -> Seq<char>
    decreases s.len(),
{
    if s.len() > 0 && is_white_space(s.last()) {
        trim_back(s.drop_last())
    } else {
        s
    }
}

/// `s` without leading and trailing white space.
pub open spec fn trimmed(s: Seq<char>) -> Seq<char> {
    trim_back(trim_front(s))
}

/// `str::trim`: the text without leading and trailing characters of the
/// Unicode `White_Space` property.
pub assume_specification[ str::trim ](s: &str) -> (r: &str)
    ensures
        r@ == trimmed(s@),
;

/// `String::push`: the character goes to the end.
pub assume_specification[ String::push ](s: &mut String, c: char)
    ensures
        final(s)@ == old(s)@.push(c),
;

/// The lower-case form of an ASCII letter, and any other character itself.
pub open spec fn ascii_lower(c: char) -> char {
    if 'A' <= c <= 'Z' {
        ((c as u32 + 32) as u32) as char
    } else {
        c
    }
}

/// The Unicode lower-case mapping of a text, as `str::to_lowercase` gives it.
pub uninterp spec fn lowercase(s: Seq<char>) -> Seq<char>;

/// `str::to_lowercase`: the Unicode lower-case mapping. On ASCII text it maps
/// `A` to `Z` onto `a` to `z` and keeps every other character.
#[verifier::external_body]
pub(crate) fn to_lower(s: &str) -> (r: String)
    ensures
        r@ == lowercase(s@),
        s.is_ascii() ==> r@ == ascii_lowered(s@),
{
    s.to_lowercase()
}

/// The lower-case form of the ASCII letters of a text.
pub open spec fn ascii_lowered(s: Seq<char>) -> Seq<char> {
    s.map_values(|c: char| ascii_lower(c))
}

/// The lower-case form of an ASCII letter, and any other character itself.
pub fn lower_char(c: char) -> (r: char)
    ensures
        r == ascii_lower(c),
{
    if 'A' <= c && c <= 'Z' {
        (c as u8 + 32) as char
    } else {
        c
    }
}

fn lowers_to(c: char, d: char) -> (r: bool)
    ensures
        r == (ascii_lower(c) == d),
{
    if 'A' <= c && c <= 'Z' {
        c as u32 + 32 == d as u32
    } else {
        c == d
    }
}

/// Whether a text, with its ASCII letters in lower case, is `t`.
pub fn same_lowered(s: &str, t: &str) -> (r: bool)
    ensures
        r == (ascii_lowered(s@) == t@),
{
    let sc: Vec<char> = chars_of(s);
    let tc: Vec<char> = chars_of(t);
    if sc.len() != tc.len() {
        return false;
    }
    let mut i: usize = 0;
    while i < sc.len()
        invariant
            i <= sc@.len(),
            sc@ == s@,
            tc@ == t@,
            sc@.len() == tc@.len(),
            forall|k: int| 0 <= k < i ==> ascii_lower(#[trigger] s@[k]) == t@[k],
        decreases sc.len() - i,
    {
        if !lowers_to(sc[i], tc[i]) {
            assert(ascii_lowered(s@)[i as int] != t@[i as int]);
            return false;
        }
        i += 1;
    }
    assert(ascii_lowered(s@) =~= t@);
    true
}

/// The debug form of a text, as the standard library prints it.
pub uninterp spec fn debug_form(s: Seq<char>) -> Seq<char>;

/// The `Debug` form of a `str`: quoted, with escapes.
#[verifier::external_body]
pub(crate) fn debug_text(s: &str) -> (r: String)
    ensures
        r@ == debug_form(s@),
{
    format!("{:?}", s)
}

/// The length of a text in UTF-8.
pub open spec fn byte_len(s: Seq<char>) -> nat {
    vstd::utf8::encode_utf8(s).len()
}

/// The length of a text in UTF-8.
pub fn byte_count(s: &str) -> (r: usize)
    ensures
        r == byte_len(s@),
{
    s.as_bytes().len()
}

/// The texts of a list other than `t`, in order.
pub open spec fn without(v: Seq<Seq<char>>, t: Seq<char>) -> Seq<Seq<char>>
    decreases v.len(),
{
    if v.len() == 0 {
        v
    } else if v.last() == t {
        without(v.drop_last(), t)
    } else {
        without(v.drop_last(), t).push(v.last())
    }
}

/// The texts of a list other than `t`, in order.
pub fn all_but(v: &Vec<String>, t: &str) -> (r: Vec<String>)
    ensures
        views(r@) == without(views(v@), t@),
{
    let ghost all = views(v@);
    let mut out: Vec<String> = Vec::new();
    assert(views(out@) =~= all.take(0));
    let mut i: usize = 0;
    while i < v.len()
        invariant
            i <= v@.len(),
            all == views(v@),
            views(out@) == without(all.take(i as int), t@),
        decreases v.len() - i,
    {
        assert(all.take(i + 1).drop_last() =~= all.take(i as int));
        assert(all.take(i + 1).last() == v@[i as int]@);
        if !same(v[i].as_str(), t) {
            let ghost before = views(out@);
            out.push(v[i].clone());
            assert(views(out@) =~= before.push(v@[i as int]@));
        }
        i += 1;
    }
    assert(all.take(i as int) =~= all);
    out
}

/// The characters of a text.
pub fn chars_of(s: &str) -> (r: Vec<char>)
    ensures
        r@ == s@,
{
    let mut out: Vec<char> = Vec::new();
    for c in it: s.chars()
        invariant
            out@ == s@.take(it.index() as int),
            it.seq() == s@,
    {
        out.push(c);
        assert(s@.take(it.index() as int + 1) == s@.take(it.index() as int).push(c));
    }
    assert(s@.take(s@.len() as int) == s@);
    out
}

/// `<str as PartialEq>::eq`: two texts are equal when their characters are.
pub assume_specification[ <str as PartialEq>::eq ](a: &str, b: &str) -> (r: bool)
    ensures
        r == (a@ == b@),
;

/// The first place of a character, or the length where there is none.
pub open spec fn first_place(s: Seq<char>, c: char) -> int
    decreases s.len(),
{
    if s.len() == 0 || s.first() == c {
        0
    } else {
        1 + first_place(s.drop_first(), c)
    }
}

/// The first place of a character, or the length where there is none.
pub fn find_char(s: &Vec<char>, c: char) -> (r: usize)
    ensures
        r <= s@.len(),
        r == first_place(s@, c),
        r < s@.len() ==> s@[r as int] == c,
        r == s@.len() ==> !s@.contains(c),
        forall|k: int| 0 <= k < r ==> s@[k] != c,
{
    let mut i: usize = 0;
    assert(s@.skip(0) =~= s@);
    while i < s.len()
        invariant
            i <= s@.len(),
            forall|k: int| 0 <= k < i ==> s@[k] != c,
            first_place(s@, c) == i + first_place(s@.skip(i as int), c),
        decreases s.len() - i,
    {
        assert(s@.skip(i as int).first() == s@[i as int]);
        if s[i] == c {
            return i;
        }
        assert(s@.skip(i as int).drop_first() =~= s@.skip(i + 1));
        i += 1;
    }
    i
}

/// What stands at the first place of a character.
pub proof fn lemma_first_place(s: Seq<char>, c: char)
    ensures
        0 <= first_place(s, c) <= s.len(),
        first_place(s, c) < s.len() ==> s[first_place(s, c)] == c,
        forall|k: int| 0 <= k < first_place(s, c) ==> #[trigger] s[k] != c,
    decreases s.len(),
{
    if s.len() > 0 && s.first() != c {
        let rest = s.drop_first();
        lemma_first_place(rest, c);
        assert forall|k: int| 0 <= k < first_place(s, c) implies #[trigger] s[k] != c by {
            if k > 0 {
                assert(s[k] == rest[k - 1]);
            }
        }
    }
}

/// Whether two texts hold the same characters.
pub fn same(a: &str, b: &str) -> (r: bool)
    ensures
        r == (a@ == b@),
{
    *a == *b
}

/// The models of a list of texts.
pub open spec fn views(v: Seq<String>) -> Seq<Seq<char>> {
    v.map_values(|s: String| s@)
}

/// The model of an optional text.
pub open spec fn opt_view(s: Option<String>) -> Option<Seq<char>> {
    match s {
        Some(t) => Some(t@),
        None => None,
    }
}

/// A copy of a list of texts.
pub fn clone_all(v: &Vec<String>) -> (r: Vec<String>)
    ensures
        r@ == v@,
{
    let mut out: Vec<String> = Vec::new();
    let mut i: usize = 0;
    while i < v.len()
        invariant
            i <= v.len(),
            out@ == v@.take(i as int),
        decreases v.len() - i,
    {
        out.push(v[i].clone());
        i += 1;
        assert(v@.take(i as int) == v@.take(i - 1).push(v@[i - 1]));
    }
    assert(v@.take(v@.len() as int) == v@);
    out
}

/// The position of `t` in a list of texts.
pub open spec fn holds(v: Seq<Seq<char>>, t: Seq<char>) -> bool {
    exists|i: int| 0 <= i < v.len() && #[trigger] v[i] == t
}

/// Whether a list holds a text.
pub fn contains_text(v: &Vec<String>, t: &str) -> (r: bool)
    ensures
        r == holds(views(v@), t@),
{
    let mut i: usize = 0;
    while i < v.len()
        invariant
            i <= v.len(),
            forall|j: int| 0 <= j < i ==> #[trigger] views(v@)[j] != t@,
        decreases v.len() - i,
    {
        if same(v[i].as_str(), t) {
            assert(views(v@)[i as int] == t@);
            return true;
        }
        i += 1;
    }
    false
}

/// The decimal digits of a number, without leading zeros.
pub open spec fn decimal(n: nat) -> Seq<char>
    decreases n,
{
    if n < 10 {
        seq![digit(n)]
    } else {
        decimal(n / 10).push(digit(n % 10))
    }
}

/// The character of one decimal digit.
pub open spec fn digit(d: nat) -> char {
    ((48 + d) as u32) as char
}

/// The character of one decimal digit.
pub fn digit_char(d: u64) -> (c: char)
    requires
        d < 10,
    ensures
        c == digit(d as nat),
{
    match d {
        0 => '0',
        1 => '1',
        2 => '2',
        3 => '3',
        4 => '4',
        5 => '5',
        6 => '6',
        7 => '7',
        8 => '8',
        _ => '9',
    }
}

/// The decimal form of a number.
pub fn u64_text(n: u64) -> (r: String)
    ensures
        r@ == decimal(n as nat),
    decreases n,
{
    if n < 10 {
        let mut out: String = String::new();
        out.push(digit_char(n));
        assert(out@ == seq![digit(n as nat)]);
        out
    } else {
        let mut out: String = u64_text(n / 10);
        out.push(digit_char(n % 10));
        out
    }
}

/// The decimal form of a signed number.
pub open spec fn signed_decimal(n: int) -> Seq<char> {
    if n < 0 {
        seq!['-'] + decimal((-n) as nat)
    } else {
        decimal(n as nat)
    }
}

/// The decimal form of a signed number.
pub fn i64_text(n: i64) -> (r: String)
    ensures
        r@ == signed_decimal(n as int),
{
    if n < 0 {
        let m: i128 = -(n as i128);
        let mut out: String = String::new();
        out.push('-');
        let digits: String = u64_text(m as u64);
        out.append(digits.as_str());
        assert(out@ == seq!['-'] + decimal((-(n as int)) as nat));
        out
    } else {
        u64_text(n as u64)
    }
}

/// The texts of a list with `sep` between each two of them.
pub open spec fn joined(v: Seq<Seq<char>>, sep: Seq<char>) -> Seq<char>
    decreases v.len(),
{
    if v.len() == 0 {
        Seq::empty()
    } else if v.len() == 1 {
        v[0]
    } else {
        joined(v.drop_last(), sep) + sep + v.last()
    }
}

/// Joins a list of texts.
pub fn join(v: &Vec<String>, sep: &str) -> (r: String)
    ensures
        r@ == joined(views(v@), sep@),
{
    let mut out: String = String::new();
    let mut i: usize = 0;
    while i < v.len()
        invariant
            i <= v.len(),
            out@ == joined(views(v@).take(i as int), sep@),
        decreases v.len() - i,
    {
        let ghost before = out@;
        if i > 0 {
            out.append(sep);
        }
        out.append(v[i].as_str());
        proof {
            let done = views(v@).take(i as int);
            let next = views(v@).take(i + 1);
            assert(next.drop_last() == done);
            assert(next.last() == v@[i as int]@);
            if i == 0 {
                assert(out@ == v@[0]@);
            }
        }
        i += 1;
    }
    assert(views(v@).take(v@.len() as int) == views(v@));
    out
}

/// Whether `p` is the beginning of `s`.
pub open spec fn starts(s: Seq<char>, p: Seq<char>) -> bool {
    p.len() <= s.len() && s.take(p.len() as int) == p
}

/// Whether `p` is the end of `s`.
pub open spec fn ends(s: Seq<char>, p: Seq<char>) -> bool {
    p.len() <= s.len() && s.skip(s.len() - p.len()) == p
}

/// Whether the characters of `p` stand in `s` at position `at`.
pub open spec fn stands_at(s: Seq<char>, p: Seq<char>, at: int) -> bool {
    0 <= at && at + p.len() <= s.len() && s.subrange(at, at + p.len()) == p
}

/// Whether `p` occurs in `s`.
pub open spec fn occurs(s: Seq<char>, p: Seq<char>) -> bool {
    exists|at: int| #[trigger] stands_at(s, p, at)
}

fn match_at(s: &Vec<char>, p: &Vec<char>, at: usize) -> (r: bool)
    requires
        at + p@.len() <= s@.len(),
    ensures
        r == stands_at(s@, p@, at as int),
{
    let n: usize = s.len();
    let mut i: usize = 0;
    while i < p.len()
        invariant
            i <= p@.len(),
            n == s@.len(),
            at + p@.len() <= s@.len(),
            forall|k: int| 0 <= k < i ==> s@[at + k] == #[trigger] p@[k],
        decreases p.len() - i,
    {
        if s[at + i] != p[i] {
            assert(s@.subrange(at as int, at + p@.len())[i as int] != p@[i as int]);
            return false;
        }
        i += 1;
    }
    assert(s@.subrange(at as int, at + p@.len()) =~= p@);
    true
}

/// Whether a text occurs in another.
pub fn contains(s: &str, p: &str) -> (r: bool)
    ensures
        r == occurs(s@, p@),
{
    let sc: Vec<char> = chars_of(s);
    let pc: Vec<char> = chars_of(p);
    if pc.len() > sc.len() {
        return false;
    }
    let mut at: usize = 0;
    while at <= sc.len() - pc.len()
        invariant
            sc@ == s@,
            pc@ == p@,
            pc@.len() <= sc@.len(),
            at <= sc@.len() - pc@.len() + 1,
            forall|k: int| 0 <= k < at ==> !#[trigger] stands_at(s@, p@, k),
        decreases sc@.len() + 1 - at,
    {
        if match_at(&sc, &pc, at) {
            assert(stands_at(s@, p@, at as int));
            return true;
        }
        if at == sc.len() - pc.len() {
            return false;
        }
        at += 1;
    }
    false
}

/// The text behind a prefix, where it has that prefix.
pub fn strip_prefix<'a>(s: &'a str, p: &str) -> (r: Option<&'a str>)
    ensures
        starts(s@, p@) ==> (r matches Some(t) && t@ == s@.skip(p@.len() as int)),
        !starts(s@, p@) ==> r is None,
{
    let sc: Vec<char> = chars_of(s);
    let pc: Vec<char> = chars_of(p);
    if pc.len() <= sc.len() && match_at(&sc, &pc, 0) {
        assert(s@.take(p@.len() as int) == s@.subrange(0, p@.len() as int));
        let t: &str = s.substring_char(pc.len(), sc.len());
        assert(t@ == s@.skip(p@.len() as int));
        Some(t)
    } else {
        proof {
            if starts(s@, p@) {
                assert(s@.take(p@.len() as int) == s@.subrange(0, p@.len() as int));
            }
        }
        None
    }
}

/// The text before a suffix, where it has that suffix.
pub fn strip_suffix<'a>(s: &'a str, p: &str) -> (r: Option<&'a str>)
    ensures
        ends(s@, p@) ==> (r matches Some(t) && t@ == s@.take(s@.len() - p@.len())),
        !ends(s@, p@) ==> r is None,
{
    let sc: Vec<char> = chars_of(s);
    let pc: Vec<char> = chars_of(p);
    if pc.len() <= sc.len() && match_at(&sc, &pc, sc.len() - pc.len()) {
        proof {
            let at = s@.len() - p@.len();
            assert(s@.skip(at) == s@.subrange(at, at + p@.len()));
        }
        let t: &str = s.substring_char(0, sc.len() - pc.len());
        assert(t@ == s@.take(s@.len() - p@.len()));
        Some(t)
    } else {
        proof {
            if ends(s@, p@) {
                let at = s@.len() - p@.len();
                assert(s@.skip(at) == s@.subrange(at, at + p@.len()));
            }
        }
        None
    }
}

/// A text without a closing fence.
pub open spec fn without_close(s: Seq<char>) -> Seq<char> {
    if ends(s, "```"@) {
        s.take(s.len() - "```"@.len())
    } else {
        s
    }
}

/// A reply without the fences of a code block.
pub open spec fn unfenced(raw: Seq<char>) -> Seq<char> {
    let s = trimmed(raw);
    if starts(s, "```json"@) {
        trimmed(without_close(s.skip("```json"@.len() as int)))
    } else if starts(s, "```"@) {
        trimmed(without_close(s.skip("```"@.len() as int)))
    } else {
        s
    }
}

/// Takes the fences of a code block off a reply.
pub fn unfence(raw: &str) -> (r: String)
    ensures
        r@ == unfenced(raw@),
{
    let s: &str = raw.trim();
    match strip_prefix(s, "```json") {
        Some(rest) => match strip_suffix(rest, "```") {
            Some(inner) => inner.trim().to_owned(),
            None => rest.trim().to_owned(),
        },
        None => match strip_prefix(s, "```") {
            Some(rest) => match strip_suffix(rest, "```") {
                Some(inner) => inner.trim().to_owned(),
                None => rest.trim().to_owned(),
            },
            None => s.to_owned(),
        },
    }
}

/// What a reader of a list in one text has seen: the finished items, and the
/// characters of the current one. Empty items are dropped.
pub open spec fn split_state(s: Seq<char>, sep: char) -> (Seq<Seq<char>>, Seq<char>)
    decreases s.len(),
{
    if s.len() == 0 {
        (Seq::empty(), Seq::empty())
    } else {
        let before = split_state(s.drop_last(), sep);
        if s.last() == sep {
            (pieces_with(before), Seq::empty())
        } else {
            (before.0, before.1.push(s.last()))
        }
    }
}

/// The finished items with the current one, unless that is empty.
pub open spec fn pieces_with(state: (Seq<Seq<char>>, Seq<char>)) -> Seq<Seq<char>> {
    if state.1.len() > 0 {
        state.0.push(state.1)
    } else {
        state.0
    }
}

/// The non-empty items between the separators of a text.
pub open spec fn pieces(s: Seq<char>, sep: char) -> Seq<Seq<char>> {
    pieces_with(split_state(s, sep))
}

/// Splits a text at a separator and drops the empty items.
pub fn split_pieces(s: &str, sep: char) -> (r: Vec<String>)
    ensures
        views(r@) == pieces(s@, sep),
{
    let sc: Vec<char> = chars_of(s);
    let mut done: Vec<String> = Vec::new();
    let mut current: String = String::new();
    let mut i: usize = 0;
    while i < sc.len()
        invariant
            sc@ == s@,
            i <= sc@.len(),
            (views(done@), current@) == split_state(s@.take(i as int), sep),
        decreases sc.len() - i,
    {
        proof {
            let next = s@.take(i + 1);
            assert(next.drop_last() == s@.take(i as int));
            assert(next.last() == s@[i as int]);
        }
        if sc[i] == sep {
            let ghost state = (views(done@), current@);
            if !current.as_str().is_empty() {
                done.push(current);
                assert(views(done@) =~= state.0.push(state.1));
            }
            current = String::new();
        } else {
            current.push(sc[i]);
        }
        i += 1;
    }
    assert(s@.take(s@.len() as int) == s@);
    let ghost state = (views(done@), current@);
    if !current.as_str().is_empty() {
        done.push(current);
        assert(views(done@) =~= state.0.push(state.1));
    }
    done
}

/// Lexicographic order of texts by the code points of their characters.
pub open spec fn text_lt(a: Seq<char>, b: Seq<char>) -> bool
    decreases a.len(),
{
    if b.len() == 0 {
        false
    } else if a.len() == 0 {
        true
    } else if a.first() == b.first() {
        text_lt(a.drop_first(), b.drop_first())
    } else {
        a.first() < b.first()
    }
}

/// No text is below itself.
pub proof fn lemma_text_lt_irreflexive(a: Seq<char>)
    ensures
        !text_lt(a, a),
    decreases a.len(),
{
    if a.len() > 0 {
        lemma_text_lt_irreflexive(a.drop_first());
    }
}

/// Of two different texts one is below the other, and only one.
pub proof fn lemma_text_lt_total(a: Seq<char>, b: Seq<char>)
    ensures
        a != b ==> text_lt(a, b) != text_lt(b, a),
    decreases a.len(),
{
    if a.len() == 0 || b.len() == 0 {
        if a.len() == 0 && b.len() == 0 {
            assert(a == b);
        }
    } else if a.first() == b.first() {
        lemma_text_lt_total(a.drop_first(), b.drop_first());
        if a.drop_first() == b.drop_first() {
            assert(a == seq![a.first()] + a.drop_first());
            assert(b == seq![b.first()] + b.drop_first());
        }
    }
}

/// The order of texts is transitive.
pub proof fn lemma_text_lt_transitive(a: Seq<char>, b: Seq<char>, c: Seq<char>)
    requires
        text_lt(a, b),
        text_lt(b, c),
    ensures
        text_lt(a, c),
    decreases a.len(),
{
    if a.len() > 0 && b.len() > 0 && c.len() > 0 && a.first() == b.first() && b.first()
        == c.first() {
        lemma_text_lt_transitive(a.drop_first(), b.drop_first(), c.drop_first());
    }
}

/// Whether a text is below another.
pub fn less(a: &str, b: &str) -> (r: bool)
    ensures
        r == text_lt(a@, b@),
{
    let ac: Vec<char> = chars_of(a);
    let bc: Vec<char> = chars_of(b);
    let mut i: usize = 0;
    assert(a@.skip(0) == a@);
    assert(b@.skip(0) == b@);
    while i < ac.len() && i < bc.len()
        invariant
            ac@ == a@,
            bc@ == b@,
            i <= ac@.len(),
            i <= bc@.len(),
            text_lt(a@, b@) == text_lt(a@.skip(i as int), b@.skip(i as int)),
        decreases ac.len() - i,
    {
        assert(a@.skip(i as int).drop_first() == a@.skip(i + 1));
        assert(b@.skip(i as int).drop_first() == b@.skip(i + 1));
        if ac[i] != bc[i] {
            return ac[i] < bc[i];
        }
        i += 1;
    }
    i < bc.len()
}

/// Whether each text of a list is below the next ones.
pub open spec fn strictly_sorted(v: Seq<Seq<char>>) -> bool {
    forall|i: int, j: int| 0 <= i < j < v.len() ==> text_lt(#[trigger] v[i], #[trigger] v[j])
}

/// `a` or below `b`.
pub open spec fn text_le(a: Seq<char>, b: Seq<char>) -> bool {
    a == b || text_lt(a, b)
}

/// Whether no text of a list is below an earlier one.
pub open spec fn sorted(v: Seq<Seq<char>>) -> bool {
    forall|i: int, j: int| 0 <= i < j < v.len() ==> text_le(#[trigger] v[i], #[trigger] v[j])
}

/// A text at or below one that is below `c` is below `c`.
proof fn lemma_le_lt(a: Seq<char>, b: Seq<char>, c: Seq<char>)
    requires
        text_le(a, b),
        text_lt(b, c),
    ensures
        text_lt(a, c),
{
    if a != b {
        lemma_text_lt_transitive(a, b, c);
    }
}

/// Where `t` belongs in a sorted list: the number of texts below it.
fn insertion_point(v: &Vec<String>, t: &str) -> (at: usize)
    requires
        sorted(views(v@)),
    ensures
        at <= v@.len(),
        forall|i: int| 0 <= i < at ==> text_lt(#[trigger] views(v@)[i], t@),
        forall|i: int| at <= i < v@.len() ==> !text_lt(#[trigger] views(v@)[i], t@),
{
    let ghost all = views(v@);
    let mut low: usize = 0;
    let mut high: usize = v.len();
    while low < high
        invariant
            low <= high <= v@.len(),
            all == views(v@),
            sorted(all),
            forall|i: int| 0 <= i < low ==> text_lt(#[trigger] all[i], t@),
            forall|i: int| high <= i < v@.len() ==> !text_lt(#[trigger] all[i], t@),
        decreases high - low,
    {
        let mid: usize = low + (high - low) / 2;
        if less(v[mid].as_str(), t) {
            proof {
                assert forall|i: int| 0 <= i < mid + 1 implies text_lt(#[trigger] all[i], t@) by {
                    if i < mid {
                        assert(text_le(all[i], all[mid as int]));
                        lemma_le_lt(all[i], all[mid as int], t@);
                    }
                }
            }
            low = mid + 1;
        } else {
            proof {
                assert forall|i: int| mid <= i < v@.len() implies !text_lt(#[trigger] all[i], t@) by {
                    if i > mid && text_lt(all[i], t@) {
                        assert(text_le(all[mid as int], all[i]));
                        lemma_le_lt(all[mid as int], all[i], t@);
                    }
                }
            }
            high = mid;
        }
    }
    low
}

/// The place of a text in a strictly sorted list.
pub fn locate(v: &Vec<String>, t: &str) -> (r: Option<usize>)
    requires
        strictly_sorted(views(v@)),
    ensures
        match r {
            Some(i) => i < v@.len() && v@[i as int]@ == t@,
            None => !holds(views(v@), t@),
        },
{
    let at: usize = insertion_point(v, t);
    if at < v.len() && same(v[at].as_str(), t) {
        Some(at)
    } else {
        proof {
            let all = views(v@);
            if holds(all, t@) {
                let k = choose|k: int| 0 <= k < all.len() && all[k] == t@;
                lemma_text_lt_irreflexive(t@);
                assert(!text_lt(all[k], t@));
                if k > at {
                    assert(text_lt(all[at as int], all[k]));
                }
            }
        }
        None
    }
}

/// The texts of a list in ascending order.
pub fn sort(v: Vec<String>) -> (r: Vec<String>)
    ensures
        sorted(views(r@)),
        views(r@).to_multiset() == views(v@).to_multiset(),
{
    let ghost all = views(v@);
    let mut out: Vec<String> = Vec::new();
    assert(views(out@) =~= all.take(0));
    let mut i: usize = 0;
    while i < v.len()
        invariant
            i <= v@.len(),
            all == views(v@),
            sorted(views(out@)),
            views(out@).to_multiset() == all.take(i as int).to_multiset(),
        decreases v.len() - i,
    {
        let at: usize = insertion_point(&out, v[i].as_str());
        let ghost before = views(out@);
        let ghost item = v@[i as int]@;
        out.insert(at, v[i].clone());
        proof {
            let now = views(out@);
            assert(now =~= before.insert(at as int, item));
            assert(all.take(i + 1) =~= all.take(i as int).push(item));
            before.to_multiset_ensures();
            all.take(i as int).to_multiset_ensures();
            vstd::seq_lib::to_multiset_insert(before, at as int, item);
            vstd::seq_lib::to_multiset_build(all.take(i as int), item);
            assert forall|a: int, b: int| 0 <= a < b < now.len() implies text_le(
                #[trigger] now[a],
                #[trigger] now[b],
            ) by {
                if b < at {
                    assert(now[a] == before[a] && now[b] == before[b]);
                } else if a > at {
                    assert(now[a] == before[a - 1] && now[b] == before[b - 1]);
                } else if a < at && b > at {
                    assert(now[a] == before[a] && now[b] == before[b - 1]);
                } else if b == at {
                    assert(now[a] == before[a]);
                } else {
                    assert(now[b] == before[b - 1]);
                    lemma_text_lt_total(now[a], now[b]);
                }
            }
        }
        i += 1;
    }
    assert(all.take(i as int) =~= all);
    out
}

/// The distinct texts of a list in ascending order.
pub fn sort_dedup(v: Vec<String>) -> (r: Vec<String>)
    ensures
        is_sorted_set(views(r@), views(v@)),
        views(r@) == sorted_set(views(v@)),
{
    let mut out: Vec<String> = Vec::new();
    let mut i: usize = 0;
    while i < v.len()
        invariant
            i <= v@.len(),
            strictly_sorted(views(out@)),
            forall|t: Seq<char>| holds(views(out@), t) <==> holds(views(v@).take(i as int), t),
        decreases v.len() - i,
    {
        let at: usize = insertion_point(&out, v[i].as_str());
        let ghost before = views(out@);
        let ghost item = v@[i as int]@;
        let ghost seen = views(v@).take(i as int);
        let ghost next = views(v@).take(i + 1);
        let present: bool = at < out.len() && same(out[at].as_str(), v[i].as_str());
        if !present {
            out.insert(at, v[i].clone());
        }
        proof {
            assert(next == seen.push(item));
            if present {
                assert(before[at as int] == item);
            } else {
                assert(views(out@) == before.insert(at as int, item));
                if at < before.len() {
                    lemma_text_lt_total(before[at as int], item);
                }
                assert forall|a: int, b: int| 0 <= a < b < views(out@).len() implies text_lt(
                    #[trigger] views(out@)[a],
                    #[trigger] views(out@)[b],
                ) by {
                    let now = views(out@);
                    if a < at && b > at {
                        assert(now[a] == before[a] && now[b] == before[b - 1]);
                    } else if b < at {
                        assert(now[a] == before[a] && now[b] == before[b]);
                    } else if a > at {
                        assert(now[a] == before[a - 1] && now[b] == before[b - 1]);
                    } else if a == at {
                        assert(now[b] == before[b - 1]);
                        lemma_text_lt_total(before[b - 1], item);
                        if before[b - 1] == item {
                            if b - 1 > at {
                                assert(text_lt(before[at as int], before[b - 1]));
                            }
                        }
                    } else {
                        assert(now[a] == before[a]);
                    }
                }
            }
            assert forall|t: Seq<char>| holds(views(out@), t) <==> holds(next, t) by {
                let now = views(out@);
                if holds(now, t) {
                    let k = choose|k: int| 0 <= k < now.len() && #[trigger] now[k] == t;
                    if t == item {
                        assert(next[i as int] == t);
                    } else {
                        let kb = if present || k < at { k } else { k - 1 };
                        assert(before[kb] == t);
                        assert(holds(before, t));
                        let m = choose|m: int| 0 <= m < seen.len() && #[trigger] seen[m] == t;
                        assert(next[m] == t);
                    }
                }
                if holds(next, t) {
                    let m = choose|m: int| 0 <= m < next.len() && #[trigger] next[m] == t;
                    if m == i as int {
                        assert(now[at as int] == t);
                    } else {
                        assert(seen[m] == t);
                        assert(holds(before, t));
                        let k = choose|k: int| 0 <= k < before.len() && #[trigger] before[k] == t;
                        let kn = if present || k < at { k } else { k + 1 };
                        assert(now[kn] == t);
                    }
                }
            }
        }
        i += 1;
    }
    assert(views(v@).take(v@.len() as int) == views(v@));
    proof {
        lemma_sorted_set(views(out@), views(v@));
    }
    out
}

/// The distinct texts of a list in ascending order.
pub open spec fn sorted_set(v: Seq<Seq<char>>) -> Seq<Seq<char>> {
    choose|r: Seq<Seq<char>>| is_sorted_set(r, v)
}

/// Whether `r` holds the texts of `v`, each once, in ascending order.
pub open spec fn is_sorted_set(r: Seq<Seq<char>>, v: Seq<Seq<char>>) -> bool {
    strictly_sorted(r) && (forall|t: Seq<char>| holds(r, t) <==> holds(v, t))
}

/// There is one such list.
pub proof fn lemma_sorted_set(r: Seq<Seq<char>>, v: Seq<Seq<char>>)
    requires
        is_sorted_set(r, v),
    ensures
        r == sorted_set(v),
{
    let c = sorted_set(v);
    assert(is_sorted_set(c, v));
    assert forall|t: Seq<char>| holds(r, t) <==> holds(c, t) by {
        assert(holds(r, t) <==> holds(v, t));
    }
    lemma_strictly_sorted_unique(r, c);
}

/// The tail of a strictly sorted list holds the list's texts but the first.
proof fn lemma_tail(a: Seq<Seq<char>>, t: Seq<char>)
    requires
        strictly_sorted(a),
        a.len() > 0,
    ensures
        holds(a.drop_first(), t) <==> holds(a, t) && t != a[0],
        strictly_sorted(a.drop_first()),
{
    let r = a.drop_first();
    if holds(r, t) {
        let i = choose|i: int| 0 <= i < r.len() && #[trigger] r[i] == t;
        assert(a[i + 1] == t);
        assert(text_lt(a[0], a[i + 1]));
        lemma_text_lt_irreflexive(t);
    }
    if holds(a, t) && t != a[0] {
        let j = choose|j: int| 0 <= j < a.len() && #[trigger] a[j] == t;
        assert(r[j - 1] == t);
    }
    assert forall|i: int, j: int| 0 <= i < j < r.len() implies text_lt(
        #[trigger] r[i],
        #[trigger] r[j],
    ) by {
        assert(r[i] == a[i + 1] && r[j] == a[j + 1]);
    }
}

/// Two strictly sorted lists of the same texts start with the same text.
proof fn lemma_same_first(a: Seq<Seq<char>>, b: Seq<Seq<char>>)
    requires
        strictly_sorted(a),
        strictly_sorted(b),
        a.len() > 0,
        b.len() > 0,
        holds(b, a[0]),
        holds(a, b[0]),
    ensures
        a[0] == b[0],
{
    if a[0] != b[0] {
        let i = choose|i: int| 0 <= i < b.len() && #[trigger] b[i] == a[0];
        let j = choose|j: int| 0 <= j < a.len() && #[trigger] a[j] == b[0];
        assert(text_lt(b[0], b[i]));
        assert(text_lt(a[0], a[j]));
        lemma_text_lt_total(a[0], b[0]);
    }
}

/// Two strictly sorted lists of the same texts are the same list.
pub proof fn lemma_strictly_sorted_unique(a: Seq<Seq<char>>, b: Seq<Seq<char>>)
    requires
        strictly_sorted(a),
        strictly_sorted(b),
        forall|t: Seq<char>| holds(a, t) <==> holds(b, t),
    ensures
        a == b,
    decreases a.len(),
{
    if a.len() == 0 {
        if b.len() > 0 {
            assert(holds(b, b[0]));
        }
        assert(a =~= b);
    } else {
        assert(holds(a, a[0]));
        assert(holds(b, a[0]));
        assert(holds(b, b[0]));
        lemma_same_first(a, b);
        let ra = a.drop_first();
        let rb = b.drop_first();
        assert forall|t: Seq<char>| holds(ra, t) <==> holds(rb, t) by {
            lemma_tail(a, t);
            lemma_tail(b, t);
        }
        lemma_tail(a, a[0]);
        lemma_tail(b, b[0]);
        lemma_strictly_sorted_unique(ra, rb);
        assert(a =~= seq![a[0]] + ra);
        assert(b =~= seq![b[0]] + rb);
    }
}

/// A text occurs in what stands around it.
pub proof fn lemma_occurs_between(a: Seq<char>, p: Seq<char>, b: Seq<char>)
    ensures
        occurs(a + p + b, p),
{
    let s = a + p + b;
    assert(s.subrange(a.len() as int, (a.len() + p.len()) as int) =~= p);
    assert(stands_at(s, p, a.len() as int));
}

/// What occurs in a text occurs in what stands around that text.
pub proof fn lemma_occurs_within(a: Seq<char>, q: Seq<char>, b: Seq<char>, p: Seq<char>)
    requires
        occurs(q, p),
    ensures
        occurs(a + q + b, p),
{
    let s = a + q + b;
    let at = choose|at: int| #[trigger] stands_at(q, p, at);
    assert(s.subrange(a.len() + at, a.len() + at + p.len()) =~= q.subrange(at, at + p.len()));
    assert(stands_at(s, p, a.len() + at));
}

/// What occurs in a part of a text occurs in the text.
pub proof fn lemma_occurs_inside(s: Seq<char>, q: Seq<char>, p: Seq<char>)
    requires
        occurs(s, q),
        occurs(q, p),
    ensures
        occurs(s, p),
{
    let at = choose|at: int| #[trigger] stands_at(s, q, at);
    let in_q = choose|k: int| #[trigger] stands_at(q, p, k);
    assert(s.subrange(at + in_q, at + in_q + p.len()) =~= q.subrange(in_q, in_q + p.len()));
    assert(stands_at(s, p, at + in_q));
}

/// Every text of a list occurs in the joined text.
pub proof fn law_joined_holds(v: Seq<Seq<char>>, sep: Seq<char>, i: int)
    requires
        0 <= i < v.len(),
    ensures
        occurs(joined(v, sep), v[i]),
    decreases v.len(),
{
    let e = Seq::<char>::empty();
    if v.len() == 1 {
        assert(v[0] =~= e + v[0] + e);
        lemma_occurs_between(e, v[0], e);
    } else {
        let before = joined(v.drop_last(), sep);
        if i == v.len() - 1 {
            assert(joined(v, sep) =~= (before + sep) + v.last() + e);
            lemma_occurs_between(before + sep, v.last(), e);
        } else {
            law_joined_holds(v.drop_last(), sep, i);
            assert(joined(v, sep) =~= e + before + (sep + v.last()));
            lemma_occurs_within(e, before, sep + v.last(), v[i]);
        }
    }
}

/// Joined lists are joined by the separator.
pub proof fn law_joined_splits(a: Seq<Seq<char>>, b: Seq<Seq<char>>, sep: Seq<char>)
    requires
        a.len() > 0,
        b.len() > 0,
    ensures
        joined(a + b, sep) == joined(a, sep) + sep + joined(b, sep),
    decreases b.len(),
{
    if b.len() == 1 {
        assert((a + b).drop_last() =~= a);
        assert((a + b).last() == b[0]);
    } else {
        law_joined_splits(a, b.drop_last(), sep);
        assert((a + b).drop_last() =~= a + b.drop_last());
        assert((a + b).last() == b.last());
        assert(joined(a + b, sep) =~= joined(a, sep) + sep + joined(b, sep));
    }
}

/// What is trimmed off a text is white space, at its two ends, and all of it.
pub proof fn law_trimmed_of_white_space(s: Seq<char>)
    ensures
        exists|a: int, b: int|
            0 <= a <= b <= s.len() && #[trigger] s.subrange(a, b) == trimmed(s) && (forall|k: int|
                0 <= k < a || b <= k < s.len() ==> is_white_space(#[trigger] s[k])),
        trimmed(s).len() > 0 ==> !is_white_space(trimmed(s).first()) && !is_white_space(
            trimmed(s).last(),
        ),
{
    let f = trim_front(s);
    let a = s.len() - f.len();
    lemma_trim_front(s);
    lemma_trim_back(f);
    let t = trim_back(f);
    let b = a + t.len();
    assert(s.subrange(a, b) =~= t) by {
        assert(f =~= s.skip(a));
        assert(t =~= f.take(t.len() as int));
    }
    assert forall|k: int| 0 <= k < a || b <= k < s.len() implies is_white_space(
        #[trigger] s[k],
    ) by {
        if b <= k {
            assert(f[k - a] == s[k]);
        }
    }
    if t.len() > 0 {
        assert(t.first() == f.first());
    }
}

proof fn lemma_trim_front(s: Seq<char>)
    ensures
        trim_front(s).len() <= s.len(),
        trim_front(s) == s.skip(s.len() - trim_front(s).len()),
        forall|k: int|
            0 <= k < s.len() - trim_front(s).len() ==> is_white_space(#[trigger] s[k]),
        trim_front(s).len() > 0 ==> !is_white_space(trim_front(s).first()),
    decreases s.len(),
{
    if s.len() > 0 && is_white_space(s.first()) {
        let rest = s.drop_first();
        lemma_trim_front(rest);
        let n = s.len() - trim_front(s).len();
        assert(s.skip(n) =~= rest.skip(n - 1));
        assert forall|k: int| 0 <= k < n implies is_white_space(#[trigger] s[k]) by {
            if k > 0 {
                assert(rest[k - 1] == s[k]);
            }
        }
    } else {
        assert(s.skip(0) =~= s);
    }
}

proof fn lemma_trim_back(s: Seq<char>)
    ensures
        trim_back(s).len() <= s.len(),
        trim_back(s) == s.take(trim_back(s).len() as int),
        forall|k: int| trim_back(s).len() <= k < s.len() ==> is_white_space(#[trigger] s[k]),
        trim_back(s).len() > 0 ==> !is_white_space(trim_back(s).last()),
    decreases s.len(),
{
    if s.len() > 0 && is_white_space(s.last()) {
        let rest = s.drop_last();
        lemma_trim_back(rest);
        let n = trim_back(s).len() as int;
        assert(s.take(n) =~= rest.take(n));
        assert forall|k: int| n <= k < s.len() implies is_white_space(#[trigger] s[k]) by {
            if k < rest.len() {
                assert(rest[k] == s[k]);
            }
        }
    } else {
        assert(s.take(s.len() as int) =~= s);
    }
}

/// A list without a text is the list of the others, in order.
pub proof fn law_without_keeps_the_others(v: Seq<Seq<char>>, t: Seq<char>)
    ensures
        without(v, t) == v.filter(|x: Seq<char>| x != t),
    decreases v.len(),
{
    reveal(Seq::filter);
    if v.len() > 0 {
        law_without_keeps_the_others(v.drop_last(), t);
    } else {
        assert(v =~= Seq::empty());
    }
}

/// The value of a row of decimal digits.
pub open spec fn number_of(digits: Seq<char>) -> int
    decreases digits.len(),
{
    if digits.len() == 0 {
        0
    } else {
        10 * number_of(digits.drop_last()) + (digits.last() as int - 48)
    }
}

/// A number is written in decimal digits that have its value, without a zero in
/// front.
pub proof fn law_decimal_has_the_value(n: nat)
    ensures
        number_of(decimal(n)) == n,
        decimal(n).len() > 0,
        forall|i: int| 0 <= i < decimal(n).len() ==> '0' <= #[trigger] decimal(n)[i] <= '9',
        decimal(n).len() > 1 ==> decimal(n)[0] != '0',
    decreases n,
{
    if n < 10 {
        let d = decimal(n);
        assert(d.drop_last() =~= Seq::<char>::empty());
        assert(d.last() == digit(n));
        assert(d.last() as int == 48 + n);
        assert(number_of(d) == 10 * number_of(d.drop_last()) + (d.last() as int - 48));
    } else {
        let rest = decimal(n / 10);
        let d = decimal(n);
        law_decimal_has_the_value(n / 10);
        assert(d.drop_last() =~= rest);
        assert(d.last() == digit(n % 10));
        assert(d.last() as int == 48 + n % 10);
        assert(number_of(d) == 10 * number_of(d.drop_last()) + (d.last() as int - 48));
        assert forall|i: int| 0 <= i < d.len() implies '0' <= #[trigger] d[i] <= '9' by {
            if i < rest.len() {
                assert(d[i] == rest[i]);
            }
        }
        if rest.len() == 1 {
            lemma_single_digit(n / 10);
        }
    }
}

proof fn lemma_single_digit(n: nat)
    requires
        decimal(n).len() == 1,
        n > 0,
    ensures
        decimal(n)[0] != '0',
    decreases n,
{
    if n >= 10 {
        law_decimal_has_the_value(n / 10);
        assert(decimal(n).len() == decimal(n / 10).len() + 1);
    } else {
        assert(digit(n) as int == 48 + n);
    }
}

/// A code block is read without its fences, with or without the name of its
/// language; a text without a fence is read as it is, but for white space around
/// it.
pub proof fn law_fences_are_taken_off(body: Seq<char>)
    ensures
        unfenced("```json"@ + body + "```"@) == trimmed(body),
        !starts(body + "```"@, "json"@) ==> unfenced("```"@ + body + "```"@) == trimmed(body),
        !starts(trimmed(body), "```"@) ==> unfenced(body) == trimmed(body),
{
    reveal_strlit("```json");
    reveal_strlit("```");
    reveal_strlit("json");
    let close = "```"@;
    let open = "```json"@;
    let a = open + body + close;
    lemma_trimmed_whole(a);
    assert(a.take(7) =~= open);
    let rest = a.skip(7);
    assert(rest =~= body + close);
    assert(rest.skip(rest.len() - 3) =~= close);
    assert(rest.take(rest.len() - 3) =~= body);
    let b = close + body + close;
    lemma_trimmed_whole(b);
    assert(b.take(3) =~= close);
    let tail = b.skip(3);
    assert(tail =~= body + close);
    assert(tail.skip(tail.len() - 3) =~= close);
    assert(tail.take(tail.len() - 3) =~= body);
    if starts(b, open) {
        assert(tail.take(4) =~= "json"@) by {
            assert forall|k: int| 0 <= k < 4 implies tail.take(4)[k] == "json"@[k] by {
                assert(b.take(7)[k + 3] == b[k + 3]);
                assert(tail[k] == b[k + 3]);
                assert(open[k + 3] == "json"@[k]);
            }
        }
        assert(starts(tail, "json"@));
    }
    let t = trimmed(body);
    if starts(t, open) {
        assert(t.take(3) =~= close) by {
            assert forall|k: int| 0 <= k < 3 implies t.take(3)[k] == close[k] by {
                assert(t.take(7)[k] == open[k]);
            }
        }
    }
}

proof fn lemma_trimmed_whole(s: Seq<char>)
    requires
        s.len() > 0,
        !is_white_space(s.first()),
        !is_white_space(s.last()),
    ensures
        trimmed(s) == s,
{
}

/// The pieces of a text are not empty, hold no separator, and together they are
/// the text without its separators.
pub proof fn law_pieces_make_up_the_text(s: Seq<char>, sep: char)
    ensures
        joined(pieces(s, sep), Seq::empty()) == s.filter(|c: char| c != sep),
        forall|i: int|
            0 <= i < pieces(s, sep).len() ==> (#[trigger] pieces(s, sep)[i]).len() > 0
                && !pieces(s, sep)[i].contains(sep),
{
    lemma_split_state(s, sep);
    let state = split_state(s, sep);
    if state.1.len() > 0 {
        lemma_joined_push(state.0, state.1);
        assert(pieces(s, sep) == state.0.push(state.1));
        assert forall|i: int| 0 <= i < pieces(s, sep).len() implies (
        #[trigger] pieces(s, sep)[i]).len() > 0 && !pieces(s, sep)[i].contains(sep) by {
            if i < state.0.len() {
                assert(pieces(s, sep)[i] == state.0[i]);
            }
        }
    } else {
        assert(joined(state.0, Seq::empty()) + state.1 =~= joined(state.0, Seq::empty()));
    }
}

/// A text ends a piece where a separator stands, so that texts with a separator
/// between them are split one by one.
pub proof fn law_separators_part_pieces(a: Seq<char>, b: Seq<char>, sep: char)
    ensures
        pieces(a.push(sep) + b, sep) == pieces(a, sep) + pieces(b, sep),
{
    lemma_split_behind(a, b, sep);
    let first = pieces(a, sep);
    let state = split_state(b, sep);
    if state.1.len() > 0 {
        assert((first + state.0).push(state.1) =~= first + state.0.push(state.1));
    }
}

proof fn lemma_split_behind(a: Seq<char>, b: Seq<char>, sep: char)
    ensures
        split_state(a.push(sep) + b, sep) == (
            pieces(a, sep) + split_state(b, sep).0,
            split_state(b, sep).1,
        ),
    decreases b.len(),
{
    let s = a.push(sep) + b;
    let first = pieces(a, sep);
    if b.len() == 0 {
        assert(s =~= a.push(sep));
        assert(s.drop_last() =~= a);
        assert(first + Seq::<Seq<char>>::empty() =~= first);
    } else {
        lemma_split_behind(a, b.drop_last(), sep);
        assert(s.drop_last() =~= a.push(sep) + b.drop_last());
        assert(s.last() == b.last());
        let before = split_state(b.drop_last(), sep);
        if b.last() == sep && before.1.len() > 0 {
            assert((first + before.0).push(before.1) =~= first + before.0.push(before.1));
        }
    }
}

proof fn lemma_joined_push(v: Seq<Seq<char>>, t: Seq<char>)
    ensures
        joined(v.push(t), Seq::empty()) == joined(v, Seq::empty()) + t,
{
    let w = v.push(t);
    let e = Seq::<char>::empty();
    if v.len() == 0 {
        assert(w[0] == t);
        assert(joined(v, e) + t =~= t);
    } else {
        assert(w.drop_last() =~= v);
        assert(joined(v, e) + e + t =~= joined(v, e) + t);
    }
}

proof fn lemma_split_state(s: Seq<char>, sep: char)
    ensures
        joined(split_state(s, sep).0, Seq::empty()) + split_state(s, sep).1 == s.filter(
            |c: char| c != sep,
        ),
        !split_state(s, sep).1.contains(sep),
        forall|i: int|
            0 <= i < split_state(s, sep).0.len() ==> (#[trigger] split_state(s, sep).0[i]).len() > 0
                && !split_state(s, sep).0[i].contains(sep),
    decreases s.len(),
{
    reveal(Seq::filter);
    let e = Seq::<char>::empty();
    if s.len() == 0 {
        assert(joined(split_state(s, sep).0, e) + split_state(s, sep).1 =~= e);
    } else {
        lemma_split_state(s.drop_last(), sep);
        let before = split_state(s.drop_last(), sep);
        let now = split_state(s, sep);
        if s.last() == sep {
            if before.1.len() > 0 {
                lemma_joined_push(before.0, before.1);
                assert(now.0 == before.0.push(before.1));
                assert forall|i: int| 0 <= i < now.0.len() implies (#[trigger] now.0[i]).len() > 0
                    && !now.0[i].contains(sep) by {
                    if i < before.0.len() {
                        assert(now.0[i] == before.0[i]);
                    }
                }
            }
            assert(joined(now.0, e) + now.1 =~= joined(before.0, e) + before.1);
        } else {
            assert(joined(now.0, e) + now.1 =~= (joined(before.0, e) + before.1).push(s.last()));
            if now.1.contains(sep) {
                let i = choose|i: int| 0 <= i < now.1.len() && now.1[i] == sep;
                if i < before.1.len() {
                    assert(before.1[i] == sep);
                }
            }
        }
    }
}

/// Texts are ordered by the first character in which they differ; a text comes
/// before what it is the start of.
pub proof fn law_texts_are_ordered_by_characters(
    common: Seq<char>,
    x: char,
    y: char,
    a: Seq<char>,
    b: Seq<char>,
)
    requires
        x < y,
    ensures
        text_lt(common.push(x) + a, common.push(y) + b),
        !text_lt(common.push(y) + b, common.push(x) + a),
        text_lt(common, common.push(y) + b),
        !text_lt(common.push(y) + b, common),
    decreases common.len(),
{
    let p = common.push(x) + a;
    let q = common.push(y) + b;
    if common.len() == 0 {
        assert(p.first() == x);
        assert(q.first() == y);
    } else {
        let rest = common.drop_first();
        law_texts_are_ordered_by_characters(rest, x, y, a, b);
        assert(p.first() == common.first());
        assert(q.first() == common.first());
        assert(p.drop_first() =~= rest.push(x) + a);
        assert(q.drop_first() =~= rest.push(y) + b);
    }
}

/// Capital letters become small ones, each its own, and nothing else changes.
pub proof fn law_capitals_become_small(c: char)
    ensures
        'A' <= c <= 'Z' ==> 'a' <= ascii_lower(c) <= 'z' && ascii_lower(c) as int - 'a' as int
            == c as int - 'A' as int,
        !('A' <= c <= 'Z') ==> ascii_lower(c) == c,
{
}

/// The sorted set of a list is the one list that is in ascending order, without
/// repetition, and holds the texts of that list.
pub proof fn law_sorted_set_is_ascending(r: Seq<Seq<char>>, v: Seq<Seq<char>>)
    requires
        forall|i: int, j: int| 0 <= i < j < r.len() ==> text_lt(#[trigger] r[i], #[trigger] r[j]),
        forall|t: Seq<char>| r.contains(t) <==> v.contains(t),
    ensures
        sorted_set(v) == r,
{
    assert forall|t: Seq<char>| holds(r, t) <==> holds(v, t) by {
        assert(holds(r, t) <==> r.contains(t));
        assert(holds(v, t) <==> v.contains(t));
    }
    assert(is_sorted_set(r, v));
    lemma_sorted_set(r, v);
}

/// What a text starts or ends with, or holds, stands in it character by character.
pub proof fn law_parts_stand_in_the_text(s: Seq<char>, p: Seq<char>, a: Seq<char>)
    ensures
        starts(p + a, p),
        ends(a + p, p),
        starts(s, p) ==> s == p + s.skip(p.len() as int),
        ends(s, p) ==> s == s.take(s.len() - p.len()) + p,
        occurs(s, p) ==> exists|at: int|
            #![trigger s.take(at)]
            0 <= at <= s.len() - p.len() && s == s.take(at) + p + s.skip(at + p.len()),
{
    assert((p + a).take(p.len() as int) =~= p);
    assert((a + p).skip((a + p).len() - p.len()) =~= p);
    if starts(s, p) {
        assert(s =~= s.take(p.len() as int) + s.skip(p.len() as int));
    }
    if ends(s, p) {
        assert(s =~= s.take(s.len() - p.len()) + s.skip(s.len() - p.len()));
    }
    if occurs(s, p) {
        let at = choose|at: int| #[trigger] stands_at(s, p, at);
        assert(s =~= s.take(at) + s.subrange(at, at + p.len()) + s.skip(at + p.len()));
    }
}

/// A number below zero is written with a minus sign, any other without one.
pub proof fn law_minus_sign_tells_below_zero(n: nat)
    ensures
        signed_decimal(n as int) == decimal(n),
        n > 0 ==> signed_decimal(-(n as int)) == seq!['-'] + decimal(n),
{
}

} // verus!
