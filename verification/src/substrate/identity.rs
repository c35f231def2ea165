//! The identity of projected edges: kinds, predicates and deterministic ids.

use crate::text;
use crate::text::{less, same};
use sha2::Digest;
use vstd::prelude::*;
use vstd::string::*;

verus! {

/// The kind and predicate of an edge.
pub type EdgeShape = (Seq<char>, Seq<char>);

/// The SHA-256 digest of some bytes.
pub uninterp spec fn sha256_digest(bytes: Seq<u8>) -> Seq<u8>;

/// `sha2::Sha256::digest`: the digest of 32 bytes, which depends on the given
/// bytes alone.
#[verifier::external_body]
fn sha256(bytes: &[u8]) -> (r: Vec<u8>)
    ensures
        r@ == sha256_digest(bytes@),
        r@.len() == 32,
{
    sha2::Sha256::digest(bytes).to_vec()
}

/// The lower-case hexadecimal digit of a number below 16.
pub open spec fn hex_digit(n: int) -> char {
    if n < 10 {
        ((48 + n) as u32) as char
    } else {
        ((87 + n) as u32) as char
    }
}

/// The two hexadecimal digits of each byte.
pub open spec fn hex_bytes(b: Seq<u8>) -> Seq<char>
    decreases b.len(),
{
    if b.len() == 0 {
        Seq::empty()
    } else {
        hex_bytes(b.drop_last()) + seq![
            hex_digit(b.last() as int / 16),
            hex_digit(b.last() as int % 16),
        ]
    }
}

/// The hyphenated form of a UUID: its 16 bytes in lower-case hexadecimal, in
/// groups of 4, 2, 2, 2 and 6 bytes.
pub open spec fn uuid_form(b: Seq<u8>) -> Seq<char> {
    hex_bytes(b.subrange(0, 4)) + seq!['-'] + hex_bytes(b.subrange(4, 6)) + seq!['-'] + hex_bytes(
        b.subrange(6, 8),
    ) + seq!['-'] + hex_bytes(b.subrange(8, 10)) + seq!['-'] + hex_bytes(b.subrange(10, 16))
}

/// `uuid::Uuid::from_bytes` and its display form: the bytes as they are, with
/// no version or variant bits set, in the hyphenated form.
#[verifier::external_body]
fn uuid_text(bytes: [u8; 16]) -> (r: String)
    ensures
        r@ == uuid_form(bytes@),
{
    uuid::Uuid::from_bytes(bytes).to_string()
}

/// The id derived from the identity of a row: the first 16 bytes of the SHA-256
/// digest of its UTF-8 bytes, as a UUID.
pub open spec fn hash_id(identity: Seq<char>) -> Seq<char> {
    uuid_form(sha256_digest(vstd::utf8::encode_utf8(identity)).take(16))
}

/// Derives a deterministic id from the identity of a row.
pub fn uuid_from_hash(hash_input: &str) -> (r: String)
    ensures
        r@ == hash_id(hash_input@),
{
    let d: Vec<u8> = sha256(hash_input.as_bytes());
    let bytes: [u8; 16] = [
        d[0],
        d[1],
        d[2],
        d[3],
        d[4],
        d[5],
        d[6],
        d[7],
        d[8],
        d[9],
        d[10],
        d[11],
        d[12],
        d[13],
        d[14],
        d[15],
    ];
    assert(bytes@ =~= d@.take(16));
    uuid_text(bytes)
}

/// The edge kind and predicate of a role, and whether the role is outside the
/// known ones and was folded onto a mention.
pub open spec fn role_shape(role: Seq<char>) -> (EdgeShape, bool) {
    if role == "mention"@ || role.len() == 0 {
        (("provenance"@, "mentions"@), false)
    } else if role == "subject"@ {
        (("structural"@, "subject_of"@), false)
    } else if role == "object"@ {
        (("structural"@, "object_of"@), false)
    } else {
        (("provenance"@, "mentions"@), true)
    }
}

/// Maps a legacy role to its edge kind and predicate; the last part tells that
/// the role was not one of the known ones.
pub fn role_to_kind_predicate(role: &str) -> (r: (&'static str, &'static str, bool))
    ensures
        ((r.0@, r.1@), r.2) == role_shape(role@),
{
    if same(role, "mention") || role.is_empty() {
        ("provenance", "mentions", false)
    } else if same(role, "subject") {
        ("structural", "subject_of", false)
    } else if same(role, "object") {
        ("structural", "object_of", false)
    } else {
        ("provenance", "mentions", true)
    }
}

/// The identity of a memory-entity link: its fields between bars.
pub open spec fn memory_entity_identity(
    memory_id: Seq<char>,
    entity_id: Seq<char>,
    role: Seq<char>,
) -> Seq<char> {
    let shape = role_shape(role).0;
    "memory_entities|"@ + memory_id + seq!['|'] + entity_id + seq!['|'] + role + seq!['|'] + shape.0
        + seq!['|'] + shape.1
}

/// The identity of a co-activation link: its fields between bars.
pub open spec fn hebbian_identity(
    lo: Seq<char>,
    hi: Seq<char>,
    namespace: Seq<char>,
    signal_source: Seq<char>,
) -> Seq<char> {
    "hebbian_links|"@ + lo + seq!['|'] + hi + seq!['|'] + namespace + seq!['|'] + signal_source
        + "|associative|co_activated"@
}

/// The text from which the id of a memory-entity edge is derived.
pub fn memory_entity_hash_input(memory_id: &str, entity_id: &str, role: &str) -> (r: String)
    ensures
        r@ == memory_entity_identity(memory_id@, entity_id@, role@),
{
    let (kind, predicate, _) = role_to_kind_predicate(role);
    let mut out: String = "memory_entities|".to_owned();
    out.append(memory_id);
    out.push('|');
    out.append(entity_id);
    out.push('|');
    out.append(role);
    out.push('|');
    out.append(kind);
    out.push('|');
    out.append(predicate);
    out
}

/// The text from which the id of a co-activation edge is derived. The caller
/// gives the pair in canonical order.
pub fn backfill_hebbian_links_to_edges_hash_input(
    canonical_lo: &str,
    canonical_hi: &str,
    namespace: &str,
    signal_source: &str,
) -> (r: String)
    ensures
        r@ == hebbian_identity(canonical_lo@, canonical_hi@, namespace@, signal_source@),
{
    let mut out: String = "hebbian_links|".to_owned();
    out.append(canonical_lo);
    out.push('|');
    out.append(canonical_hi);
    out.push('|');
    out.append(namespace);
    out.push('|');
    out.append(signal_source);
    out.append("|associative|co_activated");
    out
}

/// A pair with the smaller text first.
pub open spec fn ordered_pair(a: Seq<char>, b: Seq<char>) -> (Seq<char>, Seq<char>) {
    if text::text_lt(a, b) {
        (a, b)
    } else {
        (b, a)
    }
}

/// The endpoints of a link with the smaller id first.
pub fn canonical_pair(a: &str, b: &str) -> (r: (String, String))
    ensures
        (r.0@, r.1@) == ordered_pair(a@, b@),
{
    if less(a, b) {
        (a.to_owned(), b.to_owned())
    } else {
        (b.to_owned(), a.to_owned())
    }
}

/// Both directions of a link have one canonical pair, and so one id.
pub proof fn law_canonical_pair_symmetric(
    a: Seq<char>,
    b: Seq<char>,
    namespace: Seq<char>,
    signal_source: Seq<char>,
)
    ensures
        ordered_pair(a, b) == ordered_pair(b, a),
        hebbian_identity(ordered_pair(a, b).0, ordered_pair(a, b).1, namespace, signal_source)
            == hebbian_identity(
            ordered_pair(b, a).0,
            ordered_pair(b, a).1,
            namespace,
            signal_source,
        ),
{
    text::lemma_text_lt_total(a, b);
    text::lemma_text_lt_irreflexive(a);
}

/// Whether a text holds no bar.
pub open spec fn barless(s: Seq<char>) -> bool {
    forall|i: int| 0 <= i < s.len() ==> #[trigger] s[i] != '|'
}

proof fn lemma_first_field(a: Seq<char>, b: Seq<char>, x: Seq<char>, y: Seq<char>)
    requires
        barless(a),
        barless(b),
        a + seq!['|'] + x == b + seq!['|'] + y,
    ensures
        a == b,
        x == y,
{
    let l = a + seq!['|'] + x;
    let r = b + seq!['|'] + y;
    assert(l[a.len() as int] == '|');
    assert(r[b.len() as int] == '|');
    if a.len() < b.len() {
        assert(r[a.len() as int] == b[a.len() as int]);
    } else if b.len() < a.len() {
        assert(l[b.len() as int] == a[b.len() as int]);
    }
    assert forall|i: int| 0 <= i < a.len() implies a[i] == b[i] by {
        assert(l[i] == a[i] && r[i] == b[i]);
    }
    assert(a =~= b);
    assert(l.len() == a.len() + 1 + x.len() && r.len() == b.len() + 1 + y.len());
    assert(x.len() == y.len());
    assert forall|i: int| 0 <= i < x.len() implies x[i] == y[i] by {
        assert(l[a.len() + 1 + i] == x[i] && r[b.len() + 1 + i] == y[i]);
    }
    assert(x =~= y);
}

proof fn lemma_strip_front(p: Seq<char>, x: Seq<char>, y: Seq<char>)
    requires
        p + x == p + y,
    ensures
        x == y,
{
    assert((p + x).len() == p.len() + x.len() && (p + y).len() == p.len() + y.len());
    assert(x.len() == y.len());
    assert forall|i: int| 0 <= i < x.len() implies x[i] == y[i] by {
        assert((p + x)[p.len() + i] == x[i]);
        assert((p + y)[p.len() + i] == y[i]);
    }
    assert(x =~= y);
}

proof fn lemma_strip_back(x: Seq<char>, y: Seq<char>, p: Seq<char>)
    requires
        x + p == y + p,
    ensures
        x == y,
{
    assert((x + p).len() == p.len() + x.len() && (y + p).len() == p.len() + y.len());
    assert(x.len() == y.len());
    assert forall|i: int| 0 <= i < x.len() implies x[i] == y[i] by {
        assert((x + p)[i] == x[i]);
        assert((y + p)[i] == y[i]);
    }
    assert(x =~= y);
}

/// Links that differ in an endpoint, the namespace or the signal source have
/// different identities, as long as no field holds a bar.
pub proof fn law_hebbian_identity_injective(
    a: (Seq<char>, Seq<char>, Seq<char>, Seq<char>),
    b: (Seq<char>, Seq<char>, Seq<char>, Seq<char>),
)
    requires
        barless(a.0) && barless(a.1) && barless(a.2) && barless(a.3),
        barless(b.0) && barless(b.1) && barless(b.2) && barless(b.3),
        hebbian_identity(a.0, a.1, a.2, a.3) == hebbian_identity(b.0, b.1, b.2, b.3),
    ensures
        a == b,
{
    let h = "hebbian_links|"@;
    let t = "|associative|co_activated"@;
    let bar = seq!['|'];
    let a3 = a.3 + t;
    let b3 = b.3 + t;
    let a2 = a.2 + bar + a3;
    let b2 = b.2 + bar + b3;
    let a1 = a.1 + bar + a2;
    let b1 = b.1 + bar + b2;
    let a0 = a.0 + bar + a1;
    let b0 = b.0 + bar + b1;
    assert(hebbian_identity(a.0, a.1, a.2, a.3) =~= h + a0);
    assert(hebbian_identity(b.0, b.1, b.2, b.3) =~= h + b0);
    lemma_strip_front(h, a0, b0);
    lemma_first_field(a.0, b.0, a1, b1);
    lemma_first_field(a.1, b.1, a2, b2);
    lemma_first_field(a.2, b.2, a3, b3);
    lemma_strip_back(a.3, b.3, t);
}

/// Links that differ in a memory, an entity or a role have different
/// identities, as long as no field holds a bar.
pub proof fn law_memory_entity_identity_injective(
    a: (Seq<char>, Seq<char>, Seq<char>),
    b: (Seq<char>, Seq<char>, Seq<char>),
)
    requires
        barless(a.0) && barless(a.1) && barless(a.2),
        barless(b.0) && barless(b.1) && barless(b.2),
        memory_entity_identity(a.0, a.1, a.2) == memory_entity_identity(b.0, b.1, b.2),
    ensures
        a == b,
{
    let h = "memory_entities|"@;
    let bar = seq!['|'];
    let sa = role_shape(a.2).0;
    let sb = role_shape(b.2).0;
    let a2 = a.2 + bar + (sa.0 + bar + sa.1);
    let b2 = b.2 + bar + (sb.0 + bar + sb.1);
    let a1 = a.1 + bar + a2;
    let b1 = b.1 + bar + b2;
    let a0 = a.0 + bar + a1;
    let b0 = b.0 + bar + b1;
    assert(memory_entity_identity(a.0, a.1, a.2) =~= h + a0);
    assert(memory_entity_identity(b.0, b.1, b.2) =~= h + b0);
    lemma_strip_front(h, a0, b0);
    lemma_first_field(a.0, b.0, a1, b1);
    lemma_first_field(a.1, b.1, a2, b2);
    lemma_first_field(a.2, b.2, sa.0 + bar + sa.1, sb.0 + bar + sb.1);
}

/// A byte is written as two digits, the higher half first, and bytes one behind
/// the other.
pub proof fn law_bytes_are_two_digits(b: Seq<u8>, i: int)
    requires
        0 <= i < b.len(),
    ensures
        hex_bytes(b).len() == 2 * b.len(),
        hex_value(hex_bytes(b)[2 * i]) * 16 + hex_value(hex_bytes(b)[2 * i + 1]) == b[i],
    decreases b.len(),
{
    let d = b.drop_last();
    lemma_hex_length(d);
    lemma_hex_value(b.last() as int / 16);
    lemma_hex_value(b.last() as int % 16);
    let all = hex_bytes(b);
    if i < d.len() {
        law_bytes_are_two_digits(d, i);
        assert(all[2 * i] == hex_bytes(d)[2 * i]);
        assert(all[2 * i + 1] == hex_bytes(d)[2 * i + 1]);
    } else {
        assert(all[2 * i] == hex_digit(b.last() as int / 16));
        assert(all[2 * i + 1] == hex_digit(b.last() as int % 16));
    }
}

/// The value of a hexadecimal digit.
pub open spec fn hex_value(c: char) -> int {
    if '0' <= c <= '9' {
        c as int - '0' as int
    } else {
        c as int - 'a' as int + 10
    }
}

pub proof fn lemma_hex_value(n: int)
    requires
        0 <= n < 16,
    ensures
        hex_value(hex_digit(n)) == n,
        '0' <= hex_digit(n) <= '9' || 'a' <= hex_digit(n) <= 'f',
{
}

proof fn lemma_hex_length(b: Seq<u8>)
    ensures
        hex_bytes(b).len() == 2 * b.len(),
    decreases b.len(),
{
    if b.len() > 0 {
        lemma_hex_length(b.drop_last());
    }
}

/// An id has 36 characters, with hyphens behind 8, 12, 16 and 20 digits, and ids
/// of different bytes are different.
pub proof fn law_id_form(a: Seq<u8>, b: Seq<u8>)
    requires
        a.len() == 16,
        b.len() == 16,
    ensures
        uuid_form(a).len() == 36,
        uuid_form(a)[8] == '-' && uuid_form(a)[13] == '-' && uuid_form(a)[18] == '-' && uuid_form(
            a,
        )[23] == '-',
        uuid_form(a) == uuid_form(b) ==> a == b,
{
    lemma_uuid_parts(a);
    lemma_uuid_parts(b);
    if uuid_form(a) == uuid_form(b) {
        assert forall|i: int| 0 <= i < 16 implies a[i] == b[i] by {
            lemma_uuid_byte(a, i);
            lemma_uuid_byte(b, i);
        }
        assert(a =~= b);
    }
}

spec fn byte_place(i: int) -> int {
    if i < 4 {
        2 * i
    } else if i < 6 {
        2 * i + 1
    } else if i < 8 {
        2 * i + 2
    } else if i < 10 {
        2 * i + 3
    } else {
        2 * i + 4
    }
}

proof fn lemma_uuid_parts(b: Seq<u8>)
    requires
        b.len() == 16,
    ensures
        uuid_form(b).len() == 36,
        uuid_form(b)[8] == '-' && uuid_form(b)[13] == '-' && uuid_form(b)[18] == '-' && uuid_form(
            b,
        )[23] == '-',
        uuid_form(b).subrange(0, 8) == hex_bytes(b.subrange(0, 4)),
        uuid_form(b).subrange(9, 13) == hex_bytes(b.subrange(4, 6)),
        uuid_form(b).subrange(14, 18) == hex_bytes(b.subrange(6, 8)),
        uuid_form(b).subrange(19, 23) == hex_bytes(b.subrange(8, 10)),
        uuid_form(b).subrange(24, 36) == hex_bytes(b.subrange(10, 16)),
{
    lemma_hex_length(b.subrange(0, 4));
    lemma_hex_length(b.subrange(4, 6));
    lemma_hex_length(b.subrange(6, 8));
    lemma_hex_length(b.subrange(8, 10));
    lemma_hex_length(b.subrange(10, 16));
    let u = uuid_form(b);
    assert(u.subrange(0, 8) =~= hex_bytes(b.subrange(0, 4)));
    assert(u.subrange(9, 13) =~= hex_bytes(b.subrange(4, 6)));
    assert(u.subrange(14, 18) =~= hex_bytes(b.subrange(6, 8)));
    assert(u.subrange(19, 23) =~= hex_bytes(b.subrange(8, 10)));
    assert(u.subrange(24, 36) =~= hex_bytes(b.subrange(10, 16)));
}

proof fn lemma_uuid_byte(b: Seq<u8>, i: int)
    requires
        b.len() == 16,
        0 <= i < 16,
    ensures
        hex_value(uuid_form(b)[byte_place(i)]) * 16 + hex_value(uuid_form(b)[byte_place(i) + 1])
            == b[i],
{
    lemma_uuid_parts(b);
    let u = uuid_form(b);
    let (from, to, at) = if i < 4 {
        (0int, 4int, 0int)
    } else if i < 6 {
        (4, 6, 9)
    } else if i < 8 {
        (6, 8, 14)
    } else if i < 10 {
        (8, 10, 19)
    } else {
        (10, 16, 24)
    };
    let part = b.subrange(from, to);
    law_bytes_are_two_digits(part, i - from);
    let k = 2 * (i - from);
    assert(u.subrange(at, at + 2 * (to - from))[k] == u[at + k]);
    assert(u.subrange(at, at + 2 * (to - from))[k + 1] == u[at + k + 1]);
    assert(part[i - from] == b[i]);
}

/// An entity that is the subject or the object of a memory is linked to it by
/// structure, and one that is mentioned by provenance; a role that is none of
/// these counts as a mention, and is reported.
pub proof fn law_roles_decide_the_link(role: Seq<char>)
    ensures
        role == "subject"@ ==> role_shape(role) == (("structural"@, "subject_of"@), false),
        role == "object"@ ==> role_shape(role) == (("structural"@, "object_of"@), false),
        role == "mention"@ || role == Seq::<char>::empty() ==> role_shape(role) == (
            ("provenance"@, "mentions"@),
            false,
        ),
        role != "subject"@ && role != "object"@ && role != "mention"@ && role.len() > 0
            ==> role_shape(role) == (("provenance"@, "mentions"@), true),
{
    reveal_strlit("subject");
    reveal_strlit("object");
    reveal_strlit("mention");
    assert("subject"@[0] == 's' && "mention"@[0] == 'm');
    assert("object"@.len() == 6 && "subject"@.len() == 7 && "mention"@.len() == 7);
}

/// Of two ends the smaller one comes first, and no other is put in their place.
pub proof fn law_canonical_pair_is_sorted(a: Seq<char>, b: Seq<char>)
    ensures
        text::text_le(ordered_pair(a, b).0, ordered_pair(a, b).1),
        ordered_pair(a, b) == (a, b) || ordered_pair(a, b) == (b, a),
{
    text::lemma_text_lt_total(a, b);
}

} // verus!
