//! Hashes with the standard library's default hasher, and their hexadecimal
//! form. The hasher has fixed keys; its algorithm belongs to a release of the
//! standard library, and a hash that is kept is read back by a program that was
//! built with the same one, for the same kind of machine.

use std::hash::{DefaultHasher, Hash, Hasher};
use vstd::prelude::*;

verus! {

/// The default hash of texts that are hashed one after the other.
pub uninterp spec fn hash_of_texts(parts: Seq<Seq<char>>) -> u64;

/// The default hash of a list of texts as a whole.
pub uninterp spec fn hash_of_list(items: Seq<Seq<char>>) -> u64;

/// The default hash of a byte slice.
pub uninterp spec fn hash_of_bytes(bytes: Seq<u8>) -> u64;

/// `DefaultHasher::new`, fed with `str::hash` of each text in turn, and
/// `finish`: a function of the texts, since every hasher made by `new` is the
/// same.
#[verifier::external_body]
pub(crate) fn hash_texts(parts: &Vec<String>) -> (r: u64)
    ensures
        r == hash_of_texts(crate::text::views(parts@)),
{
    let mut h = DefaultHasher::new();
    parts.iter().for_each(|p| p.as_str().hash(&mut h));
    h.finish()
}

/// `DefaultHasher::new`, fed with `Vec::hash` of the whole list, and `finish`.
/// The length of the list goes in as a `usize`, so the value is that of machines
/// with one word size and byte order.
#[verifier::external_body]
pub(crate) fn hash_list(items: &Vec<String>) -> (r: u64)
    ensures
        r == hash_of_list(crate::text::views(items@)),
{
    let mut h = DefaultHasher::new();
    items.hash(&mut h);
    h.finish()
}

/// `DefaultHasher::new`, fed with the hash of a byte slice, and `finish`. The
/// length of the slice goes in as a `usize`, as that of a list does.
#[verifier::external_body]
pub(crate) fn hash_bytes(bytes: &[u8]) -> (r: u64)
    ensures
        r == hash_of_bytes(bytes@),
{
    let mut h = DefaultHasher::new();
    bytes.hash(&mut h);
    h.finish()
}

/// The last `places` hexadecimal digits of a number, lower-case, with leading
/// zeros.
pub open spec fn hex(n: int, places: nat) -> Seq<char>
    decreases places,
{
    if places == 0 {
        Seq::empty()
    } else {
        hex(n / 16, (places - 1) as nat).push(crate::substrate::identity::hex_digit(n % 16))
    }
}

/// As many digits as places, each a hexadecimal digit in lower case.
pub proof fn lemma_hex_digits(n: int, places: nat)
    requires
        n >= 0,
    ensures
        hex(n, places).len() == places,
        forall|k: int|
            0 <= k < places ==> '0' <= #[trigger] hex(n, places)[k] <= '9' || 'a' <= hex(
                n,
                places,
            )[k] <= 'f',
    decreases places,
{
    if places > 0 {
        lemma_hex_digits(n / 16, (places - 1) as nat);
        let rest = hex(n / 16, (places - 1) as nat);
        assert forall|k: int| 0 <= k < places implies '0' <= #[trigger] hex(n, places)[k] <= '9'
            || 'a' <= hex(n, places)[k] <= 'f' by {
            if k < places - 1 {
                assert(hex(n, places)[k] == rest[k]);
            } else {
                assert(hex(n, places)[k] == crate::substrate::identity::hex_digit(n % 16));
            }
        }
    }
}

fn hex_char(d: u64) -> (c: char)
    requires
        d < 16,
    ensures
        c == crate::substrate::identity::hex_digit(d as int),
{
    match d {
        0 => '0',
        1 => '1',
        2 => '2',
        3 => '3',
        4 => '4',
        5 => '5',
        6 => '6',
        7 => '7',
        8 => '8',
        9 => '9',
        10 => 'a',
        11 => 'b',
        12 => 'c',
        13 => 'd',
        14 => 'e',
        _ => 'f',
    }
}

/// The last `places` hexadecimal digits of a number.
pub fn hex_text(n: u64, places: u32) -> (r: String)
    ensures
        r@ == hex(n as int, places as nat),
    decreases places,
{
    if places == 0 {
        String::new()
    } else {
        let mut out: String = hex_text(n / 16, places - 1);
        out.push(hex_char(n % 16));
        out
    }
}

/// The value of a row of hexadecimal digits.
pub open spec fn hex_number(digits: Seq<char>) -> int
    decreases digits.len(),
{
    if digits.len() == 0 {
        0
    } else {
        16 * hex_number(digits.drop_last()) + crate::substrate::identity::hex_value(digits.last())
    }
}

/// How many numbers a row of so many digits can write.
pub open spec fn hex_range(places: nat) -> int
    decreases places,
{
    if places == 0 {
        1
    } else {
        16 * hex_range((places - 1) as nat)
    }
}

/// A number is written in as many digits as are asked for, and where it fits they
/// have its value.
pub proof fn law_hex_has_the_value(n: int, places: nat)
    requires
        n >= 0,
    ensures
        hex(n, places).len() == places,
        n < hex_range(places) ==> hex_number(hex(n, places)) == n,
        forall|i: int|
            0 <= i < places ==> '0' <= #[trigger] hex(n, places)[i] <= '9' || 'a' <= hex(
                n,
                places,
            )[i] <= 'f',
    decreases places,
{
    if places > 0 {
        let rest = hex(n / 16, (places - 1) as nat);
        law_hex_has_the_value(n / 16, (places - 1) as nat);
        crate::substrate::identity::lemma_hex_value(n % 16);
        assert(hex(n, places).drop_last() =~= rest);
        assert forall|i: int| 0 <= i < places implies '0' <= #[trigger] hex(n, places)[i] <= '9'
            || 'a' <= hex(n, places)[i] <= 'f' by {
            if i < places - 1 {
                assert(hex(n, places)[i] == rest[i]);
            }
        }
    }
}

} // verus!
