//! Stable identifiers, made by hashing.

use vstd::prelude::*;

use crate::numeral::{hex_digits, hex_u64};
use crate::text;

verus! {

pub const FNV_OFFSET: u64 = 0xcbf29ce484222325;

pub const FNV_PRIME: u64 = 0x100000001b3;

/// The 64-bit FNV-1a hash of some bytes.
pub open spec fn fnv(bytes: Seq<u8>) -> u64
    decreases bytes.len(),
{
    if bytes.len() == 0 {
        FNV_OFFSET
    } else {
        (fnv(bytes.drop_last()) ^ (bytes.last() as u64)).wrapping_mul(FNV_PRIME)
    }
}

/// The hash of a text, in hexadecimal.
pub open spec fn hash_of(value: Seq<char>) -> Seq<char> {
    hex_digits(fnv(vstd::utf8::encode_utf8(value)) as nat, 16)
}

/// An identifier with a prefix that says what it is for.
pub open spec fn id_of(prefix: Seq<char>, value: Seq<char>) -> Seq<char> {
    prefix + "-"@ + hash_of(value)
}

pub fn stable_hash(value: &str) -> (hash: String)
    ensures
        hash@ == hash_of(value@),
{
    let bytes = value.as_bytes();
    let mut hash: u64 = FNV_OFFSET;
    let mut i: usize = 0;
    assert(bytes@.take(0) =~= seq![]);
    while i < bytes.len()
        invariant
            i <= bytes.len(),
            hash == fnv(bytes@.take(i as int)),
        decreases bytes.len() - i,
    {
        assert(bytes@.take(i + 1).drop_last() =~= bytes@.take(i as int));
        hash = (hash ^ (bytes[i] as u64)).wrapping_mul(FNV_PRIME);
        i = i + 1;
    }
    assert(bytes@.take(i as int) =~= bytes@);
    hex_u64(hash)
}

pub fn stable_id(prefix: &str, value: &str) -> (id: String)
    ensures
        id@ == id_of(prefix@, value@),
{
    text::concat3(prefix, "-", stable_hash(value).as_str())
}

/// A hexadecimal digit of either case.
pub open spec fn is_hex_digit(c: char) -> bool {
    ('0' <= c <= '9') || ('a' <= c <= 'f') || ('A' <= c <= 'F')
}

/// Why a text is no identifier with that prefix, if it is none.
pub open spec fn id_problem(value: Seq<char>, prefix: Seq<char>) -> Option<Seq<char>> {
    let head = prefix + "-"@;
    if !head.is_prefix_of(value) {
        Some(prefix + " id "@ + text::quoted_form(value) + " has an invalid prefix"@)
    } else {
        let hash = value.skip(head.len() as int);
        if hash.len() != 16 || exists|i: int| 0 <= i < hash.len() && !is_hex_digit(
            #[trigger] hash[i],
        ) {
            Some(prefix + " id "@ + text::quoted_form(value) + " must end in 16 hex digits"@)
        } else {
            None
        }
    }
}

proof fn lemma_hex_digits(number: nat, width: nat)
    ensures
        hex_digits(number, width).len() == width,
        forall|i: int| 0 <= i < width ==> is_hex_digit(#[trigger] hex_digits(number, width)[i]),
    decreases width,
{
    if width > 0 {
        lemma_hex_digits(number / 16, (width - 1) as nat);
        let digits = hex_digits(number, width);
        assert forall|i: int| 0 <= i < width implies is_hex_digit(#[trigger] digits[i]) by {
            if i < width - 1 {
                assert(digits[i] == hex_digits(number / 16, (width - 1) as nat)[i]);
            }
        }
    }
}

/// What is made as an identifier is accepted as one.
pub proof fn made_ids_are_valid(prefix: Seq<char>, value: Seq<char>)
    ensures
        id_problem(id_of(prefix, value), prefix) is None,
{
    let id = id_of(prefix, value);
    let head = prefix + "-"@;
    assert(id.subrange(0, head.len() as int) =~= head);
    assert(id.skip(head.len() as int) =~= hash_of(value));
    lemma_hex_digits(fnv(vstd::utf8::encode_utf8(value)) as nat, 16);
}

} // verus!
