//! Keys: what a type must offer to serve as a key of the table.
//!
//! The table tells keys apart by their view and seeds a key's probe
//! sequences with the key's digest. Strings, borrowed or owned, are keys:
//! they are compared by their characters and digested with the standard
//! library's default hasher.

use std::collections::hash_map::DefaultHasher;
use std::hash::{Hash, Hasher};
use vstd::prelude::*;
use vstd::std_specs::hash::DefaultHasherAdditionalSpecFns;

verus! {

/// A key of the table. Two keys are the same key when their views are
/// equal, and a key's digest depends on nothing but its view, so that the
/// same key is looked for in the same buckets every time.
pub trait TableKey: View + Sized {
    /// The digest of a key with view `v`.
    spec fn spec_digest(v: Self::V) -> u64;

    /// Computes the key's digest.
    fn digest(&self) -> (h: u64)
        ensures
            h == Self::spec_digest(self@),
    ;

    /// Tells whether `self` and `other` are the same key.
    fn same_key(&self, other: &Self) -> (same: bool)
        ensures
            same == (self@ == other@),
    ;
}

/// What `str`'s implementation of `Hash` writes to a hasher for a string
/// with the given characters: the byte strings, in the order of the writes.
pub uninterp spec fn str_hash_writes(chars: Seq<char>) -> Seq<Seq<u8>>;

/// Calls `<str as Hash>::hash` with a `DefaultHasher`. What it writes to the
/// hasher is added to what was written before and depends on the string's
/// characters alone.
#[verifier::external_body]
fn hash_str(key: &str, hasher: &mut DefaultHasher)
    ensures
        final(hasher)@ == old(hasher)@ + str_hash_writes(key@),
{
    key.hash(hasher)
}

/// Calls `<str as PartialEq>::eq`: two strings are equal when they have the
/// same characters.
#[verifier::external_body]
fn str_eq(a: &str, b: &str) -> (same: bool)
    ensures
        same == (a@ == b@),
{
    a == b
}

/// The digest of a string: what a `DefaultHasher` that was newly made gives
/// after the string has been hashed into it.
pub open spec fn str_digest(chars: Seq<char>) -> u64 {
    DefaultHasher::spec_finish(str_hash_writes(chars))
}

/// Digests a string with a new `DefaultHasher`.
fn digest_str(key: &str) -> (h: u64)
    ensures
        h == str_digest(key@),
{
    let mut hasher = DefaultHasher::new();
    hash_str(key, &mut hasher);
    assert(hasher@ =~= str_hash_writes(key@));
    hasher.finish()
}

impl<'a> TableKey for &'a str {
    open spec fn spec_digest(v: Seq<char>) -> u64 {
        str_digest(v)
    }

    fn digest(&self) -> (h: u64) {
        digest_str(*self)
    }

    fn same_key(&self, other: &Self) -> (same: bool) {
        str_eq(*self, *other)
    }
}

impl TableKey for String {
    open spec fn spec_digest(v: Seq<char>) -> u64 {
        str_digest(v)
    }

    fn digest(&self) -> (h: u64) {
        digest_str(self.as_str())
    }

    fn same_key(&self, other: &Self) -> (same: bool) {
        *self == *other
    }
}

} // verus!
