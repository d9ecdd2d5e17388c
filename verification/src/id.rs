//! Content-addressed identifiers.

use std::collections::hash_map::DefaultHasher;
use std::hash::{Hash, Hasher};
use std::marker::PhantomData;
use vstd::prelude::*;
use vstd::std_specs::hash::DefaultHasherAdditionalSpecFns;

verus! {

/// A content-addressable identifier for any topology/geometry entity.
/// Deterministic: same content always produces the same `Id`.
pub struct Id<T> {
    hash: u64,
    _phantom: PhantomData<T>,
}

impl<T> Id<T> {
    /// The hash this identifier carries.
    pub closed spec fn hash_spec(&self) -> u64 {
        self.hash
    }

    /// The id with the given hash value.
    pub fn from_hash(hash: u64) -> (id: Self)
        ensures
            id.hash_spec() == hash,
    {
        Id { hash, _phantom: PhantomData }
    }

    /// The hash value this id carries.
    pub fn hash_value(&self) -> (h: u64)
        ensures
            h == self.hash_spec(),
    {
        self.hash
    }
}

impl<T> Clone for Id<T> {
    fn clone(&self) -> (r: Self)
        ensures
            r.hash_spec() == self.hash_spec(),
    {
        Id { hash: self.hash, _phantom: PhantomData }
    }
}

impl<T> Copy for Id<T> {
}

impl<T> PartialEq for Id<T> {
    fn eq(&self, other: &Self) -> (r: bool) {
        self.hash == other.hash
    }
}

impl<T> vstd::std_specs::cmp::PartialEqSpecImpl for Id<T> {
    open spec fn obeys_eq_spec() -> bool {
        true
    }

    open spec fn eq_spec(&self, other: &Self) -> bool {
        self.hash_spec() == other.hash_spec()
    }
}

impl<T> Eq for Id<T> {
}

impl<T> Hash for Id<T> {
    /// Hashes the id as its hash value.
    fn hash<S: Hasher>(&self, state: &mut S) {
        hash_u64(self.hash, state);
    }
}

/// Feeds `v` into `state` by `u64`'s `Hash::hash`; nothing is claimed of
/// the hasher's state.
#[verifier::external_body]
fn hash_u64<S: Hasher>(v: u64, state: &mut S) {
    v.hash(state);
}

/// Types that produce a deterministic content hash.
pub trait ContentHash {
    /// The hash of this value's content.
    spec fn content_hash_spec(&self) -> u64;

    fn content_hash(&self) -> (h: u64)
        ensures
            h == self.content_hash_spec(),
    ;

    /// The identifier of this value: its content hash.
    fn id(&self) -> (i: Id<Self>) where Self: Sized
        ensures
            i.hash_spec() == self.content_hash_spec(),
    {
        Id::from_hash(self.content_hash())
    }
}

/// Feeds `value` into `state` through its `Hash` impl (`Hash::hash`).
/// Nothing is claimed: what is fed depends on the value's own impl.
#[verifier::external_body]
fn feed_hasher<H: Hash>(value: &H, state: &mut DefaultHasher) {
    value.hash(state);
}

/// Hashes any hashable value with a freshly created `DefaultHasher`, whose
/// keys are fixed, so the same value gives the same hash within a build:
/// the result is the hasher's digest (`finish`) of the byte writes that the
/// value's own `Hash` impl makes. Those writes depend on that impl and are
/// not named here.
pub fn hash_deterministic<H: Hash>(value: &H) -> (h: u64)
    ensures
        exists|writes: Seq<Seq<u8>>| h == DefaultHasher::spec_finish(writes),
{
    let mut hasher = DefaultHasher::new();
    feed_hasher(value, &mut hasher);
    let h = hasher.finish();
    assert(h == DefaultHasher::spec_finish(hasher@));
    h
}

} // verus!
