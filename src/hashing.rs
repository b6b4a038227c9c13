use std::collections::hash_map::DefaultHasher;
use std::hash::{Hash, Hasher};
use vstd::prelude::*;

verus! {

/// The digest that std's `DefaultHasher` gives for one key.
pub uninterp spec fn key_hash(key: u64) -> u64;

/// The digest that std's `DefaultHasher` gives for two digests written in turn.
pub uninterp spec fn pair_hash(left: u64, right: u64) -> u64;

/// Relies on `DefaultHasher::default` fed with `u64::hash`: std documents
/// that every `DefaultHasher` made by `new` or `default` is the same, so within
/// one build of std the digest depends on the key alone.
#[verifier::external_body]
pub fn hash(value: &u64) -> (r: u64)
    ensures
        r == key_hash(*value),
{
    let mut hasher = DefaultHasher::default();
    value.hash(&mut hasher);
    hasher.finish()
}

/// Relies on `DefaultHasher::default` fed with `u64::hash` of both arguments in
/// order: as every hasher made by `default` is the same, the digest depends on
/// the two values and their order alone.
#[verifier::external_body]
pub fn hash_two(value_1: &u64, value_2: &u64) -> (r: u64)
    ensures
        r == pair_hash(*value_1, *value_2),
{
    let mut hasher = DefaultHasher::default();
    value_1.hash(&mut hasher);
    value_2.hash(&mut hasher);
    hasher.finish()
}

} // verus!
