use std::collections::hash_map::RandomState;
use std::hash::BuildHasher;
use vstd::prelude::*;

verus! {

/// Relies on `RandomState::new`: a hasher state with keys drawn for this
/// process and changed on every call.  Nothing is promised of the keys.
#[verifier::external_body]
fn fresh_state() -> (r: RandomState) {
    RandomState::new()
}

/// Relies on `BuildHasher::hash_one` of `RandomState`: the digest of one fixed
/// byte under the state's keys.  It depends on those keys, so nothing is
/// promised of it.
#[verifier::external_body]
fn digest_of(s: &RandomState) -> (r: u64) {
    s.hash_one(0u8)
}

/// A stamp that tells one graph instance from another.  Two stamps drawn in
/// one process differ unless two keyed digests collide.
pub(crate) fn fresh_tag() -> (r: u64) {
    let s = fresh_state();
    digest_of(&s)
}

} // verus!
