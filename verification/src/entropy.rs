use vstd::prelude::*;
use rand::RngCore;
use std::hash::{Hash, Hasher};

verus! {

/// Fills `n` bytes from `rand::rng()` (the thread-local generator) with `RngCore::fill_bytes`.
/// Only the length of the result is stated: its contents are random.
#[verifier::external_body]
pub(crate) fn random_bytes(n: usize) -> (r: Vec<u8>)
    ensures
        r@.len() == n,
{
    let mut bytes = vec![0u8; n];
    rand::rng().fill_bytes(&mut bytes);
    bytes
}

/// Feeds `value` through its `Hash` impl into a `metrohash::MetroHash64` made by `new()`
/// and returns `finish()`. Nothing is stated of the result: it depends on the `Hash`
/// impl of a caller's type.
#[verifier::external_body]
pub(crate) fn metrohash64_of<H: Hash>(value: &H) -> u64 {
    let mut hasher = metrohash::MetroHash64::new();
    value.hash(&mut hasher);
    hasher.finish()
}

/// Feeds `value` through its `Hash` impl into a `metrohash::MetroHash128` made by `new()`
/// and returns the two halves that `finish128()` gives, low half first. Nothing is stated
/// of the result: it depends on the `Hash` impl of a caller's type.
#[verifier::external_body]
pub(crate) fn metrohash128_of<H: Hash>(value: &H) -> (u64, u64) {
    let mut hasher = metrohash::MetroHash128::new();
    value.hash(&mut hasher);
    hasher.finish128()
}

} // verus!
