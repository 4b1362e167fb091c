//! Keys the table can hold: each has a 64-bit digest that depends on the
//! key's value alone, and an equality that agrees with its view.
use std::hash::{Hash, Hasher};
use vstd::prelude::*;

verus! {

/// What the table needs of a key type.
pub trait TableKey: View + Sized {
    /// The digest of a key, as a function of its view.
    spec fn spec_digest(k: Self::V) -> u64;

    /// Computes the key's digest.
    fn digest(&self) -> (r: u64)
        ensures
            r == Self::spec_digest(self@),
    ;

    /// Compares two keys.
    fn same_key(&self, other: &Self) -> (r: bool)
        ensures
            r == (self@ == other@),
    ;
}

/// The digest that `ahash::AHasher`, built with its fixed default keys, gives
/// for a string.
pub uninterp spec fn str_digest(s: Seq<char>) -> u64;

/// The digest that `ahash::AHasher`, built with its fixed default keys, gives
/// for a `u64`.
pub uninterp spec fn u64_digest(x: u64) -> u64;

/// The digest that `ahash::AHasher`, built with its fixed default keys, gives
/// for a `u32`.
pub uninterp spec fn u32_digest(x: u32) -> u64;

/// Relies on `ahash::AHasher::default`, fed through `str`'s `Hash`.
/// Built without the crate's `runtime-rng` feature, the hasher's keys are
/// fixed constants, so the digest depends on the characters alone.
#[verifier::external_body]
fn ahash_str(s: &str) -> (r: u64)
    ensures
        r == str_digest(s@),
{
    let mut h = ahash::AHasher::default();
    s.hash(&mut h);
    h.finish()
}

/// Relies on `ahash::AHasher::default`, fed through `u64`'s `Hash`.
/// Built without the crate's `runtime-rng` feature, the hasher's keys are
/// fixed constants, so the digest depends on the integer alone.
#[verifier::external_body]
fn ahash_u64(x: u64) -> (r: u64)
    ensures
        r == u64_digest(x),
{
    let mut h = ahash::AHasher::default();
    x.hash(&mut h);
    h.finish()
}

/// Relies on `ahash::AHasher::default`, fed through `u32`'s `Hash`.
/// Built without the crate's `runtime-rng` feature, the hasher's keys are
/// fixed constants, so the digest depends on the integer alone.
#[verifier::external_body]
fn ahash_u32(x: u32) -> (r: u64)
    ensures
        r == u32_digest(x),
{
    let mut h = ahash::AHasher::default();
    x.hash(&mut h);
    h.finish()
}

impl TableKey for String {
    open spec fn spec_digest(k: Seq<char>) -> u64 {
        str_digest(k)
    }

    fn digest(&self) -> (r: u64) {
        ahash_str(self.as_str())
    }

    fn same_key(&self, other: &Self) -> (r: bool) {
        self.eq(other)
    }
}

impl TableKey for u64 {
    open spec fn spec_digest(k: u64) -> u64 {
        u64_digest(k)
    }

    fn digest(&self) -> (r: u64) {
        ahash_u64(*self)
    }

    fn same_key(&self, other: &Self) -> (r: bool) {
        *self == *other
    }
}

impl TableKey for u32 {
    open spec fn spec_digest(k: u32) -> u64 {
        u32_digest(k)
    }

    fn digest(&self) -> (r: u64) {
        ahash_u32(*self)
    }

    fn same_key(&self, other: &Self) -> (r: bool) {
        *self == *other
    }
}

} // verus!
