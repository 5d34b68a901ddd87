//! Trusted access to the rand crate: the library's randomness comes through
//! these wrappers, whose contracts state only what rand's source shows of
//! every possible outcome.

use rand::distributions::{DistString, Distribution};
use vstd::prelude::*;

verus! {

/// Declares rand::rngs::ThreadRng, the thread-local generator's handle, so
/// that the wrappers below can take it; the type stays opaque.
#[verifier::external_type_specification]
#[verifier::external_body]
pub struct ExThreadRng(rand::rngs::ThreadRng);

/// True of the bytes rand's alphanumeric distribution can produce:
/// `A`–`Z`, `a`–`z` and `0`–`9`.
pub open spec fn is_alnum_byte(b: u8) -> bool {
    (65 <= b <= 90) || (97 <= b <= 122) || (48 <= b <= 57)
}

/// Relies on rand::Rng::gen_range over the inclusive range `lo..=hi`: it
/// panics on an empty range — ruled out here — and otherwise returns a
/// sample within the range. Nothing more can be said of a random draw.
#[verifier::external_body]
pub(crate) fn gen_range_u64(rng: &mut rand::rngs::ThreadRng, lo: u64, hi: u64) -> (r: u64)
    requires
        lo <= hi,
    ensures
        lo <= r <= hi,
{
    rand::Rng::gen_range(rng, lo..=hi)
}

/// Relies on rand::distributions::Alphanumeric with DistString::sample_string:
/// exactly `len` characters drawn from `A`–`Z`, `a`–`z`, `0`–`9`, each a
/// single byte. Which ones come out is random, so nothing else is stated.
#[verifier::external_body]
pub(crate) fn sample_alnum_bytes(rng: &mut rand::rngs::ThreadRng, len: usize) -> (r: Vec<u8>)
    ensures
        r@.len() == len,
        forall|i: int| 0 <= i < r@.len() ==> is_alnum_byte(#[trigger] r@[i]),
{
    rand::distributions::Alphanumeric.sample_string(rng, len).into_bytes()
}

/// Relies on rand's Standard distribution sampled as an iterator: exactly
/// `len` bytes, with nothing promised of their values.
#[verifier::external_body]
pub(crate) fn sample_bytes(rng: &mut rand::rngs::ThreadRng, len: usize) -> (r: Vec<u8>)
    ensures
        r@.len() == len,
{
    rand::distributions::Standard.sample_iter(rng).take(len).collect()
}

} // verus!
