//! Trusted boundary to the `rand` crate: Bernoulli trials used by procedural
//! obstacle generation.

use vstd::prelude::*;
use rand::distributions::Distribution;

verus! {

/// Declares rand's `Bernoulli` distribution type; its values are opaque here.
#[verifier::external_type_specification]
#[verifier::external_body]
pub struct ExBernoulli(rand::distributions::Bernoulli);

/// Relies on rand's `Bernoulli::from_ratio`, which returns `Ok` exactly when
/// the numerator does not exceed the non-zero denominator.
#[verifier::external_body]
pub(crate) fn bernoulli_from_ratio(numerator: u32, denominator: u32) -> rand::distributions::Bernoulli
    requires
        0 < denominator,
        numerator <= denominator,
{
    rand::distributions::Bernoulli::from_ratio(numerator, denominator).unwrap()
}

/// Relies on rand's `Distribution::sample` for `Bernoulli` over `thread_rng`.
/// The draw is random, so nothing is promised of the result.
#[verifier::external_body]
pub(crate) fn bernoulli_sample(d: &rand::distributions::Bernoulli) -> bool {
    d.sample(&mut rand::thread_rng())
}

} // verus!
