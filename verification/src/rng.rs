//! The pseudo-random generator used by the stochastic solvers.
//!
//! The generator is a value owned by the caller and threaded explicitly
//! through every stochastic call, so runs are seedable and repeatable. Its
//! state is opaque to verification: nothing is assumed of a draw beyond its
//! range, and every verified caller states what holds of its result
//! whatever the draw came out as.

use vstd::prelude::*;

verus! {

/// The rand crate's standard generator, declared so its values can flow
/// through verified signatures. Opaque: no contract sees its state.
#[verifier::external_type_specification]
#[verifier::external_body]
pub struct ExStdRng(rand::rngs::StdRng);

/// Relies on rand's `Rng::gen_range` over `0..bound`, which panics on an
/// empty range and otherwise returns a value of the range.
#[verifier::external_body]
pub(crate) fn rng_below(rng: &mut rand::rngs::StdRng, bound: u64) -> (r: u64)
    requires
        bound >= 1,
    ensures
        r < bound,
{
    rand::Rng::gen_range(rng, 0..bound)
}

/// Relies on rand's `Rng::gen_ratio`, which panics when the denominator is
/// zero or smaller than the numerator and otherwise returns a Bernoulli
/// draw; nothing is assumed of the outcome.
#[verifier::external_body]
pub(crate) fn rng_ratio(rng: &mut rand::rngs::StdRng, numerator: u32, denominator: u32) -> bool
    requires
        1 <= denominator,
        numerator <= denominator,
{
    rand::Rng::gen_ratio(rng, numerator, denominator)
}

} // verus!
