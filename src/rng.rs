//! Randomness, from rand and statrs, behind contracts that hold of every
//! outcome.

use rand::rngs::StdRng;
use rand::seq::{IteratorRandom, SliceRandom};
use rand::Rng;
use statrs::distribution::Poisson;
use statrs::StatsError;
use vstd::prelude::*;

verus! {

#[verifier::external_type_specification]
#[verifier::external_body]
pub struct ExStdRng(StdRng);

#[verifier::external_type_specification]
#[verifier::external_body]
pub struct ExPoisson(Poisson);

#[verifier::external_type_specification]
#[verifier::external_body]
pub struct ExStatsError(StatsError);

/// Relies on rand's `Rng::gen_range` over an inclusive range: the draw lies
/// within the bounds, and the call panics only on an empty range.
#[verifier::external_body]
pub(crate) fn uniform_in(rng: &mut StdRng, lo: usize, hi: usize) -> (r: usize)
    requires
        lo <= hi,
    ensures
        lo <= r <= hi,
{
    rng.gen_range(lo..=hi)
}

/// Relies on rand's `SliceRandom::shuffle`: the slice is permuted in place.
#[verifier::external_body]
pub(crate) fn shuffle<T>(rng: &mut StdRng, v: &mut Vec<T>)
    ensures
        final(v)@.to_multiset() == old(v)@.to_multiset(),
        final(v)@.len() == old(v)@.len(),
{
    v.shuffle(rng)
}

/// Relies on rand's `IteratorRandom::choose_multiple`: `amount` elements, or
/// all of them when fewer are offered, each taken from a distinct position.
#[verifier::external_body]
pub(crate) fn choose_multiple<T: Copy>(rng: &mut StdRng, pool: &Vec<T>, amount: usize) -> (r: Vec<T>)
    ensures
        r@.len() == if amount <= pool@.len() { amount as nat } else { pool@.len() },
        r@.to_multiset().subset_of(pool@.to_multiset()),
{
    pool.iter().copied().choose_multiple(rng, amount)
}

/// Relies on statrs' `Poisson::new`, for the rate `count / slots`: it
/// refuses exactly the rates that are NaN or not positive. Both integers
/// reach the crate's floating-point type through `Poisson::new` itself,
/// which holds them as its rate; a zero `count` is refused there already.
#[verifier::external_body]
pub(crate) fn poisson(count: usize, slots: usize) -> (r: Result<Poisson, StatsError>)
    requires
        slots > 0,
    ensures
        r is Ok <==> count > 0,
{
    let count = Poisson::new(count as _)?;
    let slots = Poisson::new(slots as _)?;
    Poisson::new(count.lambda() / slots.lambda())
}

/// Relies on statrs' Poisson sampling: a draw is a count, of any size.
#[verifier::external_body]
pub(crate) fn poisson_draw(rng: &mut StdRng, p: &Poisson) -> (r: u64) {
    rand::distributions::Distribution::sample(p, rng) as u64
}

} // verus!
