//! The random source and the draws that the library makes from it.

use rand::seq::SliceRandom;
use rand::Rng;
use vstd::prelude::*;

verus! {

#[verifier::external_type_specification]
#[verifier::external_body]
pub struct ExSmallRng(rand::rngs::SmallRng);

/// Relies on `rand::Rng::gen_range(0, n)`: a value in `0..n`; it panics when `n == 0`.
#[verifier::external_body]
pub(crate) fn below(rng: &mut rand::rngs::SmallRng, n: usize) -> (r: usize)
    requires
        n > 0,
    ensures
        r < n,
{
    rng.gen_range(0, n)
}

/// Relies on `rand::seq::SliceRandom::choose`: `None` on an empty slice,
/// otherwise one of its elements.
#[verifier::external_body]
pub(crate) fn choose_one<T: Copy>(rng: &mut rand::rngs::SmallRng, items: &Vec<T>) -> (r: Option<T>)
    ensures
        r.is_none() <==> items@.len() == 0,
        r matches Some(x) ==> items@.contains(x),
{
    items.choose(rng).copied()
}

} // verus!
