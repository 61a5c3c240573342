//! A single-walker Metropolis sampler over values that propose their own
//! candidates.
use crate::path::ErgodicAndSymmetric;
use vstd::prelude::*;

verus! {

/// The sampler's state: the value it holds now and that value's cost
/// (lower is better). No history is kept.
pub struct Mcmc<T> {
    current: T,
    current_cost: u64,
}

impl<T: ErgodicAndSymmetric> Mcmc<T> {
    pub closed spec fn spec_current(&self) -> T {
        self.current
    }

    pub closed spec fn spec_cost(&self) -> u64 {
        self.current_cost
    }

    /// A sampler that starts at `initial`, whose cost is `cost`.
    pub fn new(initial: T, cost: u64) -> (r: Self)
        ensures
            r.spec_current() == initial,
            r.spec_cost() == cost,
    {
        Mcmc { current: initial, current_cost: cost }
    }

    pub fn current(&self) -> (r: &T)
        ensures
            *r == self.spec_current(),
    {
        &self.current
    }

    pub fn current_cost(&self) -> (r: u64)
        ensures
            r == self.spec_cost(),
    {
        self.current_cost
    }

    pub fn into_current(self) -> (r: T)
        ensures
            r == self.spec_current(),
    {
        self.current
    }

    /// A candidate proposed by the current value; the state is unchanged.
    pub fn propose(&self, rng: &mut rand::rngs::SmallRng) -> (r: T)
        ensures
            self.spec_current().proposes(r),
    {
        self.current.candidate(rng)
    }

    /// Applies the outcome of the acceptance test for `candidate`: when
    /// `accepted`, the candidate and its cost become the current state;
    /// otherwise nothing changes. Returns `accepted`.
    pub fn settle(&mut self, candidate: T, candidate_cost: u64, accepted: bool) -> (r: bool)
        ensures
            r == accepted,
            accepted ==> final(self).spec_current() == candidate && final(self).spec_cost() == candidate_cost,
            !accepted ==> *final(self) == *old(self),
    {
        if accepted {
            self.current = candidate;
            self.current_cost = candidate_cost;
        }
        accepted
    }
}

} // verus!
