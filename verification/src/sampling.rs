//! Weighted random sampling, built on the `rand` crate.
//!
//! The selector wraps a categorical distribution over a weight vector and
//! draws one partition index per call, each draw landing on an index whose
//! weight is positive.
use vstd::prelude::*;

use crate::SplitError;
use crate::check_weights;
use crate::sum_weights;
use crate::valid_weights;

verus! {

#[verifier::external_type_specification]
#[verifier::external_body]
pub struct ExThreadRng(rand::rngs::ThreadRng);

/// Holds a `rand::distributions::WeightedIndex` categorical distribution;
/// the distribution's generic bounds keep the type itself from being
/// declared to the verifier, so it sits in an opaque field here.
#[verifier::external_body]
pub struct IndexDist {
    dist: rand::distributions::WeightedIndex<i64>,
}

/// The weight vector the distribution held by an `IndexDist` was built from.
pub uninterp spec fn dist_weights(d: IndexDist) -> Seq<i64>;

/// Relies on `rand::thread_rng`: a handle to the thread-local generator.
#[verifier::external_body]
pub(crate) fn fresh_rng() -> rand::rngs::ThreadRng {
    rand::thread_rng()
}

/// Relies on `rand::distributions::WeightedIndex::new`, which returns `Ok`
/// exactly when the weights are non-empty, none is negative, and their total
/// is positive; the bound on the sum keeps its internal addition in range.
#[verifier::external_body]
fn make_weighted_index(ws: &Vec<i64>) -> (d: IndexDist)
    requires
        valid_weights(ws@),
        sum_weights(ws@) <= i64::MAX,
    ensures
        dist_weights(d) == ws@,
{
    IndexDist { dist: rand::distributions::WeightedIndex::new(ws.iter()).unwrap() }
}

/// Relies on `WeightedIndex::sample`: the drawn index is in range, and its
/// weight is positive (the uniform draw over `[0, total)` is matched against
/// strict prefix sums, which cannot land on a zero-width interval).
#[verifier::external_body]
fn sample_index(d: &IndexDist, rng: &mut rand::rngs::ThreadRng) -> (idx: usize)
    ensures
        idx < dist_weights(*d).len(),
        dist_weights(*d)[idx as int] > 0,
{
    rand::distributions::Distribution::sample(&d.dist, rng)
}

/// Relies on `rand::seq::SliceRandom::shuffle`: a Fisher-Yates shuffle, so
/// the result is a permutation of the input.
#[verifier::external_body]
pub(crate) fn shuffle_vec<T>(v: &mut Vec<T>, rng: &mut rand::rngs::ThreadRng)
    ensures
        final(v)@.to_multiset() == old(v)@.to_multiset(),
        final(v)@.len() == old(v)@.len(),
{
    rand::seq::SliceRandom::shuffle(v.as_mut_slice(), rng)
}

/// Draws partition indices with probability proportional to a weight vector.
///
/// Only decides which partition one element lands in; every draw is
/// independent and never lands on a zero-weight partition.
pub struct WeightedSelector {
    weights: Vec<i64>,
    dist: IndexDist,
    rng: rand::rngs::ThreadRng,
}

impl WeightedSelector {
    /// The selector's distribution matches its weight vector.
    pub closed spec fn wf(self) -> bool {
        &&& valid_weights(self.weights@)
        &&& dist_weights(self.dist) == self.weights@
    }

    /// The weight vector this selector draws from.
    pub closed spec fn weights_view(self) -> Seq<i64> {
        self.weights@
    }

    /// Builds a selector, rejecting empty, negative or all-zero weights.
    pub fn new(ws: Vec<i64>) -> (r: Result<WeightedSelector, SplitError>)
        requires
            sum_weights(ws@) <= i64::MAX,
        ensures
            match r {
                Ok(sel) => valid_weights(ws@) && sel.wf() && sel.weights_view() == ws@,
                Err(e) => e == SplitError::InvalidWeights && !valid_weights(ws@),
            },
    {
        if !check_weights(&ws) {
            return Err(SplitError::InvalidWeights);
        }
        let dist = make_weighted_index(&ws);
        Ok(WeightedSelector { weights: ws, dist, rng: fresh_rng() })
    }

    /// Number of partitions.
    pub fn len(&self) -> (n: usize)
        ensures
            n == self.weights_view().len(),
    {
        self.weights.len()
    }

    /// Draws one partition index; the weight at the drawn index is positive.
    pub fn sample(&mut self) -> (idx: usize)
        requires
            old(self).wf(),
        ensures
            final(self).wf(),
            final(self).weights_view() == old(self).weights_view(),
            idx < old(self).weights_view().len(),
            old(self).weights_view()[idx as int] > 0,
    {
        sample_index(&self.dist, &mut self.rng)
    }
}

} // verus!
