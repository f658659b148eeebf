use vstd::prelude::*;

use dscale::rand::rngs::SmallRng;
use dscale::rand::distr::{Distribution, Uniform};
use dscale::rand::seq::{IndexedRandom, IteratorRandom, SliceRandom};

use crate::client::Pid;

verus! {

/// The seeded generator every process draws its random choices from.
#[verifier::external_type_specification]
#[verifier::external_body]
pub struct ExSmallRng(SmallRng);

/// `index_seq` picks, at pairwise distinct positions of `from`, the elements of `picked`.
pub open spec fn picked_at_distinct_positions(from: Seq<Pid>, picked: Seq<Pid>, index_seq: Seq<int>) -> bool {
    &&& index_seq.len() == picked.len()
    &&& index_seq.no_duplicates()
    &&& forall|i: int| 0 <= i < index_seq.len() ==> 0 <= #[trigger] index_seq[i] < from.len()
    &&& forall|i: int| 0 <= i < index_seq.len() ==> picked[i] == from[#[trigger] index_seq[i]]
}

/// Calls rand's `SliceRandom::shuffle` on the vector. The shuffle swaps elements of
/// the slice in place, so the result is a permutation of the input; which
/// permutation depends on the generator, so nothing more is claimed.
#[verifier::external_body]
pub(crate) fn shuffle_indices(v: &mut Vec<usize>, rng: &mut SmallRng)
    ensures
        final(v)@.to_multiset() == old(v)@.to_multiset(),
{
    v.as_mut_slice().shuffle(rng);
}

/// Calls rand's `IndexedRandom::sample`, which draws `min(amount, from.len())`
/// distinct positions of `from` at random and yields the elements found there. Only
/// that shape is claimed; which positions are drawn depends on the generator.
#[verifier::external_body]
pub(crate) fn sample_pids(from: &[Pid], rng: &mut SmallRng, amount: usize) -> (picked: Vec<Pid>)
    ensures
        picked@.len() == if amount < from@.len() { amount as int } else { from@.len() as int },
        exists|index_seq: Seq<int>| picked_at_distinct_positions(from@, picked@, index_seq),
{
    from.sample(rng, amount).copied().collect()
}

/// Calls rand's `Uniform::new_inclusive(low, high)`, which is refused only when
/// `low > high`, and draws one value from it: a value between the two bounds, both
/// included. Which one depends on the generator.
#[verifier::external_body]
pub(crate) fn uniform_inclusive(low: usize, high: usize, rng: &mut SmallRng) -> (v: usize)
    requires
        low <= high,
    ensures
        low <= v <= high,
{
    Uniform::new_inclusive(low, high).expect("empty range").sample(rng)
}

/// Calls rand's `IteratorRandom::choose` on the range `0..n`, an iterator of exact
/// size: it yields `None` when the range is empty and otherwise one of its values,
/// which one depending on the generator.
#[verifier::external_body]
pub(crate) fn choose_below(n: usize, rng: &mut SmallRng) -> (r: Option<usize>)
    ensures
        match r {
            Some(k) => k < n,
            None => n == 0,
        },
{
    (0..n).choose(rng)
}

}
