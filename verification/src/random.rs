//! The random choices that the library makes, each drawn from `rand`.
use rand::rngs::StdRng;
use rand::seq::IteratorRandom;
use rand::seq::SliceRandom;
use rand::Rng;
use vstd::prelude::*;

verus! {

/// The random number generator that the library draws from.
#[verifier::external_type_specification]
#[verifier::external_body]
pub struct ExStdRng(StdRng);

/// A uniformly drawn number in `0..n`, by `Rng::random_range` of `rand`,
/// which panics on an empty range. The contract states only that the number
/// lies in the range; which number comes out is left to chance.
#[verifier::external_body]
pub(crate) fn random_below(rng: &mut StdRng, n: usize) -> (r: usize)
    requires
        n > 0,
    ensures
        r < n,
{
    rng.random_range(0..n)
}

/// A uniformly drawn number in `lo..=hi`, by `Rng::random_range` of `rand`.
/// The contract states only that the number lies in the range.
#[verifier::external_body]
pub(crate) fn random_between(rng: &mut StdRng, lo: usize, hi: usize) -> (r: usize)
    requires
        lo <= hi,
    ensures
        lo <= r <= hi,
{
    rng.random_range(lo..=hi)
}

/// A fair coin, by `Rng::random::<bool>` of `rand`. Nothing is stated of
/// which side comes up.
#[verifier::external_body]
pub(crate) fn random_bool(rng: &mut StdRng) -> bool {
    rng.random::<bool>()
}

/// Shuffles `v` in place by `SliceRandom::shuffle` of `rand`. The contract
/// states that the result is a permutation of the input; which permutation
/// is left to chance.
#[verifier::external_body]
pub(crate) fn shuffle(rng: &mut StdRng, v: &mut Vec<usize>)
    ensures
        final(v)@.to_multiset() == old(v)@.to_multiset(),
        final(v)@.len() == old(v)@.len(),
{
    v.shuffle(rng);
}

/// `amount` distinct numbers of `0..n` (or all of them, when `amount > n`),
/// by `IteratorRandom::choose_multiple` of `rand`. Which numbers come out,
/// and in which order, is left to chance.
#[verifier::external_body]
pub(crate) fn choose_multiple_below(rng: &mut StdRng, n: usize, amount: usize) -> (res: Vec<usize>)
    ensures
        res@.len() == if amount <= n { amount } else { n },
        forall|i: int| 0 <= i < res@.len() ==> res@[i] < n,
        forall|i: int, j: int| 0 <= i < res@.len() && 0 <= j < res@.len() && i != j ==> res@[i] != res@[j],
{
    (0..n).choose_multiple(rng, amount)
}

} // verus!
