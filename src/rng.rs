use rand::rngs::StdRng;
use rand::seq::IteratorRandom;
use rand::Rng;
use vstd::prelude::*;

verus! {

/// The random source that generation draws from.
#[verifier::external_type_specification]
#[verifier::external_body]
pub struct ExStdRng(StdRng);

/// Relies on `rand::Rng::random::<bool>`: a fair coin. Nothing is known of the outcome.
#[verifier::external_body]
pub(crate) fn coin(rng: &mut StdRng) -> (r: bool) {
    rng.random::<bool>()
}

/// Relies on `rand::Rng::random_range` over `lo..=hi`: a value in the inclusive
/// range, which is not empty.
#[verifier::external_body]
pub(crate) fn uniform_incl(rng: &mut StdRng, lo: usize, hi: usize) -> (r: usize)
    requires
        lo <= hi,
    ensures
        lo <= r <= hi,
{
    rng.random_range(lo..=hi)
}

/// Relies on `rand::seq::IteratorRandom::choose_multiple` over `start..end`:
/// `amount` items of the range, or all of them where it holds fewer, each item
/// at most once.
#[verifier::external_body]
pub(crate) fn choose_indices(rng: &mut StdRng, start: usize, end: usize, amount: usize) -> (r: Vec<usize>)
    requires
        start <= end,
    ensures
        r@.len() == (if amount <= end - start { amount as int } else { end - start }),
        r@.no_duplicates(),
        forall|i: int| 0 <= i < r@.len() ==> start <= #[trigger] r@[i] < end,
{
    (start..end).choose_multiple(rng, amount)
}

} // verus!
