use vstd::prelude::*;
use rand::seq::SliceRandom;
use rand::Rng;

verus! {

/// `rand::Rng::gen_range`, with the generator that `rand::thread_rng` hands
/// out. Trusted: the number lies in the half-open range; the call panics on
/// an empty range, which the precondition leaves out.
#[verifier::external_body]
pub(crate) fn random_in_range(low: usize, high: usize) -> (n: usize)
    requires
        low < high,
    ensures
        low <= n < high,
{
    rand::thread_rng().gen_range(low, high)
}

/// `rand::seq::SliceRandom::choose`, with the generator that
/// `rand::thread_rng` hands out. Trusted: nothing comes out of an empty
/// list, and one of its entries out of any other.
#[verifier::external_body]
pub(crate) fn choose_one<T: Copy>(items: &Vec<T>) -> (picked: Option<T>)
    ensures
        items@.len() == 0 ==> picked is None,
        items@.len() > 0 ==> picked is Some && items@.contains(picked->0),
{
    items.choose(&mut rand::thread_rng()).copied()
}

} // verus!
