use vstd::prelude::*;

use rand::rngs::ThreadRng;
use rand::seq::SliceRandom;
use rand::Rng;

verus! {

/// The thread-local random number generator of `rand`, carried through the
/// search as an opaque value.
#[verifier::external_type_specification]
#[verifier::external_body]
pub struct ExThreadRng(ThreadRng);

/// Calls `rand::thread_rng`. Nothing is claimed of the generator it hands
/// back: its state depends on the operating system's entropy.
#[verifier::external_body]
pub(crate) fn new_rng() -> ThreadRng {
    rand::thread_rng()
}

/// Calls `SliceRandom::choose` on a slice. Claimed, as its source shows: the
/// result is `None` exactly when the slice is empty, and otherwise refers to
/// an element of the slice. Which element is left open: it is drawn at random.
#[verifier::external_body]
pub(crate) fn pick<'a, T>(items: &'a [T], rng: &mut ThreadRng) -> (r: Option<&'a T>)
    ensures
        r is None <==> items@.len() == 0,
        r matches Some(x) ==> items@.contains(*x),
{
    items.choose(rng)
}

/// Calls `Rng::gen_range` on the half-open range `0..bound`, which panics on
/// an empty range. Claimed: the result lies in the range. Which value is left
/// open: it is drawn at random.
#[verifier::external_body]
pub(crate) fn gen_below(rng: &mut ThreadRng, bound: usize) -> (r: usize)
    requires
        bound > 0,
    ensures
        r < bound,
{
    rng.gen_range(0..bound)
}

/// Calls `Rng::gen_ratio`, which panics when the denominator is zero or below
/// the numerator. Claimed, as its documentation guarantees: a zero numerator
/// always gives `false`, a numerator equal to the denominator always gives
/// `true`. Any other outcome is drawn at random.
#[verifier::external_body]
pub(crate) fn gen_ratio(rng: &mut ThreadRng, numerator: u32, denominator: u32) -> (r: bool)
    requires
        0 < denominator,
        numerator <= denominator,
    ensures
        numerator == 0 ==> !r,
        numerator == denominator ==> r,
{
    rng.gen_ratio(numerator, denominator)
}

} // verus!
