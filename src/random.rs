use vstd::prelude::*;

use rand::seq::SliceRandom;
use rand::Rng;

verus! {

#[verifier::external_type_specification]
#[verifier::external_body]
pub struct ExStdRng(rand::rngs::StdRng);

/// Relies on `rand::Rng::gen_range` over `0..bound`: a value inside the
/// range, which must not be empty.
#[verifier::external_body]
pub(crate) fn draw_below(rng: &mut rand::rngs::StdRng, bound: usize) -> (r: usize)
    requires
        bound > 0,
    ensures
        r < bound,
{
    rng.gen_range(0..bound)
}

/// Relies on `rand::seq::SliceRandom::shuffle`: the same values, in some order.
#[verifier::external_body]
pub(crate) fn shuffle(v: &mut Vec<usize>, rng: &mut rand::rngs::StdRng)
    ensures
        final(v)@.to_multiset() == old(v)@.to_multiset(),
{
    v.shuffle(rng)
}

/// Relies on `rand::Rng::gen_range` over `0..=bound`: a value inside the
/// range.
#[verifier::external_body]
pub(crate) fn draw_at_most(rng: &mut rand::rngs::StdRng, bound: usize) -> (r: usize)
    ensures
        r <= bound,
{
    rng.gen_range(0..=bound)
}

/// Relies on `rand::seq::SliceRandom::choose`: one element of the slice, or
/// `None` if it is empty.
#[verifier::external_body]
pub(crate) fn choose_from(v: &Vec<usize>, rng: &mut rand::rngs::StdRng) -> (r: Option<usize>)
    ensures
        r.is_some() <==> v@.len() > 0,
        r.is_some() ==> v@.contains(r.unwrap()),
{
    v.choose(rng).copied()
}

} // verus!
