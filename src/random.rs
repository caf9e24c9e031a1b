//! The random draws the generators make, taken from `rand`.
use crate::grid::Position;
use rand::rngs::StdRng;
use rand::seq::SliceRandom;
use rand::Rng;
use vstd::prelude::*;

verus! {

/// rand's standard seedable generator, carried through the generators unopened.
#[verifier::external_type_specification]
#[verifier::external_body]
pub struct ExStdRng(StdRng);

/// Relies on rand's `SliceRandom::choose` on a slice: `None` for an empty slice,
/// otherwise one of its elements.
#[verifier::external_body]
pub(crate) fn choose_position(items: &Vec<Position>, rng: &mut StdRng) -> (r: Option<Position>)
    ensures
        r is None <==> items@.len() == 0,
        r matches Some(p) ==> items@.contains(p),
{
    items.as_slice().choose(rng).cloned()
}

/// Relies on rand's `Rng::gen::<bool>`: a fair coin; nothing is known of its side.
#[verifier::external_body]
pub(crate) fn flip_coin(rng: &mut StdRng) -> bool {
    rng.gen::<bool>()
}

/// Relies on `rand::random::<bool>`: a fair coin from the thread-local generator;
/// nothing is known of its side.
#[verifier::external_body]
pub(crate) fn random_bool() -> bool {
    rand::random::<bool>()
}

} // verus!
