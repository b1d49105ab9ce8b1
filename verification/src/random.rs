//! Random draws, from the thread-local generator of `rand`.

use vstd::prelude::*;
use rand::Rng;
use rand::seq::SliceRandom;

verus! {

/// `rand::Rng::gen_range(0..upper)` on `rand::thread_rng()`: a number drawn
/// uniformly below `upper`. The crate panics on an empty range, hence
/// `upper > 0`. Which number comes out is left open.
#[verifier::external_body]
pub(crate) fn random_below(upper: u32) -> (res: u32)
    requires
        upper > 0,
    ensures
        res < upper,
{
    rand::thread_rng().gen_range(0..upper)
}

/// `rand::seq::SliceRandom::choose` on `rand::thread_rng()`: one of the
/// positions, drawn uniformly, and nothing exactly when there are none. Which
/// one comes out is left open.
#[verifier::external_body]
pub(crate) fn choose_position(positions: &Vec<(i32, i32)>) -> (res: Option<(i32, i32)>)
    ensures
        res is Some <==> positions@.len() > 0,
        res matches Some(p) ==> positions@.contains(p),
{
    positions.as_slice().choose(&mut rand::thread_rng()).copied()
}

} // verus!
