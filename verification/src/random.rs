//! The random source that sampling draws from.

use bevy_turborand::rng::Rng;
use bevy_turborand::TurboRand;
use vstd::prelude::*;

verus! {

/// The generator `Rng` of the outside crate. Nothing is known of its state.
#[verifier::external_type_specification]
#[verifier::external_body]
pub struct ExRng(Rng);

/// `TurboRand::usize` on the range `0..bound`: for a range that is not
/// empty the generator returns a number inside it. Which one depends on the
/// generator's state, so nothing more is claimed.
#[verifier::external_body]
pub(crate) fn draw_below(rng: &mut Rng, bound: usize) -> (roll: usize)
    requires
        bound > 0,
    ensures
        roll < bound,
{
    rng.usize(0..bound)
}

} // verus!
