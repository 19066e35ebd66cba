//! Termination of a light path in the path integrator.
use vstd::prelude::*;

verus! {

/// Path length from which Russian roulette may end a path.
pub const ROULETTE_START: u32 = 4;

/// What a path does after one bounce has been estimated.
#[derive(Debug, PartialEq, Eq, Structural)]
pub enum Bounce {
    /// The path ends here.
    Stop,
    /// The path goes on from the hit of the sampled direction.
    Continue,
    /// The path survived Russian roulette: it goes on, and its throughput is
    /// divided by the probability of surviving.
    ContinueRescaled,
}

/// Whether a path of this length is subject to Russian roulette.
pub fn roulette_applies(path_length: u32) -> (r: bool)
    ensures
        r == (path_length >= ROULETTE_START),
{
    path_length >= ROULETTE_START
}

/// Decides how a path of length `path_length` goes on. It stops when the
/// sampled direction found no surface to continue from (it escaped, or it
/// reached an emitter); before `ROULETTE_START` it always continues;
/// from then on it continues, rescaled, only if it `survived` the roulette.
pub fn next_bounce(path_length: u32, next_hit_found: bool, survived: bool) -> (r: Bounce)
    ensures
        !next_hit_found ==> r == Bounce::Stop,
        next_hit_found && path_length < ROULETTE_START ==> r == Bounce::Continue,
        next_hit_found && path_length >= ROULETTE_START && survived ==> r
            == Bounce::ContinueRescaled,
        next_hit_found && path_length >= ROULETTE_START && !survived ==> r == Bounce::Stop,
{
    if !next_hit_found {
        Bounce::Stop
    } else if !roulette_applies(path_length) {
        Bounce::Continue
    } else if survived {
        Bounce::ContinueRescaled
    } else {
        Bounce::Stop
    }
}

} // verus!
