//! The random source of the players: the thread-local generator of the
//! `rand` crate. Nothing in this file is proved; the rest of the library
//! relies on what is claimed here.

use vstd::prelude::*;
use rand::rngs::ThreadRng;
use rand::Rng;

verus! {

/// `rand::rngs::ThreadRng`, the handle to the generator of the current
/// thread. Nothing is known of its state.
#[verifier::external_type_specification]
#[verifier::external_body]
pub struct ExThreadRng(ThreadRng);

/// `rand::thread_rng` hands out the handle. Nothing is claimed of it. (It
/// panics where the operating system cannot seed the generator.)
pub assume_specification[ rand::thread_rng ]() -> (rng: ThreadRng);

/// `Rng::gen_range` on the half-open range `0..bound`: the draw lies in the
/// range. It panics on an empty range, hence the `requires`. That the draw is
/// uniform is not something a contract can say.
#[verifier::external_body]
pub(crate) fn draw_below(rng: &mut ThreadRng, bound: u128) -> (draw: u128)
    requires
        bound > 0,
    ensures
        draw < bound,
{
    rng.gen_range(0..bound)
}

} // verus!
