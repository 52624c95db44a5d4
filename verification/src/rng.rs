//! The random choices the agents make, drawn from `rand`'s thread-local
//! generator.
use vstd::prelude::*;

use rand::rngs::ThreadRng;
use rand::seq::{IndexedRandom, SliceRandom};
use rand::Rng;

use crate::othello::Play;

verus! {

/// `rand::rngs::ThreadRng`, the handle to the thread-local generator.
#[verifier::external_type_specification]
#[verifier::external_body]
pub struct ExThreadRng(ThreadRng);

/// Calls `rand::rng`, which hands out the thread-local generator. Nothing
/// is stated of the handle: it is only passed on to the calls below.
#[verifier::external_body]
pub(crate) fn thread_rng() -> ThreadRng {
    rand::rng()
}

/// Calls `Rng::random_range` on `0..n`: the result is some index below `n`,
/// which one is left to chance. `random_range` panics on an empty range,
/// so `n` must be positive.
#[verifier::external_body]
pub(crate) fn random_below(rng: &mut ThreadRng, n: usize) -> (r: usize)
    requires
        n > 0,
    ensures
        r < n,
{
    rng.random_range(0..n)
}

/// Calls `SliceRandom::shuffle` on the plays: they come back in some order,
/// each as often as before; the order is left to chance.
#[verifier::external_body]
pub(crate) fn shuffle_plays(plays: &mut Vec<Play>, rng: &mut ThreadRng)
    ensures
        final(plays)@.len() == old(plays)@.len(),
        final(plays)@.to_multiset() == old(plays)@.to_multiset(),
{
    plays.shuffle(rng);
}

/// Calls `IndexedRandom::choose` on the plays: `None` exactly when there
/// are none, otherwise one of them, which one is left to chance.
#[verifier::external_body]
pub(crate) fn choose_play(plays: &Vec<Play>, rng: &mut ThreadRng) -> (r: Option<Play>)
    ensures
        r is None <==> plays@.len() == 0,
        r matches Some(p) ==> plays@.contains(p),
{
    plays.choose(rng).copied()
}

} // verus!
