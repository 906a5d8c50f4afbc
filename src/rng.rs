//! The simulation's single random stream, and the draws made from it.
use vstd::prelude::*;
use rand::{FromEntropy, Rng, SeedableRng, XorShiftRng};
use crate::network::LaneID;

verus! {

#[verifier::external_type_specification]
#[verifier::external_body]
pub struct ExXorShiftRng(XorShiftRng);

/// The generator whose sixteen seed bytes are all `seed`.
pub uninterp spec fn seeded_rng(seed: u8) -> XorShiftRng;

/// Relies on rand's `SeedableRng::from_seed` for `XorShiftRng`: a generator whose
/// sixteen seed bytes are all `seed`; it reads nothing but the seed.
#[verifier::external_body]
pub(crate) fn rng_from_seed(seed: u8) -> (r: XorShiftRng)
    ensures
        r == seeded_rng(seed),
{
    XorShiftRng::from_seed([seed; 16])
}

/// Relies on rand's `FromEntropy::from_entropy` for `XorShiftRng`: a generator seeded
/// from the operating system.
#[verifier::external_body]
pub(crate) fn rng_from_entropy() -> XorShiftRng {
    XorShiftRng::from_entropy()
}

/// Relies on rand's `Rng::gen_range(0, n)`: a value in `[0, n)`; it panics when `n` is 0.
#[verifier::external_body]
pub(crate) fn gen_index(rng: &mut XorShiftRng, n: usize) -> (r: usize)
    requires
        n > 0,
    ensures
        r < n,
{
    rng.gen_range(0, n)
}

/// Relies on rand's `Rng::shuffle`: the slice is permuted in place by swaps.
#[verifier::external_body]
pub(crate) fn shuffle_lanes(rng: &mut XorShiftRng, v: &mut Vec<LaneID>)
    ensures
        final(v)@.len() == old(v)@.len(),
        final(v)@.to_multiset() == old(v)@.to_multiset(),
{
    rng.shuffle(v.as_mut_slice())
}

/// How many uniform draws the goal selection makes before it settles for the first
/// other element of the pool.
pub const MAX_DRAWS: u32 = 1000;

/// Picks an element of `choices` other than `except`, by drawing uniformly from the
/// pool and rejecting `except`. After `MAX_DRAWS` rejected draws it takes the first
/// other element, so the selection always ends.
pub fn choose_different(rng: &mut XorShiftRng, choices: &Vec<LaneID>, except: LaneID) -> (r: LaneID)
    requires
        choices@.len() > 1,
        exists|j: int| 0 <= j < choices@.len() && choices@[j] != except,
    ensures
        r != except,
        choices@.contains(r),
{
    let mut tries: u32 = 0;
    while tries < MAX_DRAWS
        invariant
            choices@.len() > 1,
        decreases MAX_DRAWS - tries,
    {
        let idx = gen_index(rng, choices.len());
        let choice = choices[idx];
        if choice != except {
            return choice;
        }
        tries = tries + 1;
    }
    let mut j: usize = 0;
    while j < choices.len()
        invariant
            j <= choices@.len(),
            exists|k: int| j <= k < choices@.len() && choices@[k] != except,
        decreases choices@.len() - j,
    {
        if choices[j] != except {
            return choices[j];
        }
        j = j + 1;
    }
    choices[0]
}

} // verus!
