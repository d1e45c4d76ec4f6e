use vstd::prelude::*;
use rand::{Rng, SeedableRng, FromEntropy};
use rand::seq::SliceRandom;
use rand_xoshiro::Xoshiro512StarStar;

verus! {

#[verifier::external_type_specification]
#[verifier::external_body]
pub struct ExXoshiro512StarStar(Xoshiro512StarStar);

// The generator is a pure state machine: seeding, drawing and shuffling
// are functions of the seed, the state and the values alone.  These
// names stand for those functions, so contracts downstream can say that
// one seed always produces one game.
/// The generator state a 64-bit seed expands to.
pub uninterp spec fn rng_state_of_seed(seed: u64) -> Xoshiro512StarStar;

/// The value a bounded draw returns, as a function of the generator
/// state and the bound.
pub uninterp spec fn rng_draw_value(r: Xoshiro512StarStar, n: usize) -> usize;

/// The generator state left behind by that draw.
pub uninterp spec fn rng_draw_state(r: Xoshiro512StarStar, n: usize) -> Xoshiro512StarStar;

/// The permutation a shuffle leaves behind, as a function of the
/// generator state and the contents shuffled.
pub uninterp spec fn rng_shuffle_values(r: Xoshiro512StarStar, v: Seq<usize>) -> Seq<usize>;

/// The generator state left behind by that shuffle.
pub uninterp spec fn rng_shuffle_state(r: Xoshiro512StarStar, v: Seq<usize>) -> Xoshiro512StarStar;

/// Relies on the derived `Clone` of `Xoshiro512StarStar`: a plain copy
/// of the generator's state words, so the clone equals the original.
pub assume_specification[ <Xoshiro512StarStar as Clone>::clone ](
    v: &Xoshiro512StarStar,
) -> (res: Xoshiro512StarStar)
    ensures
        res == *v,
;

/// Relies on rand_core's `SeedableRng::seed_from_u64`: the seed bytes
/// are expanded by SplitMix64, so the state is a pure function of the
/// seed.  The call cannot panic.
#[verifier::external_body]
pub(crate) fn rng_from_seed(seed: u64) -> (r: Xoshiro512StarStar)
    ensures
        r == rng_state_of_seed(seed),
{
    Xoshiro512StarStar::seed_from_u64(seed)
}

/// Relies on rand's `FromEntropy::from_entropy`: builds a generator
/// from operating-system entropy.  Nothing holds of the resulting state.
#[verifier::external_body]
pub(crate) fn rng_from_entropy() -> Xoshiro512StarStar {
    Xoshiro512StarStar::from_entropy()
}

/// Relies on rand's `Rng::gen_range(0, n)`: it panics when the range is
/// empty, so `n > 0` is required; the rejection sampling returns a
/// value in `[0, n)` and reads nothing but the generator, so both the
/// value and the new state are functions of the old state and `n`.
#[verifier::external_body]
pub(crate) fn rng_gen_below(rng: &mut Xoshiro512StarStar, n: usize) -> (r: usize)
    requires
        n > 0,
    ensures
        r < n,
        r == rng_draw_value(*old(rng), n),
        *final(rng) == rng_draw_state(*old(rng), n),
{
    rng.gen_range(0, n)
}

/// Relies on rand's `SliceRandom::shuffle`: an in-place Fisher-Yates
/// loop of swaps, so the result holds exactly the elements it started
/// with, and it reads nothing but the generator and the slice, so the
/// outcome and the new state are functions of the old state and the
/// contents.
#[verifier::external_body]
pub(crate) fn rng_shuffle(rng: &mut Xoshiro512StarStar, v: &mut Vec<usize>)
    ensures
        final(v)@.len() == old(v)@.len(),
        final(v)@.to_multiset() == old(v)@.to_multiset(),
        final(v)@ == rng_shuffle_values(*old(rng), old(v)@),
        *final(rng) == rng_shuffle_state(*old(rng), old(v)@),
{
    v.shuffle(rng);
}

} // verus!
