//! Random numbers.
//!
//! A generator is seeded per call, so that what follows depends on the seed
//! alone. How a number is drawn from a range is handed in by the caller, as a
//! function from the state of the generator to the next one and the number.

use rand::SeedableRng;
use rand_chacha::ChaCha8Rng;
use vstd::prelude::*;

use crate::single::order::{at_most, below};
use crate::single::Single;

verus! {

/// The generator of the `rand_chacha` crate.
#[verifier::external_type_specification]
#[verifier::external_body]
pub struct ExChaCha8Rng(ChaCha8Rng);

/// The state that `ChaCha8Rng::seed_from_u64` makes of a seed.
pub uninterp spec fn seeded_state(seed: u64) -> ChaCha8Rng;

/// Calls `ChaCha8Rng::seed_from_u64`: the state depends on the seed alone.
#[verifier::external_body]
pub(crate) fn seed_generator(seed: u64) -> (r: ChaCha8Rng)
    ensures
        r == seeded_state(seed),
{
    ChaCha8Rng::seed_from_u64(seed)
}

/// The numbers with the bits `low` and `high` bound a range that holds numbers.
pub open spec fn is_range(low: u32, high: u32) -> bool {
    &&& (Single { bits: low }).finite()
    &&& (Single { bits: high }).finite()
    &&& below(Single { bits: low }, Single { bits: high })
}

/// A source of numbers can draw from the range whose bounds have the bits `low`
/// and `high`, in any state.
pub open spec fn draws_from<D>(draw: D, low: u32, high: u32) -> bool where
    D: Fn(ChaCha8Rng, Single, Single) -> (ChaCha8Rng, Single),
 {
    forall|state: ChaCha8Rng|
        #[trigger] call_requires(draw, (state, Single { bits: low }, Single { bits: high }))
}

/// In the state `before`, a source of numbers may draw `value` from
/// `low..high` and leave the state `after`.
pub open spec fn drawn<D>(
    draw: D,
    before: ChaCha8Rng,
    low: u32,
    high: u32,
    after: ChaCha8Rng,
    value: Single,
) -> bool where D: Fn(ChaCha8Rng, Single, Single) -> (ChaCha8Rng, Single) {
    call_ensures(draw, (before, Single { bits: low }, Single { bits: high }), (after, value))
}

/// Draws from the range whose bounds have the bits `low` and `high`.
pub(crate) fn draw_from<D>(
    draw: &D,
    state: ChaCha8Rng,
    low: u32,
    high: u32,
) -> (r: (ChaCha8Rng, Single)) where D: Fn(ChaCha8Rng, Single, Single) -> (ChaCha8Rng, Single)
    requires
        is_range(low, high),
        draws_from(*draw, low, high),
    ensures
        drawn(*draw, state, low, high, r.0, r.1),
{
    draw(state, Single::from_bits(low), Single::from_bits(high))
}

/// A source of numbers gives one state and range one answer.
pub open spec fn draws_alike<D>(draw: D) -> bool where
    D: Fn(ChaCha8Rng, Single, Single) -> (ChaCha8Rng, Single),
 {
    forall|
        state: ChaCha8Rng,
        low: Single,
        high: Single,
        a: (ChaCha8Rng, Single),
        b: (ChaCha8Rng, Single),
    |
        #[trigger] call_ensures(draw, (state, low, high), a) && #[trigger] call_ensures(
            draw,
            (state, low, high),
            b,
        ) ==> a == b
}

/// What a source of numbers draws lies in its range.
pub open spec fn draws_within<D>(draw: D, low: u32, high: u32) -> bool where
    D: Fn(ChaCha8Rng, Single, Single) -> (ChaCha8Rng, Single),
 {
    forall|before: ChaCha8Rng, after: ChaCha8Rng, value: Single|
        #[trigger] drawn(draw, before, low, high, after, value) ==> at_most(
            Single { bits: low },
            value,
        ) && at_most(value, Single { bits: high })
}

} // verus!
