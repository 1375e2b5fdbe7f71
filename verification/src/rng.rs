//! The random source the dungeon generator draws from.

use vstd::prelude::*;

verus! {

/// `rltk::RandomNumberGenerator`, carried through as an opaque value:
/// nothing is known of its state.
#[verifier::external_type_specification]
#[verifier::external_body]
pub struct ExRandomNumberGenerator(rltk::RandomNumberGenerator);

/// `rltk::RandomNumberGenerator::new`: a generator seeded from the system's
/// entropy. Nothing is claimed of the numbers it will give.
#[verifier::external_body]
pub(crate) fn fresh_rng() -> (rng: rltk::RandomNumberGenerator) {
    rltk::RandomNumberGenerator::new()
}

/// `rltk::RandomNumberGenerator::range` on `i32`: a number from `min` up to,
/// not including, `max`. The outside function panics on an empty range, so
/// `min < max` is required; which number of the range comes is left open.
#[verifier::external_body]
pub(crate) fn draw_range(rng: &mut rltk::RandomNumberGenerator, min: i32, max: i32) -> (r: i32)
    requires
        min < max,
    ensures
        min <= r < max,
{
    rng.range(min, max)
}

/// `rltk::RandomNumberGenerator::roll_dice`: the sum of `n` rolls of a die
/// with faces `1..=die_type`. The outside function adds one to `die_type` and
/// sums in `i32`, so the die must have a face, stay below `i32::MAX`, and the
/// largest possible sum must fit; the sum then lies between `n` and
/// `n * die_type`.
#[verifier::external_body]
pub(crate) fn roll_dice(rng: &mut rltk::RandomNumberGenerator, n: i32, die_type: i32) -> (r: i32)
    requires
        0 <= n,
        1 <= die_type < i32::MAX,
        n * die_type <= i32::MAX,
    ensures
        n <= r <= n * die_type,
{
    rng.roll_dice(n, die_type)
}

} // verus!
