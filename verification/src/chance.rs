//! The random draws node scripts and timers use: a random integer in a
//! half-open range, a percent chance, and a tick interval within bounds.
use vstd::prelude::*;
use rand::Rng;

verus! {

/// Draws from `rand`'s thread-local generator with `Rng::gen_range` over
/// `min..max`; it returns a value in that range (and panics on an empty
/// one, which `requires` rules out). The generator's first use seeds it
/// from the operating system, which the source lets fail with a panic;
/// that is taken to succeed.
#[verifier::external_body]
fn draw_i64(min: i64, max: i64) -> (r: i64)
    requires
        min < max,
    ensures
        min <= r < max,
{
    rand::thread_rng().gen_range(min..max)
}

/// Draws from `rand`'s thread-local generator with `Rng::gen_range` over
/// `min..=max`; it returns a value in that range (and panics on an empty
/// one, which `requires` rules out). Seeding is taken to succeed, as for
/// `draw_i64`.
#[verifier::external_body]
pub(crate) fn draw_u64_inclusive(min: u64, max: u64) -> (r: u64)
    requires
        min <= max,
    ensures
        min <= r <= max,
{
    rand::thread_rng().gen_range(min..=max)
}

/// A random integer in `[min, max)`, e.g. `random_int(0, links.len())` to
/// pick a random peer; an empty range (`max <= min`) gives `min` rather
/// than failing.
pub fn random_int(min: i64, max: i64) -> (r: i64)
    ensures
        max <= min ==> r == min,
        min < max ==> min <= r < max,
{
    if max <= min {
        min
    } else {
        draw_i64(min, max)
    }
}

/// A roll hits when it falls below `percent`.
pub open spec fn is_hit(roll: i64, percent: i64) -> bool {
    roll < percent
}

/// Whether a roll falls below `percent`: the decision `random_chance`
/// makes on the number it drew.
pub fn roll_hits(roll: i64, percent: i64) -> (hit: bool)
    ensures
        hit == is_hit(roll, percent),
{
    roll < percent
}

/// Whether a roll of `0..100` falls below `percent`: true with roughly
/// `percent` percent probability, never for `percent <= 0`, always for
/// `percent >= 100`. The result is `roll_hits` of the drawn roll, which
/// lies in `0..100`.
pub fn random_chance(percent: i64) -> (hit: bool)
    ensures
        percent <= 0 ==> !hit,
        percent >= 100 ==> hit,
        exists|roll: i64| 0 <= roll < 100 && hit == #[trigger] is_hit(roll, percent),
{
    let roll = draw_i64(0, 100);
    let hit = roll_hits(roll, percent);
    assert(0 <= roll < 100 && hit == is_hit(roll, percent));
    hit
}

} // verus!
