//! Deterministic pseudo-random draw for the random branching strategy.

use vstd::prelude::*;

use smolprng::JsfLarge;
use smolprng::PRNG;

verus! {

/// The first `u64` drawn from a Jsf generator seeded with `seed`.  The
/// generator is a pure integer state machine, so this is a function of the
/// seed alone.
pub uninterp spec fn jsf_u64(seed: u64) -> u64;

/// Relies on smolprng's `PRNG::gen_u64` over a `JsfLarge` generator built
/// with `JsfLarge::from(seed)`: seeding and drawing are deterministic
/// integer arithmetic on the seed, with no other input.
#[verifier::external_body]
pub(crate) fn prng_draw(seed: u64) -> (r: u64)
    ensures
        r == jsf_u64(seed),
{
    let mut prng = PRNG { generator: JsfLarge::from(seed) };
    prng.gen_u64()
}

} // verus!
