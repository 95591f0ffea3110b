//! Gravity wells: how particles are shared out among the planets.
use vstd::prelude::*;
use crate::rng::random_below;

verus! {

/// Most planets on screen; adding one more evicts the oldest.
pub const MAX_PLANETS: usize = 6;

/// Most trail points kept per particle.
pub const TRAIL_MAX: usize = 60;

/// Number of particles kept in the simulation at all times.
pub const PARTICLE_COUNT: usize = 800;

/// Planet that particle `i` orbits when the particles are dealt out in turn
/// among `n` planets.
pub fn orbit_planet(i: usize, n: usize) -> (p: usize)
    requires
        n > 0,
    ensures
        p == i % n,
        p < n,
{
    i % n
}

/// A planet, picked at random among `n`, for a particle to respawn around.
pub fn respawn_planet(n: usize) -> (p: usize)
    requires
        n > 0,
    ensures
        p < n,
{
    random_below(0, n)
}

} // verus!
