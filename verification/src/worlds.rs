//! World resources: the world primitive (two 64-bit seeds), the world derived
//! from it, and its zones. A world is regenerated deterministically from its
//! primitive, so only the primitive is ever stored or sent.

use vstd::prelude::*;
use crate::identity::{SuperSeed, ZoneID};

verus! {

/// Seed data from which a whole world is regenerated deterministically.
#[derive(Copy, Clone, Debug, PartialEq, Eq, Structural)]
pub struct WorldPrimitive {
    pub seed_a: u64,
    pub seed_b: u64,
}

impl WorldPrimitive {
    pub fn new(seed_a: u64, seed_b: u64) -> (r: WorldPrimitive)
        ensures
            r.seed_a == seed_a,
            r.seed_b == seed_b,
    {
        WorldPrimitive { seed_a, seed_b }
    }
}

/// One zone of a world: the seed handed to the terrain generator for
/// locations lying in that zone.
#[derive(Copy, Clone, Debug, PartialEq, Eq, Structural)]
pub struct Zone {
    pub zone_seed: SuperSeed,
}

/// The seed a world's primitive assigns to a zone.
pub open spec fn zone_seed_of(wp: WorldPrimitive, zone_id: ZoneID) -> SuperSeed {
    wp.seed_a ^ (zone_id as u64)
}

/// A world, derived from its primitive. Worlds are never stored: they are
/// cheap to rebuild from the primitive.
#[derive(Copy, Clone, Debug, PartialEq, Eq, Structural)]
pub struct World {
    pub prim: WorldPrimitive,
}

impl World {
    /// Derivation is deterministic: the same primitive always gives the same
    /// world.
    pub fn new(prim: WorldPrimitive) -> (r: World)
        ensures
            r.prim == prim,
    {
        World { prim }
    }

    pub fn get_zone(&self, zone_id: ZoneID) -> (r: Zone)
        ensures
            r.zone_seed == zone_seed_of(self.prim, zone_id),
    {
        Zone { zone_seed: self.prim.seed_a ^ (zone_id as u64) }
    }
}

} // verus!
