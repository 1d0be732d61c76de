//! World caches: the server-side lazy world-primitive store and the
//! client-side cache of world primitives and the worlds derived from them.

use vstd::prelude::*;
use crate::identity::WorldID;
use crate::table::Table;
use crate::worlds::{World, WorldPrimitive};

verus! {

/// Relies on `rand::random`: draws a value from the thread-local generator.
/// Nothing can be promised of a random value.
pub assume_specification<T>[ rand::random::<T> ]() -> (r: T)
    where
        rand::distributions::Standard: rand::distributions::Distribution<T>,
;

/// The server's world-primitive store: worlds are invented lazily, on first
/// demand, with fresh random seeds, and kept forever after.
pub struct WorldLoader {
    world_primitives: Table<WorldPrimitive>,
}

impl WorldLoader {
    pub closed spec fn prims_map(self) -> Map<u64, WorldPrimitive> {
        self.world_primitives.as_map()
    }

    pub fn new() -> (r: WorldLoader)
        ensures
            r.prims_map() == Map::<u64, WorldPrimitive>::empty(),
    {
        WorldLoader { world_primitives: Table::new() }
    }

    /// The primitive of `wid`: the cached one if present, else a freshly
    /// invented one that is cached from now on — so repeated calls agree.
    pub fn get_world_primitive_for(&mut self, wid: WorldID) -> (r: WorldPrimitive)
        ensures
            final(self).prims_map().dom().contains(wid as u64),
            r == final(self).prims_map()[wid as u64],
            old(self).prims_map().dom().contains(wid as u64) ==> *final(self) == *old(self) && r
                == old(self).prims_map()[wid as u64],
            !old(self).prims_map().dom().contains(wid as u64) ==> final(self).prims_map() == old(
                self,
            ).prims_map().insert(wid as u64, r),
    {
        let key = wid as u64;
        if !self.world_primitives.contains_key(key) {
            let wp = WorldPrimitive::new(rand::random::<u64>(), rand::random::<u64>());
            self.world_primitives.insert(key, wp);
        }
        *self.world_primitives.get(key).unwrap()
    }
}

/// The client's cache of world primitives and of the worlds derived from
/// them; derivation is idempotent and never overwrites an existing entry.
pub struct CacheManager {
    world_primitives: Table<WorldPrimitive>,
    worlds: Table<World>,
}

impl CacheManager {
    pub closed spec fn prims_map(self) -> Map<u64, WorldPrimitive> {
        self.world_primitives.as_map()
    }

    pub closed spec fn worlds_map(self) -> Map<u64, World> {
        self.worlds.as_map()
    }

    /// Every cached world is the deterministic derivation of its cached
    /// primitive.
    pub open spec fn wf(self) -> bool {
        forall|w: u64|
            #[trigger] self.worlds_map().dom().contains(w) ==> self.prims_map().dom().contains(w)
                && self.worlds_map()[w] == (World { prim: self.prims_map()[w] })
    }

    pub fn new() -> (r: CacheManager)
        ensures
            r.wf(),
            r.prims_map() == Map::<u64, WorldPrimitive>::empty(),
            r.worlds_map() == Map::<u64, World>::empty(),
    {
        CacheManager { world_primitives: Table::new(), worlds: Table::new() }
    }

    pub fn world_is_cached(&self, wid: WorldID) -> (r: bool)
        ensures
            r == self.worlds_map().dom().contains(wid as u64),
    {
        self.worlds.contains_key(wid as u64)
    }

    pub fn get_world(&self, wid: WorldID) -> (r: Option<&World>)
        ensures
            match r {
                Some(w) => self.worlds_map().dom().contains(wid as u64) && *w
                    == self.worlds_map()[wid as u64],
                None => !self.worlds_map().dom().contains(wid as u64),
            },
    {
        self.worlds.get(wid as u64)
    }

    /// Remember a primitive pushed by the server; a primitive already held
    /// is never overwritten.
    pub fn cache_world_primitive(&mut self, wid: WorldID, wp: WorldPrimitive)
        requires
            old(self).wf(),
        ensures
            final(self).wf(),
            final(self).worlds_map() == old(self).worlds_map(),
            old(self).prims_map().dom().contains(wid as u64) ==> *final(self) == *old(self),
            !old(self).prims_map().dom().contains(wid as u64) ==> final(self).prims_map() == old(
                self,
            ).prims_map().insert(wid as u64, wp),
    {
        let key = wid as u64;
        if !self.world_primitives.contains_key(key) {
            self.world_primitives.insert(key, wp);
            proof {
                assert forall|w: u64| #[trigger] self.worlds_map().dom().contains(w) implies
                    self.prims_map().dom().contains(w) && self.worlds_map()[w] == (World {
                    prim: self.prims_map()[w],
                }) by {
                    assert(old(self).worlds_map().dom().contains(w));
                    assert(w != key);
                }
            }
        }
    }

    /// Derive (and cache) the world of `wid` from its cached primitive.
    /// Reports whether the world is available afterwards; deriving twice
    /// does not re-register anything.
    pub fn ensure_world_derived(&mut self, wid: WorldID) -> (r: bool)
        requires
            old(self).wf(),
        ensures
            final(self).wf(),
            final(self).prims_map() == old(self).prims_map(),
            r == final(self).worlds_map().dom().contains(wid as u64),
            r == (old(self).worlds_map().dom().contains(wid as u64) || old(
                self,
            ).prims_map().dom().contains(wid as u64)),
            old(self).worlds_map().dom().contains(wid as u64) ==> *final(self) == *old(self),
            forall|w: u64|
                w != wid as u64 ==> #[trigger] final(self).worlds_map().dom().contains(w) == old(
                    self,
                ).worlds_map().dom().contains(w),
    {
        let key = wid as u64;
        if self.worlds.contains_key(key) {
            return true;
        }
        match self.world_primitives.get(key) {
            Some(wp) => {
                let w = World::new(*wp);
                self.worlds.insert(key, w);
                proof {
                    assert forall|x: u64| #[trigger] self.worlds_map().dom().contains(x) implies
                        self.prims_map().dom().contains(x) && self.worlds_map()[x] == (World {
                        prim: self.prims_map()[x],
                    }) by {
                        if x != key {
                            assert(old(self).worlds_map().dom().contains(x));
                        }
                    }
                }
                true
            },
            None => false,
        }
    }
}

} // verus!
