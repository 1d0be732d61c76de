//! The server's resource derivation chain for primitives and descriptors:
//! in-memory cache first, then the stored snapshot handed in by the caller,
//! then derivation from the parent resource; world primitives are
//! synthesized fresh as a last resort (generation is authoritative and
//! never blocks), while a missing location primitive is a hard fault.

use vstd::prelude::*;
use crate::entities::EntityData;
use crate::guard::LoadError;
use crate::identity::{EntityID, LocationID, ObjectID, WorldID};
use crate::location::{LocationPrimitive, START_LOCATION_LID};
use crate::location::spec_start_location_primitive;
use crate::location::start_location_primitive;
use crate::objects::ObjectData;
use crate::table::Table;
use crate::worlds::{World, WorldPrimitive};

verus! {

/// Server-side caches for every stored or derived resource kind.
pub struct ServerResources {
    world_prims: Table<WorldPrimitive>,
    worlds: Table<World>,
    location_prims: Table<LocationPrimitive>,
    entities: Table<EntityData>,
    objects: Table<ObjectData>,
}

impl ServerResources {
    pub closed spec fn world_prims_map(self) -> Map<u64, WorldPrimitive> {
        self.world_prims.as_map()
    }

    pub closed spec fn worlds_map(self) -> Map<u64, World> {
        self.worlds.as_map()
    }

    pub closed spec fn location_prims_map(self) -> Map<u64, LocationPrimitive> {
        self.location_prims.as_map()
    }

    pub closed spec fn entities_map(self) -> Map<u64, EntityData> {
        self.entities.as_map()
    }

    pub closed spec fn objects_map(self) -> Map<u64, ObjectData> {
        self.objects.as_map()
    }

    /// Every derived world matches its cached primitive.
    pub open spec fn wf(self) -> bool {
        forall|w: u64|
            #[trigger] self.worlds_map().dom().contains(w) ==> self.world_prims_map().dom().contains(
                w,
            ) && self.worlds_map()[w] == (World { prim: self.world_prims_map()[w] })
    }

    pub fn new() -> (r: ServerResources)
        ensures
            r.wf(),
            r.world_prims_map() == Map::<u64, WorldPrimitive>::empty(),
            r.worlds_map() == Map::<u64, World>::empty(),
            r.location_prims_map() == Map::<u64, LocationPrimitive>::empty(),
            r.entities_map() == Map::<u64, EntityData>::empty(),
            r.objects_map() == Map::<u64, ObjectData>::empty(),
    {
        ServerResources {
            world_prims: Table::new(),
            worlds: Table::new(),
            location_prims: Table::new(),
            entities: Table::new(),
            objects: Table::new(),
        }
    }

    /// The world primitive of `wid`: cache, then the stored copy, then a
    /// fresh synthesis — the server always answers.
    pub fn get_world_primitive(&mut self, wid: WorldID, stored: Option<WorldPrimitive>) -> (r:
        WorldPrimitive)
        requires
            old(self).wf(),
        ensures
            final(self).wf(),
            final(self).world_prims_map().dom().contains(wid as u64),
            r == final(self).world_prims_map()[wid as u64],
            old(self).world_prims_map().dom().contains(wid as u64) ==> *final(self) == *old(self)
                && r == old(self).world_prims_map()[wid as u64],
            final(self).worlds_map() == old(self).worlds_map(),
            final(self).location_prims_map() == old(self).location_prims_map(),
            final(self).entities_map() == old(self).entities_map(),
            final(self).objects_map() == old(self).objects_map(),
            !old(self).world_prims_map().dom().contains(wid as u64) ==> {
                &&& final(self).world_prims_map() == old(self).world_prims_map().insert(
                    wid as u64,
                    r,
                )
                &&& (stored is Some ==> r == stored.unwrap())
            },
    {
        let key = wid as u64;
        if self.world_prims.contains_key(key) {
            return *self.world_prims.get(key).unwrap();
        }
        let wp = match stored {
            Some(wp) => wp,
            None => WorldPrimitive::new(rand::random::<u64>(), rand::random::<u64>()),
        };
        self.world_prims.insert(key, wp);
        proof {
            assert forall|w: u64| #[trigger] self.worlds_map().dom().contains(w) implies
                self.world_prims_map().dom().contains(w) && self.worlds_map()[w] == (World {
                prim: self.world_prims_map()[w],
            }) by {
                assert(old(self).worlds_map().dom().contains(w));
                assert(w != key);
            }
        }
        wp
    }

    /// The world of `wid`, derived from its primitive (resolving that first
    /// through the same chain).
    pub fn get_world(&mut self, wid: WorldID, stored_prim: Option<WorldPrimitive>) -> (r: World)
        requires
            old(self).wf(),
        ensures
            final(self).wf(),
            final(self).worlds_map().dom().contains(wid as u64),
            r == final(self).worlds_map()[wid as u64],
            r == (World { prim: final(self).world_prims_map()[wid as u64] }),
            old(self).worlds_map().dom().contains(wid as u64) ==> *final(self) == *old(self),
            final(self).location_prims_map() == old(self).location_prims_map(),
            final(self).entities_map() == old(self).entities_map(),
            final(self).objects_map() == old(self).objects_map(),
    {
        let key = wid as u64;
        if self.worlds.contains_key(key) {
            return *self.worlds.get(key).unwrap();
        }
        let wp = self.get_world_primitive(wid, stored_prim);
        let w = World::new(wp);
        self.worlds.insert(key, w);
        proof {
            assert forall|x: u64| #[trigger] self.worlds_map().dom().contains(x) implies
                self.world_prims_map().dom().contains(x) && self.worlds_map()[x] == (World {
                prim: self.world_prims_map()[x],
            }) by {
                if x != key {
                    assert(old(self).worlds_map().dom().contains(x));
                }
            }
            assert(self.entities_map() == old(self).entities_map());
            assert(self.objects_map() == old(self).objects_map());
            assert(self.location_prims_map() == old(self).location_prims_map());
        }
        w
    }

    /// The location primitive of `lid`: cache, then the stored copy, then —
    /// only for the designated start location — the hard-coded start
    /// primitive. Any other miss is a data-integrity fault.
    pub fn get_location_primitive(&mut self, lid: LocationID, stored: Option<LocationPrimitive>)
        -> (r: Result<LocationPrimitive, LoadError>)
        requires
            old(self).wf(),
        ensures
            final(self).wf(),
            final(self).worlds_map() == old(self).worlds_map(),
            final(self).world_prims_map() == old(self).world_prims_map(),
            final(self).entities_map() == old(self).entities_map(),
            final(self).objects_map() == old(self).objects_map(),
            r is Err <==> (!old(self).location_prims_map().dom().contains(lid as u64) && stored
                is None && lid != START_LOCATION_LID),
            match r {
                Ok(p) => {
                    &&& final(self).location_prims_map().dom().contains(lid as u64)
                    &&& p == final(self).location_prims_map()[lid as u64]
                    &&& old(self).location_prims_map().dom().contains(lid as u64) ==> *final(self)
                        == *old(self) && p == old(self).location_prims_map()[lid as u64]
                    &&& !old(self).location_prims_map().dom().contains(lid as u64) ==> {
                        &&& final(self).location_prims_map() == old(
                            self,
                        ).location_prims_map().insert(lid as u64, p)
                        &&& (stored is Some ==> p == stored.unwrap())
                        &&& (stored is None ==> p == spec_start_location_primitive())
                    }
                },
                Err(e) => {
                    &&& e == LoadError::MissingPrimitive(lid)
                    &&& *final(self) == *old(self)
                },
            },
    {
        let key = lid as u64;
        if self.location_prims.contains_key(key) {
            return Ok(*self.location_prims.get(key).unwrap());
        }
        let lp = match stored {
            Some(lp) => lp,
            None => {
                if lid == START_LOCATION_LID {
                    start_location_primitive()
                } else {
                    return Err(LoadError::MissingPrimitive(lid));
                }
            },
        };
        self.location_prims.insert(key, lp);
        proof {
            assert forall|w: u64| #[trigger] self.worlds_map().dom().contains(w) implies
                self.world_prims_map().dom().contains(w) && self.worlds_map()[w] == (World {
                prim: self.world_prims_map()[w],
            }) by {
                assert(old(self).worlds_map().dom().contains(w));
            }
        }
        Ok(lp)
    }

    /// Record an entity descriptor.
    pub fn define_entity(&mut self, eid: EntityID, data: EntityData)
        requires
            old(self).wf(),
        ensures
            final(self).wf(),
            final(self).entities_map() == old(self).entities_map().insert(eid, data),
            final(self).objects_map() == old(self).objects_map(),
            final(self).worlds_map() == old(self).worlds_map(),
            final(self).world_prims_map() == old(self).world_prims_map(),
            final(self).location_prims_map() == old(self).location_prims_map(),
    {
        self.entities.insert(eid, data);
        proof {
            assert forall|w: u64| #[trigger] self.worlds_map().dom().contains(w) implies
                self.world_prims_map().dom().contains(w) && self.worlds_map()[w] == (World {
                prim: self.world_prims_map()[w],
            }) by {
                assert(old(self).worlds_map().dom().contains(w));
            }
        }
    }

    /// Record an object descriptor.
    pub fn define_object(&mut self, oid: ObjectID, data: ObjectData)
        requires
            old(self).wf(),
        ensures
            final(self).wf(),
            final(self).objects_map() == old(self).objects_map().insert(oid, data),
            final(self).entities_map() == old(self).entities_map(),
            final(self).worlds_map() == old(self).worlds_map(),
            final(self).world_prims_map() == old(self).world_prims_map(),
            final(self).location_prims_map() == old(self).location_prims_map(),
    {
        self.objects.insert(oid, data);
        proof {
            assert forall|w: u64| #[trigger] self.worlds_map().dom().contains(w) implies
                self.world_prims_map().dom().contains(w) && self.worlds_map()[w] == (World {
                prim: self.world_prims_map()[w],
            }) by {
                assert(old(self).worlds_map().dom().contains(w));
            }
        }
    }

    pub fn get_entity(&self, eid: EntityID) -> (r: Option<&EntityData>)
        ensures
            match r {
                Some(d) => self.entities_map().dom().contains(eid) && *d
                    == self.entities_map()[eid],
                None => !self.entities_map().dom().contains(eid),
            },
    {
        self.entities.get(eid)
    }

    pub fn get_object(&self, oid: ObjectID) -> (r: Option<&ObjectData>)
        ensures
            match r {
                Some(d) => self.objects_map().dom().contains(oid) && *d == self.objects_map()[oid],
                None => !self.objects_map().dom().contains(oid),
            },
    {
        self.objects.get(oid)
    }
}

} // verus!
