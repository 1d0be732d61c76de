//! Entity descriptors: the per-entity data served to clients, and the
//! id-keyed set they are cached in.

use vstd::prelude::*;
use crate::identity::{AssetID, EntityID};
use crate::table::Table;

verus! {

/// Descriptor of one entity: which asset draws it and how wide it stands,
/// in thousandths of a meter.
#[derive(Copy, Clone, Debug, PartialEq, Eq, Structural)]
pub struct EntityData {
    pub aid: AssetID,
    pub width_milli: u32,
}

impl EntityData {
    pub fn new(aid: AssetID, width_milli: u32) -> (r: EntityData)
        ensures
            r.aid == aid,
            r.width_milli == width_milli,
    {
        EntityData { aid, width_milli }
    }
}

/// A live entity as simulated inside a location; its position is owned by
/// the location's entity store, so the entity itself carries no state yet.
#[derive(Copy, Clone, Debug)]
pub struct Entity {
}

impl Entity {
    pub fn new() -> (r: Entity)
        ensures
            true,
    {
        Entity {  }
    }
}

/// In-memory cache of entity descriptors by id.
pub struct EntityDataSet {
    map: Table<EntityData>,
}

impl EntityDataSet {
    pub closed spec fn as_map(self) -> Map<u64, EntityData> {
        self.map.as_map()
    }

    pub fn new() -> (r: EntityDataSet)
        ensures
            r.as_map() == Map::<u64, EntityData>::empty(),
    {
        EntityDataSet { map: Table::new() }
    }

    pub fn get(&self, eid: EntityID) -> (r: Option<&EntityData>)
        ensures
            match r {
                Some(d) => self.as_map().dom().contains(eid) && self.as_map()[eid] == *d,
                None => !self.as_map().dom().contains(eid),
            },
    {
        self.map.get(eid)
    }

    pub fn insert(&mut self, eid: EntityID, data: EntityData)
        ensures
            final(self).as_map() == old(self).as_map().insert(eid, data),
    {
        self.map.insert(eid, data);
    }
}

} // verus!
