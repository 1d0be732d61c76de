//! Object descriptors: the per-object data served to clients, and the
//! id-keyed set they are cached in.

use vstd::prelude::*;
use crate::identity::{AssetID, ObjectID};
use crate::table::Table;

verus! {

/// Descriptor of one object kind: which asset draws it and how wide it
/// stands, in thousandths of a meter.
#[derive(Copy, Clone, Debug, PartialEq, Eq, Structural)]
pub struct ObjectData {
    pub aid: AssetID,
    pub width_milli: u32,
}

impl ObjectData {
    pub fn new(aid: AssetID, width_milli: u32) -> (r: ObjectData)
        ensures
            r.aid == aid,
            r.width_milli == width_milli,
    {
        ObjectData { aid, width_milli }
    }
}

/// In-memory cache of object descriptors by id.
pub struct ObjectDataSet {
    map: Table<ObjectData>,
}

impl ObjectDataSet {
    pub closed spec fn as_map(self) -> Map<u64, ObjectData> {
        self.map.as_map()
    }

    pub fn new() -> (r: ObjectDataSet)
        ensures
            r.as_map() == Map::<u64, ObjectData>::empty(),
    {
        ObjectDataSet { map: Table::new() }
    }

    pub fn get(&self, oid: ObjectID) -> (r: Option<&ObjectData>)
        ensures
            match r {
                Some(d) => self.as_map().dom().contains(oid) && self.as_map()[oid] == *d,
                None => !self.as_map().dom().contains(oid),
            },
    {
        self.map.get(oid)
    }

    pub fn insert(&mut self, oid: ObjectID, data: ObjectData)
        ensures
            final(self).as_map() == old(self).as_map().insert(oid, data),
    {
        self.map.insert(oid, data);
    }
}

} // verus!
