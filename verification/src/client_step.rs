//! The client update's decision core: given one server message, update the
//! client's view-model — which entity it controls, the location it watches,
//! and its caches — and produce any follow-up requests to send. The render
//! loop and the wire are the caller's.

use vstd::prelude::*;
use crate::cache::CacheManager;
use crate::entities::EntityDataSet;
use crate::identity::{ClientID, EntityID, LocationID};
use crate::location::{diff_apply, Location};
use crate::messaging::{MsgToClient, MsgToServer};
use crate::objects::ObjectDataSet;

verus! {

/// The client's view-model of the world it is shown.
pub struct ClientState {
    pub cid: ClientID,
    pub controlling: Option<(EntityID, LocationID)>,
    pub current_location: Option<Location>,
    pub cache: CacheManager,
    pub entity_data: EntityDataSet,
    pub object_data: ObjectDataSet,
}

impl ClientState {
    pub open spec fn spec_controlling(self) -> Option<(EntityID, LocationID)> {
        self.controlling
    }

    pub open spec fn spec_location(self) -> Option<Location> {
        self.current_location
    }

    pub open spec fn wf(self) -> bool {
        &&& self.cache.wf()
        &&& self.spec_location() is Some ==> self.spec_location().unwrap().wf()
    }

    pub fn new(cid: ClientID) -> (r: ClientState)
        ensures
            r.wf(),
            r.cid == cid,
            r.spec_controlling() is None,
            r.spec_location() is None,
    {
        ClientState {
            cid,
            controlling: None,
            current_location: None,
            cache: CacheManager::new(),
            entity_data: EntityDataSet::new(),
            object_data: ObjectDataSet::new(),
        }
    }

    pub fn controlling(&self) -> (r: Option<(EntityID, LocationID)>)
        ensures
            r == self.spec_controlling(),
    {
        self.controlling
    }

    pub fn current_location(&self) -> (r: &Option<Location>)
        ensures
            *r == self.spec_location(),
    {
        &self.current_location
    }

    /// Digest one server message: the synchronization step run once per
    /// drained inbound message. Returns the requests to send back.
    pub fn handle_msg(&mut self, msg: MsgToClient) -> (out: Vec<MsgToServer>)
        requires
            old(self).wf(),
        ensures
            final(self).wf(),
            final(self).cid == old(self).cid,
            match msg {
                MsgToClient::GiveWorldPrimitive(wid, wp) => {
                    &&& out@.len() == 0
                    &&& final(self).cache.worlds_map().dom().contains(wid as u64)
                    &&& final(self).spec_controlling() == old(self).spec_controlling()
                    &&& final(self).spec_location() == old(self).spec_location()
                },
                MsgToClient::GiveObjectData(oid, od) => {
                    &&& out@.len() == 0
                    &&& final(self).object_data.as_map() == old(self).object_data.as_map().insert(
                        oid,
                        od,
                    )
                    &&& final(self).spec_controlling() == old(self).spec_controlling()
                    &&& final(self).spec_location() == old(self).spec_location()
                },
                MsgToClient::GiveEntityData(eid, ed) => {
                    &&& out@.len() == 0
                    &&& final(self).entity_data.as_map() == old(self).entity_data.as_map().insert(
                        eid,
                        ed,
                    )
                    &&& final(self).spec_controlling() == old(self).spec_controlling()
                    &&& final(self).spec_location() == old(self).spec_location()
                },
                MsgToClient::ApplyLocationDiff(lid, diff) => {
                    let watching = old(self).spec_controlling() is Some && old(
                        self,
                    ).spec_controlling().unwrap().1 == lid && old(self).spec_location() is Some;
                    &&& out@.len() == 0
                    &&& final(self).spec_controlling() == old(self).spec_controlling()
                    &&& !watching ==> *final(self) == *old(self)
                    &&& watching ==> {
                        &&& final(self).spec_location() is Some
                        &&& final(self).spec_location().unwrap().emap() == diff_apply(
                            old(self).spec_location().unwrap().emap(),
                            diff,
                        )
                    }
                },
                MsgToClient::GiveLocationPrimitive(lid, lp) => {
                    let have_world = old(self).cache.worlds_map().dom().contains(lp.wid as u64);
                    let expecting = old(self).spec_controlling() is Some && old(
                        self,
                    ).spec_controlling().unwrap().1 == lid;
                    &&& final(self).spec_controlling() == old(self).spec_controlling()
                    &&& (have_world && expecting) ==> {
                        &&& out@.len() == 0
                        &&& final(self).spec_location() is Some
                        &&& final(self).spec_location().unwrap().spec_prim() == lp
                        &&& final(self).spec_location().unwrap().emap() == Map::<
                            u64,
                            (i32, i32),
                        >::empty()
                    }
                    &&& (have_world && !expecting) ==> out@.len() == 0 && *final(self) == *old(
                        self,
                    )
                    &&& !have_world ==> {
                        &&& out@ == seq![
                            MsgToServer::RequestWorldData(lp.wid),
                            MsgToServer::RequestLocationData(lid),
                        ]
                        &&& *final(self) == *old(self)
                    }
                },
                MsgToClient::GiveControlling(eid, lid) => {
                    let fresh = match old(self).spec_controlling() {
                        Some(c) => c.1 != lid,
                        None => true,
                    };
                    &&& final(self).spec_controlling() == Some((eid, lid))
                    &&& fresh ==> final(self).spec_location() is None && out@ == seq![
                        MsgToServer::RequestLocationData(lid),
                    ]
                    &&& !fresh ==> final(self).spec_location() == old(self).spec_location()
                        && out@.len() == 0
                },
                _ => out@.len() == 0 && *final(self) == *old(self),
            },
    {
        let mut out: Vec<MsgToServer> = Vec::new();
        match msg {
            MsgToClient::GiveWorldPrimitive(wid, wp) => {
                self.cache.cache_world_primitive(wid, wp);
                let _ = self.cache.ensure_world_derived(wid);
                out
            },
            MsgToClient::GiveObjectData(oid, od) => {
                self.object_data.insert(oid, od);
                out
            },
            MsgToClient::GiveEntityData(eid, ed) => {
                self.entity_data.insert(eid, ed);
                out
            },
            MsgToClient::ApplyLocationDiff(lid, diff) => {
                let watching = match self.controlling {
                    Some((_, clid)) => clid == lid,
                    None => false,
                };
                if watching {
                    let mut taken: Option<Location> = None;
                    core::mem::swap(&mut self.current_location, &mut taken);
                    match taken {
                        Some(mut loc) => {
                            let _ = loc.apply_diff(diff);
                            let mut back = Some(loc);
                            core::mem::swap(&mut self.current_location, &mut back);
                        },
                        None => {},
                    }
                }
                out
            },
            MsgToClient::GiveLocationPrimitive(lid, lp) => {
                if self.cache.world_is_cached(lp.wid) {
                    let expecting = match self.controlling {
                        Some((_, clid)) => clid == lid,
                        None => false,
                    };
                    if expecting {
                        self.current_location = Some(Location::generate_new(lp));
                    }
                    out
                } else {
                    out.push(MsgToServer::RequestWorldData(lp.wid));
                    out.push(MsgToServer::RequestLocationData(lid));
                    proof {
                        assert(out@ =~= seq![
                            MsgToServer::RequestWorldData(lp.wid),
                            MsgToServer::RequestLocationData(lid),
                        ]);
                    }
                    out
                }
            },
            MsgToClient::GiveControlling(eid, lid) => {
                let fresh = match self.controlling {
                    Some((_, clid)) => clid != lid,
                    None => true,
                };
                self.controlling = Some((eid, lid));
                if fresh {
                    self.current_location = None;
                    out.push(MsgToServer::RequestLocationData(lid));
                    proof {
                        assert(out@ =~= seq![MsgToServer::RequestLocationData(lid)]);
                    }
                }
                out
            },
            MsgToClient::LoginSuccessful(_) => out,
            MsgToClient::LoginFailure(_) => out,
        }
    }
}

} // verus!
