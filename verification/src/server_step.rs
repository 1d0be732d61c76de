//! The server tick's decision core: given one client request, the current
//! authoritative state, and the storage lookups the request may need, mutate
//! the state and produce the addressed messages to send. The caller (the
//! tick loop) drains the inbound queue, calls this per message, performs the
//! returned sends, and owns all I/O.

use vstd::prelude::*;
use crate::entities::EntityData;
use crate::guard::LoadError;
use crate::identity::{ClientID, EntityID, LocationID, CLIENT_ID_CAPACITY};
use crate::loader::{entities_listing, loaded_state, LocationLoader, Tier};
use crate::location::{diff_apply, diff_ok, LocationPrimitive, START_LOCATION_LID};
use crate::messaging::{Diff, MsgFromClient, MsgToClient, MsgToClientSet, MsgToServer};
use crate::points::DPoint2;
use crate::resources::ServerResources;
use crate::table::Table;
use crate::userbase::UserBase;
use crate::worlds::WorldPrimitive;

verus! {

/// Persistent per-server bookkeeping: the next entity id to issue and which
/// entity (and home location) each client controls.
pub struct ServerData {
    next_eid: EntityID,
    cid_to_controlling: Table<(EntityID, LocationID)>,
}

impl ServerData {
    pub closed spec fn spec_next_eid(self) -> EntityID {
        self.next_eid
    }

    pub closed spec fn controlling_map(self) -> Map<u64, (EntityID, LocationID)> {
        self.cid_to_controlling.as_map()
    }

    pub fn new() -> (r: ServerData)
        ensures
            r.spec_next_eid() == 0,
            r.controlling_map() == Map::<u64, (EntityID, LocationID)>::empty(),
    {
        ServerData { next_eid: 0, cid_to_controlling: Table::new() }
    }

    /// Issue the next entity id.
    pub fn use_next_eid(&mut self) -> (r: EntityID)
        requires
            old(self).spec_next_eid() < u64::MAX,
        ensures
            r == old(self).spec_next_eid(),
            final(self).spec_next_eid() == old(self).spec_next_eid() + 1,
            final(self).controlling_map() == old(self).controlling_map(),
    {
        let eid = self.next_eid;
        self.next_eid = eid + 1;
        eid
    }

    pub fn next_eid(&self) -> (r: EntityID)
        ensures
            r == self.spec_next_eid(),
    {
        self.next_eid
    }

    pub fn controlling_of(&self, cid: ClientID) -> (r: Option<(EntityID, LocationID)>)
        ensures
            match r {
                Some(p) => self.controlling_map().dom().contains(cid as u64)
                    && self.controlling_map()[cid as u64] == p,
                None => !self.controlling_map().dom().contains(cid as u64),
            },
    {
        match self.cid_to_controlling.get(cid as u64) {
            Some(p) => Some(*p),
            None => None,
        }
    }

    pub fn set_controlling(&mut self, cid: ClientID, eid: EntityID, lid: LocationID)
        ensures
            final(self).controlling_map() == old(self).controlling_map().insert(
                cid as u64,
                (eid, lid),
            ),
            final(self).spec_next_eid() == old(self).spec_next_eid(),
    {
        self.cid_to_controlling.insert(cid as u64, (eid, lid));
    }
}

/// The storage layer's answers for whatever this request might need: the
/// caller looks the keys up before handing the request in; a failed or
/// absent read is `None` (storage trouble counts as "resource absent").
pub struct StoreSnapshot {
    pub loc_prim: Option<LocationPrimitive>,
    pub loc_data: Option<(LocationPrimitive, Vec<Diff>)>,
    pub world_prim: Option<WorldPrimitive>,
}

/// The whole authoritative server state the tick loop owns.
pub struct ServerState {
    pub data: ServerData,
    pub resources: ServerResources,
    pub loader: LocationLoader,
}

/// Whether one addressed message announces, to `cid` alone, that some
/// entity stands placed at its position in state `m` of location `lid`.
pub open spec fn is_entity_announcement(
    msg: MsgToClientSet,
    lid: LocationID,
    cid: ClientID,
    m: Map<u64, (i32, i32)>,
) -> bool {
    match msg {
        MsgToClientSet::Only(inner, c) => c == cid && match inner {
            MsgToClient::ApplyLocationDiff(l2, d) => l2 == lid && match d {
                Diff::PlaceInside(e, p) => m.dom().contains(e) && m[e] == p.as_pair(),
                _ => false,
            },
            _ => false,
        },
        _ => false,
    }
}

/// Whether one addressed message announces entity `e` in particular.
pub open spec fn announces_entity(
    msg: MsgToClientSet,
    lid: LocationID,
    cid: ClientID,
    e: EntityID,
) -> bool {
    match msg {
        MsgToClientSet::Only(inner, c) => c == cid && match inner {
            MsgToClient::ApplyLocationDiff(l2, d) => l2 == lid && match d {
                Diff::PlaceInside(e2, _) => e2 == e,
                _ => false,
            },
            _ => false,
        },
        _ => false,
    }
}

/// The tail messages announce exactly the entities of `m` to `cid`, each as
/// a placement diff for `lid`.
pub open spec fn announces_entities(
    tail: Seq<MsgToClientSet>,
    lid: LocationID,
    cid: ClientID,
    m: Map<u64, (i32, i32)>,
) -> bool {
    &&& forall|i: int|
        0 <= i < tail.len() ==> is_entity_announcement(#[trigger] tail[i], lid, cid, m)
    &&& forall|e: EntityID|
        m.dom().contains(e) ==> exists|i: int|
            0 <= i < tail.len() && announces_entity(#[trigger] tail[i], lid, cid, e)
}

impl ServerState {
    pub open spec fn wf(self) -> bool {
        self.resources.wf() && self.loader.wf()
    }

    pub fn new(background_retention: u64) -> (r: ServerState)
        ensures
            r.wf(),
            r.data.controlling_map() == Map::<u64, (EntityID, LocationID)>::empty(),
            forall|lid: LocationID| r.loader.tier_of(lid) == Tier::Unloaded,
            forall|lid: LocationID| r.loader.spec_subscribers(lid) == Set::<ClientID>::empty(),
    {
        ServerState {
            data: ServerData::new(),
            resources: ServerResources::new(),
            loader: LocationLoader::new(background_retention),
        }
    }

    /// Route a pre-authorized player action to its location. Player actions
    /// always require foreground. Applied exactly when the location loads
    /// and accepts the diff; a rejected diff changes nothing and is never
    /// broadcast.
    pub fn apply_player_action(
        &mut self,
        lid: LocationID,
        diff: Diff,
        requires_foreground: bool,
        stored: Option<(LocationPrimitive, Vec<Diff>)>,
        now: u64,
    ) -> (r: Result<Result<(), ()>, LoadError>)
        requires
            old(self).wf(),
        ensures
            final(self).wf(),
            final(self).data == old(self).data,
            final(self).resources == old(self).resources,
            r is Err <==> (old(self).loader.tier_of(lid) == Tier::Unloaded && stored is None
                && lid != START_LOCATION_LID),
            match r {
                Ok(inner) => {
                    let base = if old(self).loader.tier_of(lid) != Tier::Unloaded {
                        old(self).loader.loc_state(lid)
                    } else {
                        loaded_state(stored)
                    };
                    &&& inner is Ok <==> diff_ok(base, diff)
                    &&& final(self).loader.loc_state(lid) == diff_apply(base, diff)
                    &&& requires_foreground ==> final(self).loader.tier_of(lid)
                        == Tier::Foreground
                    &&& final(self).loader.subs_map() == old(self).loader.subs_map()
                },
                Err(_) => *final(self) == *old(self),
            },
    {
        self.loader.apply_diff_to(lid, diff, requires_foreground, stored, now)
    }

    /// Subscribe a client to a location (promoting it to foreground), as
    /// exposed to the game-logic layer.
    pub fn subscribe_client_to(
        &mut self,
        lid: LocationID,
        cid: ClientID,
        stored: Option<(LocationPrimitive, Vec<Diff>)>,
        now: u64,
    ) -> (r: Result<(), LoadError>)
        requires
            old(self).wf(),
            cid < CLIENT_ID_CAPACITY,
        ensures
            final(self).wf(),
            final(self).data == old(self).data,
            final(self).resources == old(self).resources,
            r is Ok ==> final(self).loader.spec_subscribers(lid) == old(self).loader.spec_subscribers(lid).insert(cid) && final(self).loader.tier_of(lid)
                == Tier::Foreground,
            r is Err ==> *final(self) == *old(self),
    {
        self.loader.client_subscribe(cid, lid, stored, now)
    }

    /// Withdraw a client's subscription (demoting the location when it was
    /// the last one), as exposed to the game-logic layer.
    pub fn unsubscribe_client_from(&mut self, lid: LocationID, cid: ClientID, now: u64)
        requires
            old(self).wf(),
            cid < CLIENT_ID_CAPACITY,
        ensures
            final(self).wf(),
            final(self).data == old(self).data,
            final(self).resources == old(self).resources,
            final(self).loader.spec_subscribers(lid) == old(self).loader.spec_subscribers(
                lid,
            ).remove(cid),
    {
        self.loader.client_unsubscribe(cid, lid, now)
    }

    /// Handle one inbound client request: the decision core of the server
    /// tick. Storage access and sending are the caller's; this function only
    /// decides.
    pub fn handle_message(
        &mut self,
        user_base: &mut UserBase,
        msg: MsgFromClient,
        store: StoreSnapshot,
        now: u64,
    ) -> (out: Vec<MsgToClientSet>)
        requires
            old(self).wf(),
            old(user_base).wf(),
            msg.cid < CLIENT_ID_CAPACITY,
        ensures
            final(self).wf(),
            final(user_base).wf(),
            match msg.msg {
                MsgToServer::ControlMoveTo(lid, eid, pt) => {
                    let controls = old(self).data.controlling_map().dom().contains(msg.cid as u64)
                        && old(self).data.controlling_map()[msg.cid as u64] == (eid, lid);
                    let base = if old(self).loader.tier_of(lid) != Tier::Unloaded {
                        old(self).loader.loc_state(lid)
                    } else {
                        loaded_state(store.loc_data)
                    };
                    let applied = controls && !(old(self).loader.tier_of(lid) == Tier::Unloaded
                        && store.loc_data is None && lid != START_LOCATION_LID) && diff_ok(
                        base,
                        Diff::MoveEntityTo(eid, pt),
                    );
                    &&& *final(user_base) == *old(user_base)
                    &&& final(self).data == old(self).data
                    &&& final(self).loader.subs_map() == old(self).loader.subs_map()
                    &&& out@.len() == (if applied {
                        1int
                    } else {
                        0int
                    })
                    &&& applied ==> {
                        &&& exists|s: crate::identity::ClientIDSet|
                            out@[0] == MsgToClientSet::Subset(
                                MsgToClient::ApplyLocationDiff(lid, Diff::MoveEntityTo(eid, pt)),
                                s,
                            ) && s.set_view() == old(self).loader.spec_subscribers(lid)
                        &&& final(self).loader.loc_state(lid) == diff_apply(
                            base,
                            Diff::MoveEntityTo(eid, pt),
                        )
                        &&& final(self).loader.tier_of(lid) == Tier::Foreground
                    }
                    &&& !controls ==> *final(self) == *old(self)
                },
                MsgToServer::RequestWorldData(wid) => {
                    &&& *final(user_base) == *old(user_base)
                    &&& final(self).data == old(self).data
                    &&& final(self).loader == old(self).loader
                    &&& out@.len() == 1
                    &&& out@[0] == MsgToClientSet::Only(
                        MsgToClient::GiveWorldPrimitive(
                            wid,
                            final(self).resources.world_prims_map()[wid as u64],
                        ),
                        msg.cid,
                    )
                    &&& final(self).resources.world_prims_map().dom().contains(wid as u64)
                    &&& old(self).resources.world_prims_map().dom().contains(wid as u64)
                        ==> *final(self) == *old(self) && final(self).resources.world_prims_map()[wid as u64] == old(self).resources.world_prims_map()[wid as u64]
                    &&& !old(self).resources.world_prims_map().dom().contains(wid as u64) ==> {
                        &&& final(self).resources.world_prims_map() == old(self).resources.world_prims_map().insert(
                            wid as u64,
                            final(self).resources.world_prims_map()[wid as u64],
                        )
                        &&& final(self).resources.worlds_map() == old(self).resources.worlds_map()
                        &&& final(self).resources.location_prims_map() == old(self).resources.location_prims_map()
                        &&& final(self).resources.entities_map() == old(self).resources.entities_map()
                        &&& final(self).resources.objects_map() == old(self).resources.objects_map()
                    }
                },
                MsgToServer::RequestLocationData(lid) => {
                    let loadable = !(old(self).loader.tier_of(lid) == Tier::Unloaded
                        && store.loc_data is None && lid != START_LOCATION_LID);
                    &&& *final(user_base) == *old(user_base)
                    &&& final(self).data == old(self).data
                    &&& !loadable ==> out@.len() == 0
                    &&& loadable ==> {
                        &&& final(self).loader.spec_subscribers(lid) == old(self).loader.spec_subscribers(lid).insert(msg.cid)
                        &&& final(self).loader.tier_of(lid) == Tier::Foreground
                        &&& out@.len() >= 1
                        &&& out@[0] == MsgToClientSet::Only(
                            MsgToClient::GiveLocationPrimitive(
                                lid,
                                final(self).loader.guard_at(lid).spec_loc().spec_prim(),
                            ),
                            msg.cid,
                        )
                        &&& announces_entities(
                            out@.subrange(1, out@.len() as int),
                            lid,
                            msg.cid,
                            final(self).loader.loc_state(lid),
                        )
                    }
                },
                MsgToServer::RequestEntityData(eid) => {
                    &&& *final(user_base) == *old(user_base)
                    &&& *final(self) == *old(self)
                    &&& (old(self).resources.entities_map().dom().contains(eid) ==> out@ == seq![
                        MsgToClientSet::Only(
                            MsgToClient::GiveEntityData(
                                eid,
                                old(self).resources.entities_map()[eid],
                            ),
                            msg.cid,
                        ),
                    ])
                    &&& (!old(self).resources.entities_map().dom().contains(eid) ==> out@.len()
                        == 0)
                },
                MsgToServer::RequestObjectData(oid) => {
                    &&& *final(user_base) == *old(user_base)
                    &&& *final(self) == *old(self)
                    &&& (old(self).resources.objects_map().dom().contains(oid) ==> out@ == seq![
                        MsgToClientSet::Only(
                            MsgToClient::GiveObjectData(
                                oid,
                                old(self).resources.objects_map()[oid],
                            ),
                            msg.cid,
                        ),
                    ])
                    &&& (!old(self).resources.objects_map().dom().contains(oid) ==> out@.len()
                        == 0)
                },
                MsgToServer::ClientHasDisconnected => {
                    &&& final(user_base).logged_in_set() == old(user_base).logged_in_set().remove(
                        msg.cid as u64,
                    )
                    &&& final(self).data == old(self).data
                    &&& final(self).resources == old(self).resources
                    &&& out@.len() == 0
                    &&& (old(self).data.controlling_map().dom().contains(msg.cid as u64) ==> {
                        let old_lid = old(self).data.controlling_map()[msg.cid as u64].1;
                        final(self).loader.spec_subscribers(old_lid) == old(self).loader.spec_subscribers(old_lid).remove(msg.cid)
                    })
                    &&& (!old(self).data.controlling_map().dom().contains(msg.cid as u64)
                        ==> *final(self) == *old(self))
                },
                MsgToServer::RequestControlling => {
                    &&& final(self).wf()
                    &&& out@.len() <= 2
                    &&& (old(self).data.controlling_map().dom().contains(msg.cid as u64) ==> {
                        let ctl = old(self).data.controlling_map()[msg.cid as u64];
                        &&& *final(self) == *old(self)
                        &&& *final(user_base) == *old(user_base)
                        &&& out@ == seq![
                            MsgToClientSet::Only(
                                MsgToClient::GiveControlling(ctl.0, ctl.1),
                                msg.cid,
                            ),
                        ]
                    })
                    &&& (!old(self).data.controlling_map().dom().contains(msg.cid as u64) && !old(
                        user_base,
                    ).pending_set().contains(msg.cid as u64) ==> out@.len() == 0 && *final(self)
                        == *old(self) && *final(user_base) == *old(user_base))
                    &&& ({
                        let base = if old(self).loader.tier_of(START_LOCATION_LID)
                            != Tier::Unloaded {
                            old(self).loader.loc_state(START_LOCATION_LID)
                        } else {
                            loaded_state(store.loc_data)
                        };
                        let dims = if old(self).loader.tier_of(START_LOCATION_LID)
                            != Tier::Unloaded {
                            old(self).loader.guard_at(START_LOCATION_LID).spec_loc().spec_prim()
                        } else if store.loc_data is Some {
                            store.loc_data.unwrap().0
                        } else {
                            crate::location::spec_start_location_primitive()
                        };
                        (!old(self).data.controlling_map().dom().contains(msg.cid as u64) && old(
                            user_base,
                        ).pending_set().contains(msg.cid as u64) && old(self).data.spec_next_eid()
                            < u64::MAX && !base.dom().contains(old(self).data.spec_next_eid())
                            && (exists|x: i32, y: i32|
                            0 <= x < dims.cells_wide && 0 <= y < dims.cells_high && !crate::location::occupied(
                                base,
                                (x, y),
                            ))) ==> out@.len() == 2
                    })
                    &&& (out@.len() == 2 ==> {
                        let eid = old(self).data.spec_next_eid();
                        &&& final(self).data.controlling_map() == old(self).data.controlling_map().insert(msg.cid as u64, (eid, START_LOCATION_LID))
                        &&& final(user_base).pending_set() == old(user_base).pending_set().remove(
                            msg.cid as u64,
                        )
                        &&& out@[1] == MsgToClientSet::Only(
                            MsgToClient::GiveControlling(eid, START_LOCATION_LID),
                            msg.cid,
                        )
                        &&& exists|s: crate::identity::ClientIDSet, p: DPoint2|
                            out@[0] == MsgToClientSet::Subset(
                                MsgToClient::ApplyLocationDiff(
                                    START_LOCATION_LID,
                                    Diff::PlaceInside(eid, p),
                                ),
                                s,
                            ) && s.set_view() == final(self).loader.spec_subscribers(
                                START_LOCATION_LID,
                            )
                        &&& final(self).loader.loc_state(START_LOCATION_LID).dom().contains(eid)
                    })
                },
                _ => {
                    &&& *final(self) == *old(self)
                    &&& *final(user_base) == *old(user_base)
                    &&& out@.len() == 0
                },
            },
    {
        let cid = msg.cid;
        let mut out: Vec<MsgToClientSet> = Vec::new();
        match msg.msg {
            MsgToServer::ControlMoveTo(lid, eid, pt) => {
                let controls = match self.data.controlling_of(cid) {
                    Some((ceid, clid)) => ceid == eid && clid == lid,
                    None => false,
                };
                if controls {
                    let diff = Diff::MoveEntityTo(eid, pt);
                    match self.loader.apply_diff_to(lid, diff, true, store.loc_data, now) {
                        Ok(Ok(())) => {
                            let subs = self.loader.get_subscriptions_for(lid);
                            out.push(
                                MsgToClientSet::Subset(
                                    MsgToClient::ApplyLocationDiff(lid, diff),
                                    subs,
                                ),
                            );
                            proof {
                                assert(out@[0] == MsgToClientSet::Subset(
                                    MsgToClient::ApplyLocationDiff(lid, diff),
                                    subs,
                                ));
                                assert(subs.set_view() == old(self).loader.spec_subscribers(lid));
                            }
                        },
                        Ok(Err(())) => {},
                        Err(_) => {},
                    }
                }
                out
            },
            MsgToServer::RequestWorldData(wid) => {
                let wp = self.resources.get_world_primitive(wid, store.world_prim);
                out.push(MsgToClientSet::Only(MsgToClient::GiveWorldPrimitive(wid, wp), cid));
                out
            },
            MsgToServer::RequestLocationData(lid) => {
                match self.loader.client_subscribe(cid, lid, store.loc_data, now) {
                    Ok(()) => {
                        let ghost after_sub = self.loader;
                        match self.data.controlling_of(cid) {
                            Some((_, old_lid)) => {
                                if old_lid != lid {
                                    self.loader.client_unsubscribe(cid, old_lid, now);
                                    proof {
                                        assert(LocationLoader::agree_at(
                                            after_sub,
                                            self.loader,
                                            lid as u64,
                                        ));
                                        assert(self.loader.spec_subscribers(lid)
                                            == after_sub.spec_subscribers(lid));
                                        assert(self.loader.tier_of(lid) == Tier::Foreground);
                                    }
                                }
                            },
                            None => {},
                        }
                        proof {
                            assert(self.loader.tier_of(lid) == Tier::Foreground);
                        }
                        let prim = match self.loader.location_primitive_of(lid, None, now) {
                            Ok(p) => p,
                            Err(_) => {
                                return out;
                            },
                        };
                        out.push(
                            MsgToClientSet::Only(
                                MsgToClient::GiveLocationPrimitive(lid, prim),
                                cid,
                            ),
                        );
                        let entities = match self.loader.entities_in(lid, None, now) {
                            Ok(v) => v,
                            Err(_) => {
                                return out;
                            },
                        };
                        let ghost out0 = out@[0];
                        let ghost m = self.loader.loc_state(lid);
                        let n = entities.len();
                        let mut i: usize = 0;
                        while i < n
                            invariant
                                n == entities@.len(),
                                i <= n,
                                out@.len() == 1 + i,
                                entities_listing(m, entities@),
                                forall|j: int|
                                    1 <= j < out@.len() ==> #[trigger] out@[j]
                                        == MsgToClientSet::Only(
                                        MsgToClient::ApplyLocationDiff(
                                            lid,
                                            Diff::PlaceInside(
                                                entities@[j - 1].0,
                                                entities@[j - 1].1,
                                            ),
                                        ),
                                        cid,
                                    ),
                                out@[0] == out0,
                            decreases n - i,
                        {
                            let (e, p) = entities[i];
                            out.push(
                                MsgToClientSet::Only(
                                    MsgToClient::ApplyLocationDiff(lid, Diff::PlaceInside(e, p)),
                                    cid,
                                ),
                            );
                            i = i + 1;
                        }
                        proof {
                            let tail = out@.subrange(1, out@.len() as int);
                            assert forall|j: int|
                                0 <= j < tail.len() implies is_entity_announcement(
                                #[trigger] tail[j],
                                lid,
                                cid,
                                m,
                            ) by {
                                assert(tail[j] == out@[j + 1]);
                                assert(m.dom().contains((entities@[j]).0) && m[(entities@[j]).0]
                                    == (entities@[j]).1.as_pair());
                            }
                            assert forall|e: EntityID| m.dom().contains(e) implies exists|j: int|
                                0 <= j < tail.len() && announces_entity(
                                    #[trigger] tail[j],
                                    lid,
                                    cid,
                                    e,
                                ) by {
                                let k = choose|k: int|
                                    0 <= k < entities@.len() && (#[trigger] entities@[k]).0 == e;
                                assert(tail[k] == out@[k + 1]);
                                assert(announces_entity(tail[k], lid, cid, e));
                            }
                            assert(announces_entities(tail, lid, cid, m));
                        }
                        out
                    },
                    Err(_) => out,
                }
            },
            MsgToServer::RequestEntityData(eid) => {
                match self.resources.get_entity(eid) {
                    Some(d) => {
                        out.push(MsgToClientSet::Only(MsgToClient::GiveEntityData(eid, *d), cid));
                        proof {
                            assert(out@ =~= seq![
                                MsgToClientSet::Only(
                                    MsgToClient::GiveEntityData(
                                        eid,
                                        old(self).resources.entities_map()[eid],
                                    ),
                                    cid,
                                ),
                            ]);
                        }
                    },
                    None => {},
                }
                out
            },
            MsgToServer::RequestObjectData(oid) => {
                match self.resources.get_object(oid) {
                    Some(d) => {
                        out.push(MsgToClientSet::Only(MsgToClient::GiveObjectData(oid, *d), cid));
                        proof {
                            assert(out@ =~= seq![
                                MsgToClientSet::Only(
                                    MsgToClient::GiveObjectData(
                                        oid,
                                        old(self).resources.objects_map()[oid],
                                    ),
                                    cid,
                                ),
                            ]);
                        }
                    },
                    None => {},
                }
                out
            },
            MsgToServer::ClientHasDisconnected => {
                user_base.logout(cid);
                match self.data.controlling_of(cid) {
                    Some((_, old_lid)) => {
                        self.loader.client_unsubscribe(cid, old_lid, now);
                    },
                    None => {},
                }
                out
            },
            MsgToServer::RequestControlling => {
                match self.data.controlling_of(cid) {
                    Some((eid, lid)) => {
                        out.push(
                            MsgToClientSet::Only(MsgToClient::GiveControlling(eid, lid), cid),
                        );
                        proof {
                            assert(out@ =~= seq![
                                MsgToClientSet::Only(
                                    MsgToClient::GiveControlling(eid, lid),
                                    cid,
                                ),
                            ]);
                        }
                        out
                    },
                    None => {
                        if user_base.client_is_setup(cid) {
                            return out;
                        }
                        if self.data.next_eid() == u64::MAX {
                            return out;
                        }
                        let player_eid = self.data.use_next_eid();
                        self.resources.define_entity(player_eid, EntityData::new(1, 700));
                        let free_pt = match self.loader.free_point_in(
                            START_LOCATION_LID,
                            store.loc_data,
                            now,
                        ) {
                            Ok(Some(p)) => p,
                            Ok(None) => {
                                return out;
                            },
                            Err(_) => {
                                return out;
                            },
                        };
                        let mk_diff = Diff::PlaceInside(player_eid, free_pt);
                        match self.loader.apply_diff_to(
                            START_LOCATION_LID,
                            mk_diff,
                            true,
                            None,
                            now,
                        ) {
                            Ok(Ok(())) => {
                                user_base.set_client_setup_true(cid);
                                self.data.set_controlling(cid, player_eid, START_LOCATION_LID);
                                let subs = self.loader.get_subscriptions_for(START_LOCATION_LID);
                                out.push(
                                    MsgToClientSet::Subset(
                                        MsgToClient::ApplyLocationDiff(
                                            START_LOCATION_LID,
                                            mk_diff,
                                        ),
                                        subs,
                                    ),
                                );
                                out.push(
                                    MsgToClientSet::Only(
                                        MsgToClient::GiveControlling(
                                            player_eid,
                                            START_LOCATION_LID,
                                        ),
                                        cid,
                                    ),
                                );
                                out
                            },
                            Ok(Err(())) => out,
                            Err(_) => out,
                        }
                    },
                }
            },
            MsgToServer::CreateEntity(_, _) => out,
            MsgToServer::ClientLogin(_, _) => out,
        }
    }
}

} // verus!
