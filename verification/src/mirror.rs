//! The client-side resource mirror: the derivation chain of the server,
//! minus authority. A lookup never blocks; a miss records the id as pending
//! and, at most once per cool-down window per id, asks the caller to send
//! one outbound fetch request. Server pushes populate the caches directly.

use vstd::prelude::*;
use crate::entities::EntityData;
use crate::identity::{EntityID, LocationID, ObjectID, WorldID};
use crate::location::{Location, LocationPrimitive};
use crate::messaging::{MsgToClient, MsgToServer};
use crate::objects::ObjectData;
use crate::table::{IdSet, Table};
use crate::worlds::{World, WorldPrimitive};

verus! {

broadcast use vstd::seq_lib::lemma_seq_contains_after_push;

/// One resource kind's mirror: its cache, the ids recorded as pending
/// acquisition, and the time each id was last requested from the server.
pub struct MirrorStore<V> {
    cache: Table<V>,
    pending: IdSet,
    last_req: Table<u64>,
}

impl<V> MirrorStore<V> {
    pub closed spec fn cache_map(self) -> Map<u64, V> {
        self.cache.as_map()
    }

    pub closed spec fn pending_ids(self) -> Set<u64> {
        self.pending.set_view()
    }

    pub closed spec fn last_req_map(self) -> Map<u64, u64> {
        self.last_req.as_map()
    }

    /// Whether a fetch for `id` at time `now` would fall inside the
    /// cool-down window of the previous fetch.
    pub open spec fn spec_throttled(self, id: u64, now: u64, pause: u64) -> bool {
        self.last_req_map().dom().contains(id) && now <= self.last_req_map()[id] + pause
    }

    pub fn new() -> (r: MirrorStore<V>)
        ensures
            r.cache_map() == Map::<u64, V>::empty(),
            r.pending_ids() == Set::<u64>::empty(),
            r.last_req_map() == Map::<u64, u64>::empty(),
    {
        MirrorStore { cache: Table::new(), pending: IdSet::new(), last_req: Table::new() }
    }

    pub fn lookup(&self, id: u64) -> (r: Option<&V>)
        ensures
            match r {
                Some(v) => self.cache_map().dom().contains(id) && self.cache_map()[id] == *v,
                None => !self.cache_map().dom().contains(id),
            },
    {
        self.cache.get(id)
    }

    /// Record `id` as awaiting acquisition.
    pub fn note_pending(&mut self, id: u64)
        ensures
            final(self).pending_ids() == old(self).pending_ids().insert(id),
            final(self).cache_map() == old(self).cache_map(),
            final(self).last_req_map() == old(self).last_req_map(),
    {
        self.pending.insert(id);
    }

    /// Store a value pushed by the server; the id is no longer pending.
    pub fn ingest(&mut self, id: u64, v: V)
        ensures
            final(self).cache_map() == old(self).cache_map().insert(id, v),
            final(self).pending_ids() == old(self).pending_ids().remove(id),
            final(self).last_req_map() == old(self).last_req_map(),
    {
        self.cache.insert(id, v);
        self.pending.remove(id);
    }

    /// Take the pending ids, clearing the set.
    pub fn take_pending(&mut self) -> (r: Vec<u64>)
        ensures
            final(self).pending_ids() == Set::<u64>::empty(),
            forall|k: u64| r@.contains(k) <==> old(self).pending_ids().contains(k),
            forall|i: int, j: int| 0 <= i < j < r@.len() ==> r@[i] != r@[j],
            final(self).cache_map() == old(self).cache_map(),
            final(self).last_req_map() == old(self).last_req_map(),
    {
        self.pending.drain()
    }

    /// One kind's whole acquisition sweep, with nothing stored at hand:
    /// one resolution attempt per pending id (ids beyond `max_id` cannot be
    /// asked for and are dropped). Returns the ids whose fetch is now owed
    /// and was stamped — exactly the previously pending, still-missing ids
    /// whose cool-down window had passed.
    pub fn sweep(&mut self, now: u64, pause: u64, max_id: u64) -> (fetched: Vec<u64>)
        ensures
            swept_store(*old(self), *final(self), now, pause, max_id),
            forall|id: u64|
                #[trigger] fetched@.contains(id) <==> (id <= max_id && sweep_fetches(
                    *old(self),
                    id,
                    now,
                    pause,
                )),
            forall|i: int, j: int| 0 <= i < j < fetched@.len() ==> fetched@[i] != fetched@[j],
            forall|i: int| 0 <= i < fetched@.len() ==> (#[trigger] fetched@[i]) <= max_id,
    {
        let ids = self.take_pending();
        let mut fetched: Vec<u64> = Vec::new();
        let n = ids.len();
        let mut i: usize = 0;
        proof {
            assert(ids@.subrange(0, 0) =~= Seq::<u64>::empty());
        }
        while i < n
            invariant
                n == ids@.len(),
                i <= n,
                forall|k: u64| ids@.contains(k) <==> old(self).pending_ids().contains(k),
                forall|a: int, b: int| 0 <= a < b < n ==> ids@[a] != ids@[b],
                self.cache_map() == old(self).cache_map(),
                forall|id: u64|
                    #[trigger] self.pending_ids().contains(id) <==> (ids@.subrange(
                        0,
                        i as int,
                    ).contains(id) && !old(self).cache_map().dom().contains(id) && id <= max_id),
                forall|id: u64|
                    ids@.subrange(0, i as int).contains(id) && id <= max_id
                        && #[trigger] sweep_fetches(*old(self), id, now, pause)
                        ==> self.last_req_map().dom().contains(id) && self.last_req_map()[id]
                        == now,
                forall|id: u64|
                    !(ids@.subrange(0, i as int).contains(id) && id <= max_id && sweep_fetches(
                        *old(self),
                        id,
                        now,
                        pause,
                    )) ==> (#[trigger] self.last_req_map().dom().contains(id) == old(
                        self,
                    ).last_req_map().dom().contains(id) && (old(self).last_req_map().dom().contains(
                        id,
                    ) ==> self.last_req_map()[id] == old(self).last_req_map()[id])),
                forall|id: u64|
                    #[trigger] fetched@.contains(id) <==> (ids@.subrange(0, i as int).contains(id)
                        && id <= max_id && sweep_fetches(*old(self), id, now, pause)),
                forall|a: int, b: int|
                    0 <= a < b < fetched@.len() ==> fetched@[a] != fetched@[b],
                forall|a: int| 0 <= a < fetched@.len() ==> (#[trigger] fetched@[a]) <= max_id,
                forall|a: int|
                    0 <= a < fetched@.len() ==> ids@.subrange(0, i as int).contains(
                        #[trigger] fetched@[a],
                    ),
            decreases n - i,
        {
            let id = ids[i];
            proof {
                assert(ids@.subrange(0, i + 1) =~= ids@.subrange(0, i as int).push(ids@[i as int]));
                assert(!ids@.subrange(0, i as int).contains(id));
            }
            if id <= max_id {
                let ghost pre_store = *self;
                let (found, sent) = self.attempt(id, None, now, pause);
                proof {
                    assert(pre_store.last_req_map().dom().contains(id) == old(
                        self,
                    ).last_req_map().dom().contains(id) && (old(self).last_req_map().dom().contains(
                        id,
                    ) ==> pre_store.last_req_map()[id] == old(self).last_req_map()[id]));
                    assert(pre_store.spec_throttled(id, now, pause) == old(self).spec_throttled(
                        id,
                        now,
                        pause,
                    ));
                    assert(ids@.contains(id)) by {
                        assert(ids@[i as int] == id);
                    }
                    assert(old(self).pending_ids().contains(id));
                    assert(found == old(self).cache_map().dom().contains(id));
                    assert(sent == sweep_fetches(*old(self), id, now, pause));
                }
                if sent {
                    fetched.push(id);
                }
            }
            i = i + 1;
        }
        proof {
            assert(ids@.subrange(0, n as int) =~= ids@);
        }
        fetched
    }

    /// One resolution attempt for `id`: memory, then the stored value the
    /// caller looked up, else a miss. Returns (available, fetch-needed).
    /// A fetch is asked for exactly when the id stays missing and its
    /// cool-down window has passed; asking stamps the window — so at most
    /// one fetch per id is ever issued within one window.
    pub fn attempt(&mut self, id: u64, stored: Option<V>, now: u64, pause: u64) -> (r: (
        bool,
        bool,
    ))
        ensures
            r.0 == (old(self).cache_map().dom().contains(id) || stored is Some),
            final(self).cache_map() == (if old(self).cache_map().dom().contains(id) || stored
                is None {
                old(self).cache_map()
            } else {
                old(self).cache_map().insert(id, stored.unwrap())
            }),
            old(self).cache_map().dom().contains(id) ==> final(self).cache_map() == old(self).cache_map() && final(self).cache_map()[id] == old(self).cache_map()[id],
            r.0 ==> final(self).pending_ids() == old(self).pending_ids().remove(id) && final(self).last_req_map() == old(self).last_req_map() && !r.1,
            !r.0 ==> {
                &&& final(self).pending_ids() == old(self).pending_ids().insert(id)
                &&& r.1 == !old(self).spec_throttled(id, now, pause)
                &&& r.1 ==> final(self).last_req_map() == old(self).last_req_map().insert(id, now)
                &&& !r.1 ==> final(self).last_req_map() == old(self).last_req_map()
            },
            final(self).cache_map().dom().contains(id) == r.0,
    {
        if self.cache.contains_key(id) {
            self.pending.remove(id);
            return (true, false);
        }
        match stored {
            Some(v) => {
                self.cache.insert(id, v);
                self.pending.remove(id);
                (true, false)
            },
            None => {
                self.pending.insert(id);
                let send = match self.last_req.get(id) {
                    Some(t) => now >= *t && now - *t > pause,
                    None => true,
                };
                if send {
                    self.last_req.insert(id, now);
                    (false, true)
                } else {
                    (false, false)
                }
            },
        }
    }
}

/// One resolution attempt's whole effect on a store: the outcome flags, the
/// cache (fed only by the stored copy), the pending set (dropped on a hit,
/// kept on a miss) and the request timestamp (stamped exactly when a fetch
/// goes out).
pub open spec fn attempted<V>(
    pre: MirrorStore<V>,
    post: MirrorStore<V>,
    id: u64,
    stored: Option<V>,
    now: u64,
    pause: u64,
    found: bool,
    sent: bool,
) -> bool {
    &&& found == (pre.cache_map().dom().contains(id) || stored is Some)
    &&& post.cache_map() == (if pre.cache_map().dom().contains(id) || stored is None {
        pre.cache_map()
    } else {
        pre.cache_map().insert(id, stored.unwrap())
    })
    &&& found ==> post.pending_ids() == pre.pending_ids().remove(id) && post.last_req_map()
        == pre.last_req_map() && !sent
    &&& !found ==> {
        &&& post.pending_ids() == pre.pending_ids().insert(id)
        &&& sent == !pre.spec_throttled(id, now, pause)
        &&& sent ==> post.last_req_map() == pre.last_req_map().insert(id, now)
        &&& !sent ==> post.last_req_map() == pre.last_req_map()
    }
}

/// Whether an acquisition sweep over `pre` owes a fetch for `id`: it was
/// pending, it is still missing, and its cool-down window has passed.
pub open spec fn sweep_fetches<V>(pre: MirrorStore<V>, id: u64, now: u64, pause: u64) -> bool {
    pre.pending_ids().contains(id) && !pre.cache_map().dom().contains(id) && !pre.spec_throttled(
        id,
        now,
        pause,
    )
}

/// One store's share of an acquisition sweep, with no stored copies at
/// hand: the cache is untouched; the final pending set holds exactly the
/// previously pending ids that are still missing (and representable, for
/// 32-bit kinds); and exactly the owed fetches were stamped `now`, every
/// other request timestamp staying as it was.
pub open spec fn swept_store<V>(
    pre: MirrorStore<V>,
    post: MirrorStore<V>,
    now: u64,
    pause: u64,
    max_id: u64,
) -> bool {
    &&& post.cache_map() == pre.cache_map()
    &&& forall|id: u64|
        #[trigger] post.pending_ids().contains(id) <==> (pre.pending_ids().contains(id)
            && !pre.cache_map().dom().contains(id) && id <= max_id)
    &&& forall|id: u64|
        id <= max_id && #[trigger] sweep_fetches(pre, id, now, pause)
            ==> post.last_req_map().dom().contains(id) && post.last_req_map()[id] == now
    &&& forall|id: u64|
        !(id <= max_id && sweep_fetches(pre, id, now, pause)) ==> (
        #[trigger] post.last_req_map().dom().contains(id) == pre.last_req_map().dom().contains(id)
            && (pre.last_req_map().dom().contains(id) ==> post.last_req_map()[id]
            == pre.last_req_map()[id]))
}

/// A miss-side lookup touches nothing but the store's pending set, which
/// gains the id; cache and request timestamps stay as they were.
pub open spec fn only_pended<V>(pre: MirrorStore<V>, post: MirrorStore<V>, id: u64) -> bool {
    &&& post.pending_ids() == pre.pending_ids().insert(id)
    &&& post.cache_map() == pre.cache_map()
    &&& post.last_req_map() == pre.last_req_map()
}

/// Throttle bound: once a fetch for `id` is stamped at some time, the store
/// counts as throttled for `id` at every instant inside the cool-down
/// window that follows, so a populate attempt then issues no further fetch.
pub proof fn lemma_throttle_bound<V>(s: MirrorStore<V>, id: u64, t2: u64, pause: u64)
    requires
        s.last_req_map().dom().contains(id),
        t2 <= s.last_req_map()[id] + pause,
    ensures
        s.spec_throttled(id, t2, pause),
{
}

/// The client's mirror of every resource kind, with one shared cool-down
/// length for outbound fetches.
pub struct ClientResources {
    locations: MirrorStore<Location>,
    location_prims: MirrorStore<LocationPrimitive>,
    worlds: MirrorStore<World>,
    world_prims: MirrorStore<WorldPrimitive>,
    objects: MirrorStore<ObjectData>,
    entities: MirrorStore<EntityData>,
    req_pause_time: u64,
}

impl ClientResources {
    pub closed spec fn locations_store(self) -> MirrorStore<Location> {
        self.locations
    }

    pub closed spec fn location_prims_store(self) -> MirrorStore<LocationPrimitive> {
        self.location_prims
    }

    pub closed spec fn worlds_store(self) -> MirrorStore<World> {
        self.worlds
    }

    pub closed spec fn world_prims_store(self) -> MirrorStore<WorldPrimitive> {
        self.world_prims
    }

    pub closed spec fn objects_store(self) -> MirrorStore<ObjectData> {
        self.objects
    }

    pub closed spec fn entities_store(self) -> MirrorStore<EntityData> {
        self.entities
    }

    pub closed spec fn spec_pause(self) -> u64 {
        self.req_pause_time
    }

    /// Cached worlds are derived from cached primitives, and cached
    /// locations satisfy the bijection invariant.
    pub open spec fn wf(self) -> bool {
        &&& forall|w: u64|
            #[trigger] self.worlds_store().cache_map().dom().contains(w) ==> self.world_prims_store().cache_map().dom().contains(
                w,
            ) && self.worlds_store().cache_map()[w] == (World {
                prim: self.world_prims_store().cache_map()[w],
            })
        &&& forall|l: u64|
            #[trigger] self.locations_store().cache_map().dom().contains(l)
                ==> self.locations_store().cache_map()[l].wf()
    }

    pub fn new(req_pause_time: u64) -> (r: ClientResources)
        ensures
            r.wf(),
            r.spec_pause() == req_pause_time,
            r.locations_store().cache_map() == Map::<u64, Location>::empty(),
            r.location_prims_store().cache_map() == Map::<u64, LocationPrimitive>::empty(),
            r.worlds_store().cache_map() == Map::<u64, World>::empty(),
            r.world_prims_store().cache_map() == Map::<u64, WorldPrimitive>::empty(),
            r.objects_store().cache_map() == Map::<u64, ObjectData>::empty(),
            r.entities_store().cache_map() == Map::<u64, EntityData>::empty(),
            r.world_prims_store().last_req_map() == Map::<u64, u64>::empty(),
    {
        ClientResources {
            locations: MirrorStore::new(),
            location_prims: MirrorStore::new(),
            worlds: MirrorStore::new(),
            world_prims: MirrorStore::new(),
            objects: MirrorStore::new(),
            entities: MirrorStore::new(),
            req_pause_time,
        }
    }

    /// Resolve a world primitive: memory, stored copy, else a throttled
    /// fetch request for the caller to send.
    pub fn fast_world_prim_populate(
        &mut self,
        wid: WorldID,
        stored: Option<WorldPrimitive>,
        now: u64,
    ) -> (r: (bool, Option<MsgToServer>))
        requires
            old(self).wf(),
        ensures
            final(self).wf(),
            final(self).spec_pause() == old(self).spec_pause(),
            r.0 == (old(self).world_prims_store().cache_map().dom().contains(wid as u64) || stored
                is Some),
            r.0 == final(self).world_prims_store().cache_map().dom().contains(wid as u64),
            r.1 is Some <==> (!r.0 && !old(self).world_prims_store().spec_throttled(
                wid as u64,
                now,
                old(self).spec_pause(),
            )),
            r.1 is Some ==> r.1 == Some(MsgToServer::RequestWorldData(wid)) && final(self).world_prims_store().last_req_map() == old(self).world_prims_store().last_req_map().insert(wid as u64, now),
            final(self).worlds_store() == old(self).worlds_store(),
            final(self).locations_store() == old(self).locations_store(),
            final(self).location_prims_store() == old(self).location_prims_store(),
            final(self).objects_store() == old(self).objects_store(),
            final(self).entities_store() == old(self).entities_store(),
            old(self).world_prims_store().cache_map().dom().contains(wid as u64) ==> final(self).world_prims_store().cache_map() == old(self).world_prims_store().cache_map(),
            stored is Some && !old(self).world_prims_store().cache_map().dom().contains(
                wid as u64,
            ) ==> final(self).world_prims_store().cache_map() == old(self).world_prims_store().cache_map().insert(wid as u64, stored.unwrap()),
            stored is None ==> final(self).world_prims_store().cache_map() == old(
                self,
            ).world_prims_store().cache_map(),
            attempted(
                old(self).world_prims_store(),
                final(self).world_prims_store(),
                wid as u64,
                stored,
                now,
                old(self).spec_pause(),
                r.0,
                r.1 is Some,
            ),
    {
        let pause = self.req_pause_time;
        let (found, send) = self.world_prims.attempt(wid as u64, stored, now, pause);
        proof {
            assert forall|w: u64|
                #[trigger] self.worlds_store().cache_map().dom().contains(w) implies
                self.world_prims_store().cache_map().dom().contains(w)
                    && self.worlds_store().cache_map()[w] == (World {
                    prim: self.world_prims_store().cache_map()[w],
                }) by {
                assert(old(self).worlds_store().cache_map().dom().contains(w));
            }
            assert forall|l: u64|
                #[trigger] self.locations_store().cache_map().dom().contains(l) implies
                self.locations_store().cache_map()[l].wf() by {
                assert(old(self).locations_store().cache_map().dom().contains(l));
            }
        }
        if send {
            (found, Some(MsgToServer::RequestWorldData(wid)))
        } else {
            (found, None)
        }
    }

    /// Resolve a world: memory, else derive it from its primitive (resolved
    /// through the same chain first). Worlds are never stored, only derived.
    pub fn fast_world_populate(
        &mut self,
        wid: WorldID,
        stored_prim: Option<WorldPrimitive>,
        now: u64,
    ) -> (r: (bool, Option<MsgToServer>))
        requires
            old(self).wf(),
        ensures
            final(self).wf(),
            final(self).spec_pause() == old(self).spec_pause(),
            r.0 == (old(self).worlds_store().cache_map().dom().contains(wid as u64) || old(self).world_prims_store().cache_map().dom().contains(wid as u64) || stored_prim is Some),
            r.0 == final(self).worlds_store().cache_map().dom().contains(wid as u64),
            r.0 ==> final(self).worlds_store().cache_map()[wid as u64] == (World {
                prim: final(self).world_prims_store().cache_map()[wid as u64],
            }),
            r.1 is Some <==> (!r.0 && !old(self).world_prims_store().spec_throttled(
                wid as u64,
                now,
                old(self).spec_pause(),
            )),
            r.1 is Some ==> r.1 == Some(MsgToServer::RequestWorldData(wid)),
            final(self).locations_store() == old(self).locations_store(),
            final(self).location_prims_store() == old(self).location_prims_store(),
            final(self).objects_store() == old(self).objects_store(),
            final(self).entities_store() == old(self).entities_store(),
            old(self).worlds_store().cache_map().dom().contains(wid as u64) ==> *final(self)
                == *old(self),
            !old(self).worlds_store().cache_map().dom().contains(wid as u64) ==> {
                &&& attempted(
                    old(self).world_prims_store(),
                    final(self).world_prims_store(),
                    wid as u64,
                    stored_prim,
                    now,
                    old(self).spec_pause(),
                    old(self).world_prims_store().cache_map().dom().contains(wid as u64)
                        || stored_prim is Some,
                    r.1 is Some,
                )
                &&& final(self).worlds_store().pending_ids() == old(
                    self,
                ).worlds_store().pending_ids()
                &&& final(self).worlds_store().last_req_map() == old(
                    self,
                ).worlds_store().last_req_map()
                &&& r.0 ==> final(self).worlds_store().cache_map() == old(
                    self,
                ).worlds_store().cache_map().insert(
                    wid as u64,
                    World { prim: final(self).world_prims_store().cache_map()[wid as u64] },
                )
                &&& !r.0 ==> final(self).worlds_store() == old(self).worlds_store()
            },
    {
        let key = wid as u64;
        if self.worlds.cache.contains_key(key) {
            return (true, None);
        }
        let (have_prim, req) = self.fast_world_prim_populate(wid, stored_prim, now);
        if have_prim {
            let wp = *self.world_prims.cache.get(key).unwrap();
            let w = World::new(wp);
            self.worlds.cache.insert(key, w);
            proof {
                assert forall|x: u64|
                    #[trigger] self.worlds_store().cache_map().dom().contains(x) implies
                    self.world_prims_store().cache_map().dom().contains(x)
                        && self.worlds_store().cache_map()[x] == (World {
                        prim: self.world_prims_store().cache_map()[x],
                    }) by {
                    if x != key {
                        assert(old(self).worlds_store().cache_map().dom().contains(x));
                    }
                }
                assert forall|l: u64|
                    #[trigger] self.locations_store().cache_map().dom().contains(l) implies
                    self.locations_store().cache_map()[l].wf() by {
                    assert(old(self).locations_store().cache_map().dom().contains(l));
                }
            }
            (true, None)
        } else {
            (false, req)
        }
    }

    /// Resolve a location primitive: memory, stored copy, else a throttled
    /// fetch request.
    pub fn fast_location_prim_populate(
        &mut self,
        lid: LocationID,
        stored: Option<LocationPrimitive>,
        now: u64,
    ) -> (r: (bool, Option<MsgToServer>))
        requires
            old(self).wf(),
        ensures
            final(self).wf(),
            final(self).spec_pause() == old(self).spec_pause(),
            r.0 == (old(self).location_prims_store().cache_map().dom().contains(wid_key(lid))
                || stored is Some),
            r.0 == final(self).location_prims_store().cache_map().dom().contains(wid_key(lid)),
            r.0 && old(self).location_prims_store().cache_map().dom().contains(wid_key(lid))
                ==> final(self).location_prims_store().cache_map()[wid_key(lid)] == old(self).location_prims_store().cache_map()[wid_key(lid)],
            r.0 && !old(self).location_prims_store().cache_map().dom().contains(wid_key(lid))
                ==> final(self).location_prims_store().cache_map()[wid_key(lid)]
                == stored.unwrap(),
            r.1 is Some <==> (!r.0 && !old(self).location_prims_store().spec_throttled(
                wid_key(lid),
                now,
                old(self).spec_pause(),
            )),
            r.1 is Some ==> r.1 == Some(MsgToServer::RequestLocationData(lid)),
            stored is None ==> final(self).location_prims_store().cache_map() == old(
                self,
            ).location_prims_store().cache_map(),
            attempted(
                old(self).location_prims_store(),
                final(self).location_prims_store(),
                wid_key(lid),
                stored,
                now,
                old(self).spec_pause(),
                r.0,
                r.1 is Some,
            ),
            final(self).locations_store() == old(self).locations_store(),
            final(self).worlds_store() == old(self).worlds_store(),
            final(self).world_prims_store() == old(self).world_prims_store(),
            final(self).objects_store() == old(self).objects_store(),
            final(self).entities_store() == old(self).entities_store(),
    {
        let pause = self.req_pause_time;
        let (found, send) = self.location_prims.attempt(lid as u64, stored, now, pause);
        proof {
            lemma_wf_same_caches(*old(self), *self);
        }
        if send {
            (found, Some(MsgToServer::RequestLocationData(lid)))
        } else {
            (found, None)
        }
    }

    /// Resolve a full location: memory, else derive it from its primitive
    /// and its world (each resolved through the chain first). Success is
    /// owed exactly when the primitive is at hand (cached or stored) and
    /// its world is resolvable (derived, or derivable from a cached or
    /// stored world primitive); otherwise each missing, unthrottled link of
    /// the chain raises exactly one fetch request, handed back for sending.
    pub fn fast_location_populate(
        &mut self,
        lid: LocationID,
        stored_lp: Option<LocationPrimitive>,
        stored_wp: Option<WorldPrimitive>,
        now: u64,
    ) -> (r: (bool, Vec<MsgToServer>))
        requires
            old(self).wf(),
        ensures
            final(self).wf(),
            final(self).spec_pause() == old(self).spec_pause(),
            r.0 == final(self).locations_store().cache_map().dom().contains(wid_key(lid)),
            old(self).locations_store().cache_map().dom().contains(wid_key(lid)) ==> r.0,
            r.0 ==> final(self).locations_store().cache_map()[wid_key(lid)].wf(),
            r.0 && !old(self).locations_store().cache_map().dom().contains(wid_key(lid)) ==> {
                &&& final(self).location_prims_store().cache_map().dom().contains(wid_key(lid))
                &&& final(self).locations_store().cache_map()[wid_key(lid)].spec_prim() == final(self).location_prims_store().cache_map()[wid_key(lid)]
                &&& final(self).locations_store().cache_map()[wid_key(lid)].emap() == Map::<
                    u64,
                    (i32, i32),
                >::empty()
            },
            r.1@.len() <= 2,
            final(self).objects_store() == old(self).objects_store(),
            final(self).entities_store() == old(self).entities_store(),
            ({
                let key = wid_key(lid);
                let cached = old(self).locations_store().cache_map().dom().contains(key);
                let lp_known = old(self).location_prims_store().cache_map().dom().contains(key)
                    || stored_lp is Some;
                let the_lp = if old(self).location_prims_store().cache_map().dom().contains(key) {
                    old(self).location_prims_store().cache_map()[key]
                } else {
                    stored_lp.unwrap()
                };
                let w_known = old(self).worlds_store().cache_map().dom().contains(
                    the_lp.wid as u64,
                ) || old(self).world_prims_store().cache_map().dom().contains(the_lp.wid as u64)
                    || stored_wp is Some;
                &&& r.0 == (cached || (lp_known && w_known))
                &&& cached ==> *final(self) == *old(self) && r.1@ == Seq::<MsgToServer>::empty()
                &&& !cached ==> attempted(
                    old(self).location_prims_store(),
                    final(self).location_prims_store(),
                    key,
                    stored_lp,
                    now,
                    old(self).spec_pause(),
                    lp_known,
                    !lp_known && !old(self).location_prims_store().spec_throttled(
                        key,
                        now,
                        old(self).spec_pause(),
                    ),
                )
                &&& !cached && !lp_known ==> {
                    &&& r.1@ == (if old(self).location_prims_store().spec_throttled(
                        key,
                        now,
                        old(self).spec_pause(),
                    ) {
                        Seq::<MsgToServer>::empty()
                    } else {
                        seq![MsgToServer::RequestLocationData(lid)]
                    })
                    &&& final(self).world_prims_store() == old(self).world_prims_store()
                    &&& final(self).worlds_store() == old(self).worlds_store()
                    &&& final(self).locations_store() == old(self).locations_store()
                }
                &&& !cached && lp_known && !w_known ==> {
                    &&& r.1@ == (if old(self).world_prims_store().spec_throttled(
                        the_lp.wid as u64,
                        now,
                        old(self).spec_pause(),
                    ) {
                        Seq::<MsgToServer>::empty()
                    } else {
                        seq![MsgToServer::RequestWorldData(the_lp.wid)]
                    })
                    &&& attempted(
                        old(self).world_prims_store(),
                        final(self).world_prims_store(),
                        the_lp.wid as u64,
                        stored_wp,
                        now,
                        old(self).spec_pause(),
                        false,
                        !old(self).world_prims_store().spec_throttled(
                            the_lp.wid as u64,
                            now,
                            old(self).spec_pause(),
                        ),
                    )
                    &&& final(self).worlds_store() == old(self).worlds_store()
                    &&& final(self).locations_store() == old(self).locations_store()
                }
                &&& !cached && lp_known && w_known ==> r.1@ == Seq::<MsgToServer>::empty()
                    && final(self).locations_store().cache_map() == old(
                    self,
                ).locations_store().cache_map().insert(
                    key,
                    final(self).locations_store().cache_map()[key],
                )
            }),
    {
        let key = lid as u64;
        if self.locations.cache.contains_key(key) {
            return (true, Vec::new());
        }
        let mut requests: Vec<MsgToServer> = Vec::new();
        let (have_lp, lp_req) = self.fast_location_prim_populate(lid, stored_lp, now);
        match lp_req {
            Some(m) => {
                requests.push(m);
                proof {
                    assert(requests@ =~= seq![MsgToServer::RequestLocationData(lid)]);
                }
            },
            None => {
                proof {
                    assert(requests@ =~= Seq::<MsgToServer>::empty());
                }
            },
        }
        if !have_lp {
            proof {
                let pause = old(self).spec_pause();
                assert(!old(self).location_prims_store().cache_map().dom().contains(key)
                    && stored_lp is None);
                assert(attempted(
                    old(self).location_prims_store(),
                    self.location_prims_store(),
                    key,
                    stored_lp,
                    now,
                    pause,
                    false,
                    !old(self).location_prims_store().spec_throttled(key, now, pause),
                ));
                assert(self.world_prims_store() == old(self).world_prims_store());
                assert(self.worlds_store() == old(self).worlds_store());
                assert(self.locations_store() == old(self).locations_store());
                if old(self).location_prims_store().spec_throttled(key, now, pause) {
                    assert(requests@ =~= Seq::<MsgToServer>::empty());
                } else {
                    assert(requests@ =~= seq![MsgToServer::RequestLocationData(lid)]);
                }
            }
            return (false, requests);
        }
        let lp = *self.location_prims.cache.get(key).unwrap();
        proof {
            assert(lp == (if old(self).location_prims_store().cache_map().dom().contains(key) {
                old(self).location_prims_store().cache_map()[key]
            } else {
                stored_lp.unwrap()
            }));
        }
        let ghost mid = *self;
        let (have_world, w_req) = self.fast_world_populate(lp.wid, stored_wp, now);
        match w_req {
            Some(m) => {
                requests.push(m);
                proof {
                    assert(requests@ =~= seq![MsgToServer::RequestWorldData(lp.wid)]);
                }
            },
            None => {},
        }
        if !have_world {
            proof {
                let pause = old(self).spec_pause();
                assert(mid.worlds_store() == old(self).worlds_store());
                assert(mid.world_prims_store() == old(self).world_prims_store());
                assert(!mid.worlds_store().cache_map().dom().contains(lp.wid as u64));
                assert(attempted(
                    old(self).world_prims_store(),
                    self.world_prims_store(),
                    lp.wid as u64,
                    stored_wp,
                    now,
                    pause,
                    false,
                    !old(self).world_prims_store().spec_throttled(lp.wid as u64, now, pause),
                ));
                assert(self.worlds_store() == old(self).worlds_store());
                assert(self.locations_store() == old(self).locations_store());
                if old(self).world_prims_store().spec_throttled(lp.wid as u64, now, pause) {
                    assert(requests@ =~= Seq::<MsgToServer>::empty());
                } else {
                    assert(requests@ =~= seq![MsgToServer::RequestWorldData(lp.wid)]);
                }
            }
            return (false, requests);
        }
        proof {
            assert(requests@ =~= Seq::<MsgToServer>::empty());
        }
        let loc = Location::generate_new(lp);
        self.locations.cache.insert(key, loc);
        proof {
            assert forall|x: u64|
                #[trigger] self.locations_store().cache_map().dom().contains(x) implies
                self.locations_store().cache_map()[x].wf() by {
                if x != key {
                    assert(old(self).locations_store().cache_map().dom().contains(x));
                }
            }
            assert forall|w: u64|
                #[trigger] self.worlds_store().cache_map().dom().contains(w) implies
                self.world_prims_store().cache_map().dom().contains(w)
                    && self.worlds_store().cache_map()[w] == (World {
                    prim: self.world_prims_store().cache_map()[w],
                }) by {}
        }
        (true, requests)
    }

    /// Resolve an object descriptor: memory, stored copy, else a throttled
    /// fetch request.
    pub fn fast_object_populate(&mut self, oid: ObjectID, stored: Option<ObjectData>, now: u64)
        -> (r: (bool, Option<MsgToServer>))
        requires
            old(self).wf(),
        ensures
            final(self).wf(),
            final(self).spec_pause() == old(self).spec_pause(),
            r.0 == (old(self).objects_store().cache_map().dom().contains(oid) || stored is Some),
            r.0 == final(self).objects_store().cache_map().dom().contains(oid),
            r.1 is Some <==> (!r.0 && !old(self).objects_store().spec_throttled(
                oid,
                now,
                old(self).spec_pause(),
            )),
            r.1 is Some ==> r.1 == Some(MsgToServer::RequestObjectData(oid)),
            stored is None ==> final(self).objects_store().cache_map() == old(
                self,
            ).objects_store().cache_map(),
            attempted(
                old(self).objects_store(),
                final(self).objects_store(),
                oid,
                stored,
                now,
                old(self).spec_pause(),
                r.0,
                r.1 is Some,
            ),
            final(self).locations_store() == old(self).locations_store(),
            final(self).location_prims_store() == old(self).location_prims_store(),
            final(self).worlds_store() == old(self).worlds_store(),
            final(self).world_prims_store() == old(self).world_prims_store(),
            final(self).entities_store() == old(self).entities_store(),
    {
        let pause = self.req_pause_time;
        let (found, send) = self.objects.attempt(oid, stored, now, pause);
        proof {
            lemma_wf_same_caches(*old(self), *self);
        }
        if send {
            (found, Some(MsgToServer::RequestObjectData(oid)))
        } else {
            (found, None)
        }
    }

    /// Resolve an entity descriptor: memory, stored copy, else a throttled
    /// fetch request.
    pub fn fast_entity_populate(&mut self, eid: EntityID, stored: Option<EntityData>, now: u64)
        -> (r: (bool, Option<MsgToServer>))
        requires
            old(self).wf(),
        ensures
            final(self).wf(),
            final(self).spec_pause() == old(self).spec_pause(),
            r.0 == (old(self).entities_store().cache_map().dom().contains(eid) || stored is Some),
            r.0 == final(self).entities_store().cache_map().dom().contains(eid),
            r.1 is Some <==> (!r.0 && !old(self).entities_store().spec_throttled(
                eid,
                now,
                old(self).spec_pause(),
            )),
            r.1 is Some ==> r.1 == Some(MsgToServer::RequestEntityData(eid)),
            stored is None ==> final(self).entities_store().cache_map() == old(
                self,
            ).entities_store().cache_map(),
            attempted(
                old(self).entities_store(),
                final(self).entities_store(),
                eid,
                stored,
                now,
                old(self).spec_pause(),
                r.0,
                r.1 is Some,
            ),
            final(self).locations_store() == old(self).locations_store(),
            final(self).location_prims_store() == old(self).location_prims_store(),
            final(self).worlds_store() == old(self).worlds_store(),
            final(self).world_prims_store() == old(self).world_prims_store(),
            final(self).objects_store() == old(self).objects_store(),
    {
        let pause = self.req_pause_time;
        let (found, send) = self.entities.attempt(eid, stored, now, pause);
        proof {
            lemma_wf_same_caches(*old(self), *self);
        }
        if send {
            (found, Some(MsgToServer::RequestEntityData(eid)))
        } else {
            (found, None)
        }
    }

    /// Ingest a resource pushed by the server, short-circuiting the next
    /// sweep. Messages that carry no resource are ignored here.
    /// Ingest a resource pushed by the server, short-circuiting the next
    /// sweep: the value lands in the matching cache, overwriting any prior
    /// entry, and the id is no longer pending. A pushed world primitive
    /// invalidates the world previously derived from the overwritten one.
    /// Messages that carry no resource are ignored here.
    pub fn server_sent_data(&mut self, msg: MsgToClient)
        requires
            old(self).wf(),
        ensures
            final(self).wf(),
            final(self).spec_pause() == old(self).spec_pause(),
            match msg {
                MsgToClient::GiveLocationPrimitive(lid, lp) => {
                    &&& final(self).location_prims_store().cache_map() == old(
                        self,
                    ).location_prims_store().cache_map().insert(wid_key(lid), lp)
                    &&& final(self).location_prims_store().pending_ids() == old(
                        self,
                    ).location_prims_store().pending_ids().remove(wid_key(lid))
                    &&& final(self).worlds_store() == old(self).worlds_store()
                    &&& final(self).world_prims_store() == old(self).world_prims_store()
                    &&& final(self).locations_store() == old(self).locations_store()
                    &&& final(self).objects_store() == old(self).objects_store()
                    &&& final(self).entities_store() == old(self).entities_store()
                },
                MsgToClient::GiveWorldPrimitive(wid, wp) => {
                    &&& final(self).world_prims_store().cache_map() == old(
                        self,
                    ).world_prims_store().cache_map().insert(wid as u64, wp)
                    &&& final(self).world_prims_store().pending_ids() == old(
                        self,
                    ).world_prims_store().pending_ids().remove(wid as u64)
                    &&& final(self).worlds_store().cache_map() == old(
                        self,
                    ).worlds_store().cache_map().remove(wid as u64)
                    &&& final(self).locations_store() == old(self).locations_store()
                    &&& final(self).location_prims_store() == old(self).location_prims_store()
                    &&& final(self).objects_store() == old(self).objects_store()
                    &&& final(self).entities_store() == old(self).entities_store()
                },
                MsgToClient::GiveObjectData(oid, od) => {
                    &&& final(self).objects_store().cache_map() == old(
                        self,
                    ).objects_store().cache_map().insert(oid, od)
                    &&& final(self).objects_store().pending_ids() == old(
                        self,
                    ).objects_store().pending_ids().remove(oid)
                    &&& final(self).worlds_store() == old(self).worlds_store()
                    &&& final(self).world_prims_store() == old(self).world_prims_store()
                    &&& final(self).locations_store() == old(self).locations_store()
                    &&& final(self).location_prims_store() == old(self).location_prims_store()
                    &&& final(self).entities_store() == old(self).entities_store()
                },
                MsgToClient::GiveEntityData(eid, ed) => {
                    &&& final(self).entities_store().cache_map() == old(
                        self,
                    ).entities_store().cache_map().insert(eid, ed)
                    &&& final(self).entities_store().pending_ids() == old(
                        self,
                    ).entities_store().pending_ids().remove(eid)
                    &&& final(self).worlds_store() == old(self).worlds_store()
                    &&& final(self).world_prims_store() == old(self).world_prims_store()
                    &&& final(self).locations_store() == old(self).locations_store()
                    &&& final(self).location_prims_store() == old(self).location_prims_store()
                    &&& final(self).objects_store() == old(self).objects_store()
                },
                _ => *final(self) == *old(self),
            },
    {
        match msg {
            MsgToClient::GiveLocationPrimitive(lid, lp) => {
                self.location_prims.ingest(lid as u64, lp);
                proof {
                    lemma_wf_same_caches(*old(self), *self);
                }
            },
            MsgToClient::GiveWorldPrimitive(wid, wp) => {
                self.world_prims.ingest(wid as u64, wp);
                let _ = self.worlds.cache.remove(wid as u64);
                proof {
                    assert forall|w: u64|
                        #[trigger] self.worlds_store().cache_map().dom().contains(w) implies
                        self.world_prims_store().cache_map().dom().contains(w)
                            && self.worlds_store().cache_map()[w] == (World {
                            prim: self.world_prims_store().cache_map()[w],
                        }) by {
                        assert(w != wid as u64);
                        assert(old(self).worlds_store().cache_map().dom().contains(w));
                        assert(old(self).world_prims_store().cache_map().dom().contains(w));
                    }
                    assert forall|l: u64|
                        #[trigger] self.locations_store().cache_map().dom().contains(l) implies
                        self.locations_store().cache_map()[l].wf() by {
                        assert(old(self).locations_store().cache_map().dom().contains(l));
                    }
                }
            },
            MsgToClient::GiveObjectData(oid, od) => {
                self.objects.ingest(oid, od);
                proof {
                    lemma_wf_same_caches(*old(self), *self);
                }
            },
            MsgToClient::GiveEntityData(eid, ed) => {
                self.entities.ingest(eid, ed);
                proof {
                    lemma_wf_same_caches(*old(self), *self);
                }
            },
            _ => {},
        }
    }

    /// Non-blocking lookup of a world primitive; a miss records the id as
    /// pending acquisition.
    pub fn try_get_world_prim(&mut self, wid: WorldID) -> (r: Option<WorldPrimitive>)
        requires
            old(self).wf(),
        ensures
            final(self).wf(),
            match r {
                Some(wp) => *final(self) == *old(self) && old(self).world_prims_store().cache_map().dom().contains(wid as u64) && wp == old(self).world_prims_store().cache_map()[wid as u64],
                None => {
                    &&& !old(self).world_prims_store().cache_map().dom().contains(wid as u64)
                    &&& final(self).world_prims_store().pending_ids() == old(self).world_prims_store().pending_ids().insert(wid as u64)
                    &&& final(self).world_prims_store().cache_map() == old(self).world_prims_store().cache_map()
                },
            },
    {
        let key = wid as u64;
        match self.world_prims.lookup(key) {
            Some(wp) => Some(*wp),
            None => {
                self.world_prims.note_pending(key);
                proof {
                    lemma_wf_same_caches(*old(self), *self);
                }
                None
            },
        }
    }

    /// Non-blocking lookup of a world; a miss records the id as pending.
    pub fn try_get_world(&mut self, wid: WorldID) -> (r: Option<World>)
        requires
            old(self).wf(),
        ensures
            final(self).wf(),
            match r {
                Some(w) => *final(self) == *old(self) && old(self).worlds_store().cache_map().dom().contains(wid as u64) && w == old(self).worlds_store().cache_map()[wid as u64],
                None => {
                    &&& !old(self).worlds_store().cache_map().dom().contains(wid as u64)
                    &&& only_pended(old(self).worlds_store(), final(self).worlds_store(), wid as u64)
                    &&& final(self).world_prims_store() == old(self).world_prims_store()
                    &&& final(self).locations_store() == old(self).locations_store()
                    &&& final(self).location_prims_store() == old(self).location_prims_store()
                    &&& final(self).objects_store() == old(self).objects_store()
                    &&& final(self).entities_store() == old(self).entities_store()
                },
            },
    {
        let key = wid as u64;
        match self.worlds.lookup(key) {
            Some(w) => Some(*w),
            None => {
                self.worlds.note_pending(key);
                proof {
                    lemma_wf_same_caches(*old(self), *self);
                }
                None
            },
        }
    }

    /// Non-blocking lookup of a location primitive; a miss records the id
    /// as pending.
    pub fn try_get_location_prim(&mut self, lid: LocationID) -> (r: Option<LocationPrimitive>)
        requires
            old(self).wf(),
        ensures
            final(self).wf(),
            match r {
                Some(lp) => *final(self) == *old(self) && old(self).location_prims_store().cache_map().dom().contains(wid_key(lid)) && lp == old(self).location_prims_store().cache_map()[wid_key(lid)],
                None => {
                    &&& !old(self).location_prims_store().cache_map().dom().contains(wid_key(lid))
                    &&& only_pended(
                        old(self).location_prims_store(),
                        final(self).location_prims_store(),
                        wid_key(lid),
                    )
                    &&& final(self).world_prims_store() == old(self).world_prims_store()
                    &&& final(self).worlds_store() == old(self).worlds_store()
                    &&& final(self).locations_store() == old(self).locations_store()
                    &&& final(self).objects_store() == old(self).objects_store()
                    &&& final(self).entities_store() == old(self).entities_store()
                },
            },
    {
        let key = lid as u64;
        match self.location_prims.lookup(key) {
            Some(lp) => Some(*lp),
            None => {
                self.location_prims.note_pending(key);
                proof {
                    lemma_wf_same_caches(*old(self), *self);
                }
                None
            },
        }
    }

    /// Non-blocking lookup of a location; a miss records the id as pending.
    pub fn try_get_location(&mut self, lid: LocationID) -> (r: Option<&Location>)
        requires
            old(self).wf(),
        ensures
            final(self).wf(),
            match r {
                Some(loc) => *final(self) == *old(self) && old(self).locations_store().cache_map().dom().contains(wid_key(lid)) && *loc == old(self).locations_store().cache_map()[wid_key(lid)] && loc.wf(),
                None => {
                    &&& !old(self).locations_store().cache_map().dom().contains(wid_key(lid))
                    &&& only_pended(
                        old(self).locations_store(),
                        final(self).locations_store(),
                        wid_key(lid),
                    )
                    &&& final(self).world_prims_store() == old(self).world_prims_store()
                    &&& final(self).worlds_store() == old(self).worlds_store()
                    &&& final(self).location_prims_store() == old(self).location_prims_store()
                    &&& final(self).objects_store() == old(self).objects_store()
                    &&& final(self).entities_store() == old(self).entities_store()
                },
            },
    {
        let key = lid as u64;
        if !self.locations.cache.contains_key(key) {
            self.locations.note_pending(key);
            proof {
                lemma_wf_same_caches(*old(self), *self);
            }
            return None;
        }
        let loc = self.locations.cache.get(key).unwrap();
        Some(loc)
    }

    /// Non-blocking lookup of an object descriptor; a miss records the id
    /// as pending.
    pub fn try_get_object(&mut self, oid: ObjectID) -> (r: Option<ObjectData>)
        requires
            old(self).wf(),
        ensures
            final(self).wf(),
            match r {
                Some(od) => *final(self) == *old(self) && old(self).objects_store().cache_map().dom().contains(oid) && od == old(self).objects_store().cache_map()[oid],
                None => {
                    &&& !old(self).objects_store().cache_map().dom().contains(oid)
                    &&& only_pended(old(self).objects_store(), final(self).objects_store(), oid)
                    &&& final(self).world_prims_store() == old(self).world_prims_store()
                    &&& final(self).worlds_store() == old(self).worlds_store()
                    &&& final(self).locations_store() == old(self).locations_store()
                    &&& final(self).location_prims_store() == old(self).location_prims_store()
                    &&& final(self).entities_store() == old(self).entities_store()
                },
            },
    {
        match self.objects.lookup(oid) {
            Some(od) => Some(*od),
            None => {
                self.objects.note_pending(oid);
                proof {
                    lemma_wf_same_caches(*old(self), *self);
                }
                None
            },
        }
    }

    /// Non-blocking lookup of an entity descriptor; a miss records the id
    /// as pending.
    pub fn try_get_entity(&mut self, eid: EntityID) -> (r: Option<EntityData>)
        requires
            old(self).wf(),
        ensures
            final(self).wf(),
            match r {
                Some(ed) => *final(self) == *old(self) && old(self).entities_store().cache_map().dom().contains(eid) && ed == old(self).entities_store().cache_map()[eid],
                None => {
                    &&& !old(self).entities_store().cache_map().dom().contains(eid)
                    &&& only_pended(old(self).entities_store(), final(self).entities_store(), eid)
                    &&& final(self).world_prims_store() == old(self).world_prims_store()
                    &&& final(self).worlds_store() == old(self).worlds_store()
                    &&& final(self).locations_store() == old(self).locations_store()
                    &&& final(self).location_prims_store() == old(self).location_prims_store()
                    &&& final(self).objects_store() == old(self).objects_store()
                },
            },
    {
        match self.entities.lookup(eid) {
            Some(ed) => Some(*ed),
            None => {
                self.entities.note_pending(eid);
                proof {
                    lemma_wf_same_caches(*old(self), *self);
                }
                None
            },
        }
    }

    /// Apply a server-pushed diff to the mirrored copy of a location, if
    /// one is cached; accepted or rejected exactly as the authoritative
    /// copy decides it.
    pub fn apply_server_diff(&mut self, lid: LocationID, diff: crate::messaging::Diff) -> (r:
        Result<(), ()>)
        requires
            old(self).wf(),
        ensures
            final(self).wf(),
            final(self).spec_pause() == old(self).spec_pause(),
            !old(self).locations_store().cache_map().dom().contains(wid_key(lid)) ==> r is Err
                && *final(self) == *old(self),
            old(self).locations_store().cache_map().dom().contains(wid_key(lid)) ==> {
                let pre_loc = old(self).locations_store().cache_map()[wid_key(lid)];
                &&& r is Ok <==> crate::location::diff_ok(pre_loc.emap(), diff)
                &&& final(self).locations_store().cache_map().dom().contains(wid_key(lid))
                &&& final(self).locations_store().cache_map()[wid_key(lid)].emap()
                    == crate::location::diff_apply(pre_loc.emap(), diff)
                &&& final(self).world_prims_store() == old(self).world_prims_store()
                &&& final(self).worlds_store() == old(self).worlds_store()
            },
    {
        let key = lid as u64;
        match self.locations.cache.remove(key) {
            Some(mut loc) => {
                proof {
                    assert(old(self).locations_store().cache_map().dom().contains(key));
                    assert(loc.wf());
                }
                let r = loc.apply_diff(diff);
                self.locations.cache.insert(key, loc);
                proof {
                    assert(self.locations_store().cache_map() =~= old(
                        self,
                    ).locations_store().cache_map().insert(key, loc));
                    assert forall|l: u64|
                        #[trigger] self.locations_store().cache_map().dom().contains(l) implies
                        self.locations_store().cache_map()[l].wf() by {
                        if l != key {
                            assert(old(self).locations_store().cache_map().dom().contains(l));
                        }
                    }
                    assert forall|w: u64|
                        #[trigger] self.worlds_store().cache_map().dom().contains(w) implies
                        self.world_prims_store().cache_map().dom().contains(w)
                            && self.worlds_store().cache_map()[w] == (World {
                            prim: self.world_prims_store().cache_map()[w],
                        }) by {
                        assert(old(self).worlds_store().cache_map().dom().contains(w));
                    }
                }
                r
            },
            None => Err(()),
        }
    }

    /// The periodic acquisition sweep: one resolution attempt for every
    /// pending id of every fetchable kind, with no stored copies at hand.
    /// Each kind's store is swept exactly (`swept_store`): cached ids leave
    /// the pending set, still-missing ids stay, and the returned vector
    /// holds exactly one fetch per still-missing pending id whose cool-down
    /// window had passed — none for a throttled id — each fetch stamping
    /// that id's last-request time.
    pub fn perform_acquisitions(&mut self, now: u64) -> (out: Vec<MsgToServer>)
        requires
            old(self).wf(),
        ensures
            final(self).wf(),
            final(self).spec_pause() == old(self).spec_pause(),
            swept_store(
                old(self).world_prims_store(),
                final(self).world_prims_store(),
                now,
                old(self).spec_pause(),
                0xffff_ffffu64,
            ),
            swept_store(
                old(self).location_prims_store(),
                final(self).location_prims_store(),
                now,
                old(self).spec_pause(),
                0xffff_ffffu64,
            ),
            swept_store(
                old(self).objects_store(),
                final(self).objects_store(),
                now,
                old(self).spec_pause(),
                u64::MAX,
            ),
            swept_store(
                old(self).entities_store(),
                final(self).entities_store(),
                now,
                old(self).spec_pause(),
                u64::MAX,
            ),
            final(self).worlds_store() == old(self).worlds_store(),
            final(self).locations_store() == old(self).locations_store(),
            forall|w: u32|
                #[trigger] out@.contains(MsgToServer::RequestWorldData(w)) <==> sweep_fetches(
                    old(self).world_prims_store(),
                    w as u64,
                    now,
                    old(self).spec_pause(),
                ),
            forall|l: u32|
                #[trigger] out@.contains(MsgToServer::RequestLocationData(l)) <==> sweep_fetches(
                    old(self).location_prims_store(),
                    l as u64,
                    now,
                    old(self).spec_pause(),
                ),
            forall|o: u64|
                #[trigger] out@.contains(MsgToServer::RequestObjectData(o)) <==> sweep_fetches(
                    old(self).objects_store(),
                    o,
                    now,
                    old(self).spec_pause(),
                ),
            forall|e: u64|
                #[trigger] out@.contains(MsgToServer::RequestEntityData(e)) <==> sweep_fetches(
                    old(self).entities_store(),
                    e,
                    now,
                    old(self).spec_pause(),
                ),
            forall|i: int|
                0 <= i < out@.len() ==> ((#[trigger] out@[i]) is RequestWorldData || out@[i]
                    is RequestLocationData || out@[i] is RequestObjectData || out@[i]
                    is RequestEntityData),
            forall|i: int, j: int| 0 <= i < j < out@.len() ==> out@[i] != out@[j],
    {
        let pause = self.req_pause_time;
        let wp_ids = self.world_prims.sweep(now, pause, 0xffff_ffffu64);
        let lp_ids = self.location_prims.sweep(now, pause, 0xffff_ffffu64);
        let ob_ids = self.objects.sweep(now, pause, u64::MAX);
        let en_ids = self.entities.sweep(now, pause, u64::MAX);
        proof {
            lemma_wf_same_caches(*old(self), *self);
        }
        let mut out: Vec<MsgToServer> = Vec::new();
        let ghost pre = *old(self);

        let n1 = wp_ids.len();
        let mut i: usize = 0;
        while i < n1
            invariant
                n1 == wp_ids@.len(),
                i <= n1,
                forall|id: u64|
                    #[trigger] wp_ids@.contains(id) <==> (id <= 0xffff_ffffu64 && sweep_fetches(
                        pre.world_prims_store(),
                        id,
                        now,
                        pre.spec_pause(),
                    )),
                forall|a: int, b: int| 0 <= a < b < n1 ==> wp_ids@[a] != wp_ids@[b],
                forall|a: int| 0 <= a < n1 ==> (#[trigger] wp_ids@[a]) <= 0xffff_ffffu64,
                out@.len() == i,
                forall|a: int|
                    0 <= a < i ==> (#[trigger] out@[a]) == MsgToServer::RequestWorldData(
                        wp_ids@[a] as u32,
                    ),
                forall|w: u32|
                    #[trigger] out@.contains(MsgToServer::RequestWorldData(w)) <==> wp_ids@.subrange(
                        0,
                        i as int,
                    ).contains(w as u64),
            decreases n1 - i,
        {
            let id = wp_ids[i];
            proof {
                assert(wp_ids@.subrange(0, i + 1) =~= wp_ids@.subrange(0, i as int).push(
                    wp_ids@[i as int],
                ));
            }
            out.push(MsgToServer::RequestWorldData(id as u32));
            proof {
                assert forall|w: u32|
                    #[trigger] out@.contains(MsgToServer::RequestWorldData(w)) <==> wp_ids@.subrange(
                        0,
                        i + 1,
                    ).contains(w as u64) by {
                    if out@.contains(MsgToServer::RequestWorldData(w)) {
                        let a = choose|a: int|
                            0 <= a < out@.len() && out@[a] == MsgToServer::RequestWorldData(w);
                        assert(wp_ids@.subrange(0, i + 1).contains(wp_ids@[a]));
                        assert(wp_ids@[a] as u32 == w && wp_ids@[a] <= 0xffff_ffffu64);
                    }
                    if wp_ids@.subrange(0, i + 1).contains(w as u64) {
                        let a = choose|a: int|
                            0 <= a < i + 1 && (#[trigger] wp_ids@.subrange(0, i + 1)[a]) == w
                                as u64;
                        assert(out@[a] == MsgToServer::RequestWorldData(wp_ids@[a] as u32));
                    }
                }
            }
            i = i + 1;
        }
        proof {
            assert(wp_ids@.subrange(0, n1 as int) =~= wp_ids@);
            assert forall|w: u32|
                #[trigger] out@.contains(MsgToServer::RequestWorldData(w)) <==> sweep_fetches(
                    pre.world_prims_store(),
                    w as u64,
                    now,
                    pre.spec_pause(),
                ) by {
                assert(out@.contains(MsgToServer::RequestWorldData(w)) <==> wp_ids@.contains(
                    w as u64,
                ));
            }
        }
        let ghost out1 = out@;

        let n2 = lp_ids.len();
        let mut j: usize = 0;
        while j < n2
            invariant
                n2 == lp_ids@.len(),
                j <= n2,
                forall|id: u64|
                    #[trigger] lp_ids@.contains(id) <==> (id <= 0xffff_ffffu64 && sweep_fetches(
                        pre.location_prims_store(),
                        id,
                        now,
                        pre.spec_pause(),
                    )),
                forall|a: int, b: int| 0 <= a < b < n2 ==> lp_ids@[a] != lp_ids@[b],
                forall|a: int| 0 <= a < n2 ==> (#[trigger] lp_ids@[a]) <= 0xffff_ffffu64,
                out@.len() == out1.len() + j,
                forall|a: int| 0 <= a < out1.len() ==> (#[trigger] out@[a]) == out1[a],
                forall|a: int|
                    out1.len() <= a < out@.len() ==> (#[trigger] out@[a])
                        == MsgToServer::RequestLocationData(lp_ids@[a - out1.len()] as u32),
            decreases n2 - j,
        {
            let id = lp_ids[j];
            out.push(MsgToServer::RequestLocationData(id as u32));
            j = j + 1;
        }
        let ghost out2 = out@;

        let n3 = ob_ids.len();
        let mut k: usize = 0;
        while k < n3
            invariant
                n3 == ob_ids@.len(),
                k <= n3,
                forall|id: u64|
                    #[trigger] ob_ids@.contains(id) <==> sweep_fetches(
                        pre.objects_store(),
                        id,
                        now,
                        pre.spec_pause(),
                    ),
                forall|a: int, b: int| 0 <= a < b < n3 ==> ob_ids@[a] != ob_ids@[b],
                out@.len() == out2.len() + k,
                forall|a: int| 0 <= a < out2.len() ==> (#[trigger] out@[a]) == out2[a],
                forall|a: int|
                    out2.len() <= a < out@.len() ==> (#[trigger] out@[a])
                        == MsgToServer::RequestObjectData(ob_ids@[a - out2.len()]),
            decreases n3 - k,
        {
            let id = ob_ids[k];
            out.push(MsgToServer::RequestObjectData(id));
            k = k + 1;
        }
        let ghost out3 = out@;

        let n4 = en_ids.len();
        let mut l: usize = 0;
        while l < n4
            invariant
                n4 == en_ids@.len(),
                l <= n4,
                forall|id: u64|
                    #[trigger] en_ids@.contains(id) <==> sweep_fetches(
                        pre.entities_store(),
                        id,
                        now,
                        pre.spec_pause(),
                    ),
                forall|a: int, b: int| 0 <= a < b < n4 ==> en_ids@[a] != en_ids@[b],
                out@.len() == out3.len() + l,
                forall|a: int| 0 <= a < out3.len() ==> (#[trigger] out@[a]) == out3[a],
                forall|a: int|
                    out3.len() <= a < out@.len() ==> (#[trigger] out@[a])
                        == MsgToServer::RequestEntityData(en_ids@[a - out3.len()]),
            decreases n4 - l,
        {
            let id = en_ids[l];
            out.push(MsgToServer::RequestEntityData(id));
            l = l + 1;
        }

        proof {
            assert(out1.len() == n1 && out2.len() == out1.len() + n2 && out3.len() == out2.len()
                + n3 && out@.len() == out3.len() + n4);
            assert forall|a: int|
                0 <= a < out@.len() implies ((#[trigger] out@[a]) is RequestWorldData || out@[a]
                is RequestLocationData || out@[a] is RequestObjectData || out@[a]
                is RequestEntityData) by {
                if a < out1.len() {
                    assert(out@[a] == out1[a]);
                    assert(out1[a] == MsgToServer::RequestWorldData(wp_ids@[a] as u32));
                } else if a < out2.len() {
                    assert(out@[a] == out2[a]);
                } else if a < out3.len() {
                    assert(out@[a] == out3[a]);
                }
            }
            assert forall|a: int, b: int| 0 <= a < b < out@.len() implies out@[a] != out@[b] by {
                if b < out1.len() {
                    assert(out@[a] == MsgToServer::RequestWorldData(wp_ids@[a] as u32));
                    assert(out@[b] == MsgToServer::RequestWorldData(wp_ids@[b] as u32));
                    assert(wp_ids@[a] != wp_ids@[b]);
                    assert(wp_ids@[a] <= 0xffff_ffffu64 && wp_ids@[b] <= 0xffff_ffffu64);
                } else if a < out1.len() && b < out2.len() {
                    assert(out@[a] == MsgToServer::RequestWorldData(wp_ids@[a] as u32));
                    assert(out@[b] == out2[b]);
                    assert(out2[b] == MsgToServer::RequestLocationData(
                        lp_ids@[b - out1.len()] as u32,
                    ));
                } else if a < out1.len() {
                    assert(out@[a] == MsgToServer::RequestWorldData(wp_ids@[a] as u32));
                    if b < out3.len() {
                        assert(out@[b] == out3[b] && out3[b] == MsgToServer::RequestObjectData(
                            ob_ids@[b - out2.len()],
                        ));
                    } else {
                        assert(out@[b] == MsgToServer::RequestEntityData(
                            en_ids@[b - out3.len()],
                        ));
                    }
                } else if b < out2.len() {
                    assert(out@[a] == out2[a] && out@[b] == out2[b]);
                    assert(out2[a] == MsgToServer::RequestLocationData(
                        lp_ids@[a - out1.len()] as u32,
                    ) && out2[b] == MsgToServer::RequestLocationData(
                        lp_ids@[b - out1.len()] as u32,
                    ));
                    assert(lp_ids@[a - out1.len()] != lp_ids@[b - out1.len()]);
                    assert(lp_ids@[a - out1.len()] <= 0xffff_ffffu64 && lp_ids@[b - out1.len()]
                        <= 0xffff_ffffu64);
                } else if a < out2.len() {
                    assert(out@[a] == out2[a] && out2[a] == MsgToServer::RequestLocationData(
                        lp_ids@[a - out1.len()] as u32,
                    ));
                    if b < out3.len() {
                        assert(out@[b] == out3[b] && out3[b] == MsgToServer::RequestObjectData(
                            ob_ids@[b - out2.len()],
                        ));
                    } else {
                        assert(out@[b] == MsgToServer::RequestEntityData(
                            en_ids@[b - out3.len()],
                        ));
                    }
                } else if b < out3.len() {
                    assert(out@[a] == out3[a] && out@[b] == out3[b]);
                    assert(out3[a] == MsgToServer::RequestObjectData(ob_ids@[a - out2.len()])
                        && out3[b] == MsgToServer::RequestObjectData(ob_ids@[b - out2.len()]));
                    assert(ob_ids@[a - out2.len()] != ob_ids@[b - out2.len()]);
                } else if a < out3.len() {
                    assert(out@[a] == out3[a] && out3[a] == MsgToServer::RequestObjectData(
                        ob_ids@[a - out2.len()],
                    ));
                    assert(out@[b] == MsgToServer::RequestEntityData(en_ids@[b - out3.len()]));
                } else {
                    assert(out@[a] == MsgToServer::RequestEntityData(en_ids@[a - out3.len()])
                        && out@[b] == MsgToServer::RequestEntityData(en_ids@[b - out3.len()]));
                    assert(en_ids@[a - out3.len()] != en_ids@[b - out3.len()]);
                }
            }
            assert forall|w: u32|
                #[trigger] out@.contains(MsgToServer::RequestWorldData(w)) <==> sweep_fetches(
                    pre.world_prims_store(),
                    w as u64,
                    now,
                    pre.spec_pause(),
                ) by {
                if out@.contains(MsgToServer::RequestWorldData(w)) {
                    let a = choose|a: int|
                        0 <= a < out@.len() && out@[a] == MsgToServer::RequestWorldData(w);
                    assert(a < out1.len());
                    assert(out1.contains(MsgToServer::RequestWorldData(w)));
                }
                if sweep_fetches(pre.world_prims_store(), w as u64, now, pre.spec_pause()) {
                    assert(out1.contains(MsgToServer::RequestWorldData(w)));
                    let a = choose|a: int|
                        0 <= a < out1.len() && out1[a] == MsgToServer::RequestWorldData(w);
                    assert(out@[a] == MsgToServer::RequestWorldData(w));
                }
            }
            assert forall|lw: u32|
                #[trigger] out@.contains(MsgToServer::RequestLocationData(lw)) <==> sweep_fetches(
                    pre.location_prims_store(),
                    lw as u64,
                    now,
                    pre.spec_pause(),
                ) by {
                if out@.contains(MsgToServer::RequestLocationData(lw)) {
                    let a = choose|a: int|
                        0 <= a < out@.len() && out@[a] == MsgToServer::RequestLocationData(lw);
                    assert(out1.len() <= a < out2.len());
                    assert(out@[a] == MsgToServer::RequestLocationData(
                        lp_ids@[a - out1.len()] as u32,
                    ));
                    assert(lp_ids@.contains(lp_ids@[a - out1.len()]));
                }
                if sweep_fetches(pre.location_prims_store(), lw as u64, now, pre.spec_pause()) {
                    assert(lp_ids@.contains(lw as u64));
                    let a = choose|a: int| 0 <= a < lp_ids@.len() && lp_ids@[a] == lw as u64;
                    assert(out@[out1.len() + a] == MsgToServer::RequestLocationData(lw));
                }
            }
            assert forall|o: u64|
                #[trigger] out@.contains(MsgToServer::RequestObjectData(o)) <==> sweep_fetches(
                    pre.objects_store(),
                    o,
                    now,
                    pre.spec_pause(),
                ) by {
                if out@.contains(MsgToServer::RequestObjectData(o)) {
                    let a = choose|a: int|
                        0 <= a < out@.len() && out@[a] == MsgToServer::RequestObjectData(o);
                    assert(out2.len() <= a < out3.len());
                    assert(out@[a] == MsgToServer::RequestObjectData(ob_ids@[a - out2.len()]));
                    assert(ob_ids@.contains(ob_ids@[a - out2.len()]));
                }
                if sweep_fetches(pre.objects_store(), o, now, pre.spec_pause()) {
                    assert(ob_ids@.contains(o));
                    let a = choose|a: int| 0 <= a < ob_ids@.len() && ob_ids@[a] == o;
                    assert(out@[out2.len() + a] == MsgToServer::RequestObjectData(o));
                }
            }
            assert forall|e: u64|
                #[trigger] out@.contains(MsgToServer::RequestEntityData(e)) <==> sweep_fetches(
                    pre.entities_store(),
                    e,
                    now,
                    pre.spec_pause(),
                ) by {
                if out@.contains(MsgToServer::RequestEntityData(e)) {
                    let a = choose|a: int|
                        0 <= a < out@.len() && out@[a] == MsgToServer::RequestEntityData(e);
                    assert(out3.len() <= a);
                    assert(out@[a] == MsgToServer::RequestEntityData(en_ids@[a - out3.len()]));
                    assert(en_ids@.contains(en_ids@[a - out3.len()]));
                }
                if sweep_fetches(pre.entities_store(), e, now, pre.spec_pause()) {
                    assert(en_ids@.contains(e));
                    let a = choose|a: int| 0 <= a < en_ids@.len() && en_ids@[a] == e;
                    assert(out@[out3.len() + a] == MsgToServer::RequestEntityData(e));
                }
            }
        }
        out
    }

    /// The ids awaiting a world-primitive acquisition sweep; taking them
    /// clears the pending set.
    pub fn take_pending_world_prims(&mut self) -> (r: Vec<u64>)
        requires
            old(self).wf(),
        ensures
            final(self).wf(),
            final(self).spec_pause() == old(self).spec_pause(),
            forall|k: u64|
                r@.contains(k) <==> old(self).world_prims_store().pending_ids().contains(k),
            final(self).world_prims_store().pending_ids() == Set::<u64>::empty(),
            final(self).world_prims_store().cache_map() == old(self).world_prims_store().cache_map(),
            final(self).world_prims_store().last_req_map() == old(self).world_prims_store().last_req_map(),
            final(self).locations_store() == old(self).locations_store(),
            final(self).location_prims_store() == old(self).location_prims_store(),
            final(self).worlds_store() == old(self).worlds_store(),
            final(self).objects_store() == old(self).objects_store(),
            final(self).entities_store() == old(self).entities_store(),
    {
        let r = self.world_prims.take_pending();
        proof {
            lemma_wf_same_caches(*old(self), *self);
        }
        r
    }
}

/// A key for a 32-bit id inside a 64-bit keyed store.
pub open spec fn wid_key(id: u32) -> u64 {
    id as u64
}

/// The mirror invariant only watches the caches; operations that leave all
/// caches as they were preserve it.
proof fn lemma_wf_same_caches(pre: ClientResources, post: ClientResources)
    requires
        pre.wf(),
        post.worlds_store().cache_map() == pre.worlds_store().cache_map(),
        post.world_prims_store().cache_map() == pre.world_prims_store().cache_map(),
        post.locations_store().cache_map() == pre.locations_store().cache_map(),
    ensures
        post.wf(),
{
    assert forall|w: u64| #[trigger] post.worlds_store().cache_map().dom().contains(w) implies
        post.world_prims_store().cache_map().dom().contains(w)
            && post.worlds_store().cache_map()[w] == (World {
            prim: post.world_prims_store().cache_map()[w],
        }) by {
        assert(pre.worlds_store().cache_map().dom().contains(w));
    }
    assert forall|l: u64| #[trigger] post.locations_store().cache_map().dom().contains(l) implies
        post.locations_store().cache_map()[l].wf() by {
        assert(pre.locations_store().cache_map().dom().contains(l));
    }
}

} // verus!
