//! The tiered location cache: every loaded location sits in exactly one of
//! two in-memory tiers — foreground (simulated, diffs accepted) or
//! background (retained but idle) — and is otherwise unloaded. Subscriber
//! count drives promotion and demotion; background locations with no
//! subscribers are flushed and evicted once a retention window has passed.
//!
//! Storage is an outside collaborator: operations that may need a stored
//! snapshot take it as an argument (`stored`), and operations that must
//! persist state return the flush payloads for the caller to write out.

use vstd::prelude::*;
use crate::guard::{replay, LoadError, LocationGuard};
use crate::identity::{ClientID, ClientIDSet, EntityID, LocationID, CLIENT_ID_CAPACITY};
use crate::location::{diff_apply, diff_ok, spec_start_location_primitive, LocationPrimitive,
    START_LOCATION_LID};
use crate::messaging::Diff;
use crate::points::DPoint2;
use crate::table::Table;

verus! {

/// Where a location currently stands in the cache.
#[derive(Copy, Clone, Debug, PartialEq, Eq, Structural)]
pub enum Tier {
    Unloaded,
    Background,
    Foreground,
}

/// A listing `v` of entity positions faithfully presents the state `m`:
/// every listed entity stands where listed, and every entity of the state
/// is listed.
pub open spec fn entities_listing(m: Map<u64, (i32, i32)>, v: Seq<(EntityID, DPoint2)>) -> bool {
    &&& forall|i: int|
        0 <= i < v.len() ==> m.dom().contains((#[trigger] v[i]).0) && m[v[i].0]
            == v[i].1.as_pair()
    &&& forall|e: u64|
        m.dom().contains(e) ==> exists|i: int| 0 <= i < v.len() && (#[trigger] v[i]).0 == e
}

/// The state a location guard would hold right after being loaded with
/// `stored` as the storage lookup's answer.
pub open spec fn loaded_state(stored: Option<(LocationPrimitive, Vec<Diff>)>) -> Map<
    u64,
    (i32, i32),
> {
    match stored {
        Some(pd) => replay(Map::<u64, (i32, i32)>::empty(), pd.1@),
        None => Map::<u64, (i32, i32)>::empty(),
    }
}

/// The tiered location cache.
pub struct LocationLoader {
    background_retention: u64,
    subscriptions: Table<ClientIDSet>,
    background: Table<LocationGuard>,
    foreground: Table<LocationGuard>,
    last_simulated: Table<u64>,
    last_backgrounded: Table<u64>,
}

impl LocationLoader {
    pub closed spec fn fg_map(self) -> Map<u64, LocationGuard> {
        self.foreground.as_map()
    }

    pub closed spec fn bg_map(self) -> Map<u64, LocationGuard> {
        self.background.as_map()
    }

    pub closed spec fn subs_map(self) -> Map<u64, ClientIDSet> {
        self.subscriptions.as_map()
    }

    pub closed spec fn lb_map(self) -> Map<u64, u64> {
        self.last_backgrounded.as_map()
    }

    pub closed spec fn ls_map(self) -> Map<u64, u64> {
        self.last_simulated.as_map()
    }

    pub closed spec fn spec_retention(self) -> u64 {
        self.background_retention
    }

    /// The tier a location stands in.
    pub open spec fn tier_of(self, lid: LocationID) -> Tier {
        if self.fg_map().dom().contains(lid as u64) {
            Tier::Foreground
        } else if self.bg_map().dom().contains(lid as u64) {
            Tier::Background
        } else {
            Tier::Unloaded
        }
    }

    /// The guard of a loaded location.
    pub open spec fn guard_at(self, lid: LocationID) -> LocationGuard {
        if self.fg_map().dom().contains(lid as u64) {
            self.fg_map()[lid as u64]
        } else {
            self.bg_map()[lid as u64]
        }
    }

    /// The observable entity state of a loaded location.
    pub open spec fn loc_state(self, lid: LocationID) -> Map<u64, (i32, i32)> {
        self.guard_at(lid).spec_loc().emap()
    }

    /// The set of clients subscribed to a location.
    pub open spec fn spec_subscribers(self, lid: LocationID) -> Set<ClientID> {
        if self.subs_map().dom().contains(lid as u64) {
            self.subs_map()[lid as u64].set_view()
        } else {
            Set::empty()
        }
    }

    /// Cache invariant: the tiers are disjoint; every loaded guard satisfies
    /// the persistence invariant; every background location has a demotion
    /// timestamp and a foreground location has none; subscriber sets are
    /// kept only while non-empty; and a location with subscribers is always
    /// foreground — so a background or unloaded location never has a
    /// watcher.
    pub open spec fn wf(self) -> bool {
        &&& forall|l: u64|
            !(#[trigger] self.fg_map().dom().contains(l) && self.bg_map().dom().contains(l))
        &&& forall|l: u64|
            #[trigger] self.fg_map().dom().contains(l) ==> self.fg_map()[l].wf() && l
                <= 0xffff_ffffu64 && !self.lb_map().dom().contains(l)
        &&& forall|l: u64|
            #[trigger] self.bg_map().dom().contains(l) ==> self.bg_map()[l].wf() && l
                <= 0xffff_ffffu64 && self.lb_map().dom().contains(l)
        &&& forall|l: u64|
            #[trigger] self.subs_map().dom().contains(l) ==> !self.subs_map()[l].spec_is_empty()
                && self.fg_map().dom().contains(l)
    }

    /// Every table of the cache agrees at `l` between two states.
    pub open spec fn agree_at(pre: LocationLoader, post: LocationLoader, l: u64) -> bool {
        &&& post.fg_map().dom().contains(l) == pre.fg_map().dom().contains(l)
        &&& post.fg_map().dom().contains(l) ==> post.fg_map()[l] == pre.fg_map()[l]
        &&& post.bg_map().dom().contains(l) == pre.bg_map().dom().contains(l)
        &&& post.bg_map().dom().contains(l) ==> post.bg_map()[l] == pre.bg_map()[l]
        &&& post.lb_map().dom().contains(l) == pre.lb_map().dom().contains(l)
        &&& post.lb_map().dom().contains(l) ==> post.lb_map()[l] == pre.lb_map()[l]
        &&& post.ls_map().dom().contains(l) == pre.ls_map().dom().contains(l)
        &&& post.ls_map().dom().contains(l) ==> post.ls_map()[l] == pre.ls_map()[l]
    }

    /// Nothing outside `lid` changed, and no subscription changed at all.
    pub open spec fn only_lid_changed(pre: LocationLoader, post: LocationLoader, lid: LocationID)
        -> bool {
        &&& post.subs_map() == pre.subs_map()
        &&& post.spec_retention() == pre.spec_retention()
        &&& forall|l: u64| l != lid as u64 ==> #[trigger] Self::agree_at(pre, post, l)
    }

    pub fn new(background_retention: u64) -> (r: LocationLoader)
        ensures
            r.wf(),
            r.spec_retention() == background_retention,
            forall|lid: LocationID| r.tier_of(lid) == Tier::Unloaded,
            forall|lid: LocationID| r.spec_subscribers(lid) == Set::<ClientID>::empty(),
    {
        LocationLoader {
            background_retention,
            subscriptions: Table::new(),
            background: Table::new(),
            foreground: Table::new(),
            last_simulated: Table::new(),
            last_backgrounded: Table::new(),
        }
    }

    pub fn tier(&self, lid: LocationID) -> (r: Tier)
        ensures
            r == self.tier_of(lid),
    {
        if self.foreground.contains_key(lid as u64) {
            Tier::Foreground
        } else if self.background.contains_key(lid as u64) {
            Tier::Background
        } else {
            Tier::Unloaded
        }
    }

    /// If unloaded, load into background from `stored` (the storage lookup's
    /// answer for this location); otherwise leave everything alone. Returns
    /// whether the location now sits in background (as opposed to
    /// foreground). Fails only when a never-stored, non-start location is
    /// asked for.
    pub fn load_at_least_background(
        &mut self,
        lid: LocationID,
        stored: Option<(LocationPrimitive, Vec<Diff>)>,
        now: u64,
    ) -> (r: Result<bool, LoadError>)
        requires
            old(self).wf(),
        ensures
            final(self).wf(),
            match r {
                Ok(in_bg) => {
                    &&& in_bg == (final(self).tier_of(lid) == Tier::Background)
                    &&& final(self).tier_of(lid) != Tier::Unloaded
                    &&& old(self).tier_of(lid) != Tier::Unloaded ==> *final(self) == *old(self)
                    &&& old(self).tier_of(lid) == Tier::Unloaded ==> {
                        &&& final(self).tier_of(lid) == Tier::Background
                        &&& Self::only_lid_changed(*old(self), *final(self), lid)
                        &&& final(self).guard_at(lid).wf()
                        &&& final(self).loc_state(lid) == loaded_state(stored)
                        &&& stored is Some ==> final(self).guard_at(lid).spec_loc().spec_prim()
                            == stored.unwrap().0
                        &&& stored is None ==> final(self).guard_at(lid).spec_loc().spec_prim()
                            == spec_start_location_primitive()
                        &&& final(self).lb_map() == old(self).lb_map().insert(lid as u64, now)
                        &&& final(self).ls_map() == old(self).ls_map().remove(lid as u64)
                    }
                },
                Err(e) => {
                    &&& e == LoadError::MissingPrimitive(lid)
                    &&& *final(self) == *old(self)
                },
            },
            r is Err <==> (old(self).tier_of(lid) == Tier::Unloaded && stored is None && lid
                != START_LOCATION_LID),
    {
        let key = lid as u64;
        if self.foreground.contains_key(key) {
            return Ok(false);
        }
        if self.background.contains_key(key) {
            return Ok(true);
        }
        match LocationGuard::load_from(lid, stored) {
            Ok(guard) => {
                self.background.insert(key, guard);
                self.last_backgrounded.insert(key, now);
                let _ = self.last_simulated.remove(key);
                proof {
                    let pre = *old(self);
                    let post = *self;
                    assert forall|l: u64| #[trigger] post.bg_map().dom().contains(l) implies
                        post.bg_map()[l].wf() && l <= 0xffff_ffffu64 && post.lb_map().dom().contains(
                        l,
                    ) by {
                        if l != key {
                            assert(pre.bg_map().dom().contains(l));
                        }
                    }
                    assert forall|l: u64|
                        !(#[trigger] post.fg_map().dom().contains(l) && post.bg_map().dom().contains(
                        l)) by {
                        if l != key {
                            assert(!(pre.fg_map().dom().contains(l)
                                && pre.bg_map().dom().contains(l)));
                        }
                    }
                    assert forall|l: u64| #[trigger] post.subs_map().dom().contains(l) implies
                        !post.subs_map()[l].spec_is_empty() && post.fg_map().dom().contains(l) by {
                        assert(pre.subs_map().dom().contains(l));
                    }
                    assert forall|l: u64|
                        l != key implies #[trigger] Self::agree_at(pre, post, l) by {}
                }
                Ok(true)
            },
            Err(e) => Err(e),
        }
    }

    /// If not already foreground, load at least to background and promote.
    pub fn load_foreground(
        &mut self,
        lid: LocationID,
        stored: Option<(LocationPrimitive, Vec<Diff>)>,
        now: u64,
    ) -> (r: Result<(), LoadError>)
        requires
            old(self).wf(),
        ensures
            final(self).wf(),
            match r {
                Ok(_) => {
                    &&& final(self).tier_of(lid) == Tier::Foreground
                    &&& Self::only_lid_changed(*old(self), *final(self), lid)
                    &&& old(self).tier_of(lid) != Tier::Unloaded ==> final(self).guard_at(lid)
                        == old(self).guard_at(lid)
                    &&& old(self).tier_of(lid) == Tier::Unloaded ==> {
                        &&& final(self).guard_at(lid).wf()
                        &&& final(self).loc_state(lid) == loaded_state(stored)
                        &&& stored is Some ==> final(self).guard_at(lid).spec_loc().spec_prim()
                            == stored.unwrap().0
                        &&& stored is None ==> final(self).guard_at(lid).spec_loc().spec_prim()
                            == spec_start_location_primitive()
                    }
                    &&& final(self).lb_map() == old(self).lb_map().remove(lid as u64)
                    &&& old(self).tier_of(lid) == Tier::Foreground ==> *final(self) == *old(self)
                },
                Err(e) => {
                    &&& e == LoadError::MissingPrimitive(lid)
                    &&& *final(self) == *old(self)
                },
            },
            r is Err <==> (old(self).tier_of(lid) == Tier::Unloaded && stored is None && lid
                != START_LOCATION_LID),
    {
        let key = lid as u64;
        if self.foreground.contains_key(key) {
            proof {
                assert(!self.lb_map().dom().contains(key));
                assert(self.lb_map() =~= self.lb_map().remove(key));
            }
            return Ok(());
        }
        match self.load_at_least_background(lid, stored, now) {
            Ok(_) => {
                let ghost mid = *self;
                let guard = self.background.remove(key).unwrap();
                self.foreground.insert(key, guard);
                let _ = self.last_backgrounded.remove(key);
                proof {
                    let pre = *old(self);
                    let post = *self;
                    assert(mid.bg_map().dom().contains(key));
                    assert(guard.wf());
                    assert forall|l: u64| #[trigger] post.fg_map().dom().contains(l) implies
                        post.fg_map()[l].wf() && l <= 0xffff_ffffu64 by {
                        if l != key {
                            assert(mid.fg_map().dom().contains(l));
                        }
                    }
                    assert forall|l: u64| #[trigger] post.bg_map().dom().contains(l) implies
                        post.bg_map()[l].wf() && l <= 0xffff_ffffu64 && post.lb_map().dom().contains(
                        l,
                    ) by {
                        assert(l != key);
                        assert(mid.bg_map().dom().contains(l));
                    }
                    assert forall|l: u64| #[trigger] post.subs_map().dom().contains(l) implies
                        !post.subs_map()[l].spec_is_empty() && post.fg_map().dom().contains(l) by {
                        assert(mid.subs_map().dom().contains(l));
                    }
                    assert forall|l: u64|
                        l != key implies #[trigger] Self::agree_at(pre, post, l) by {
                        assert(Self::agree_at(pre, mid, l));
                    }
                }
                Ok(())
            },
            Err(e) => Err(e),
        }
    }

    /// Move a foreground location (with no subscribers) down to background,
    /// stamping the demotion time.
    fn unforeground(&mut self, lid: LocationID, now: u64)
        requires
            old(self).wf(),
            !old(self).subs_map().dom().contains(lid as u64),
        ensures
            final(self).wf(),
            final(self).subs_map() == old(self).subs_map(),
            final(self).spec_retention() == old(self).spec_retention(),
            old(self).tier_of(lid) != Tier::Foreground ==> *final(self) == *old(self),
            old(self).tier_of(lid) == Tier::Foreground ==> {
                &&& final(self).tier_of(lid) == Tier::Background
                &&& final(self).guard_at(lid) == old(self).guard_at(lid)
                &&& final(self).lb_map() == old(self).lb_map().insert(lid as u64, now)
                &&& forall|l: u64| l != lid as u64 ==> #[trigger] Self::agree_at(
                    *old(self),
                    *final(self),
                    l,
                )
            },
    {
        let key = lid as u64;
        match self.foreground.remove(key) {
            Some(guard) => {
                self.background.insert(key, guard);
                self.last_backgrounded.insert(key, now);
                proof {
                    let pre = *old(self);
                    let post = *self;
                    assert forall|l: u64|
                        !(#[trigger] post.fg_map().dom().contains(l)
                            && post.bg_map().dom().contains(l)) by {
                        if l != key {
                            assert(!(pre.fg_map().dom().contains(l)
                                && pre.bg_map().dom().contains(l)));
                        }
                    }
                    assert forall|l: u64| #[trigger] post.fg_map().dom().contains(l) implies
                        post.fg_map()[l].wf() && l <= 0xffff_ffffu64 by {
                        assert(pre.fg_map().dom().contains(l));
                    }
                    assert forall|l: u64| #[trigger] post.bg_map().dom().contains(l) implies
                        post.bg_map()[l].wf() && l <= 0xffff_ffffu64 && post.lb_map().dom().contains(
                        l,
                    ) by {
                        if l != key {
                            assert(pre.bg_map().dom().contains(l));
                        } else {
                            assert(pre.fg_map().dom().contains(key));
                        }
                    }
                    assert forall|l: u64| #[trigger] post.subs_map().dom().contains(l) implies
                        !post.subs_map()[l].spec_is_empty() && post.fg_map().dom().contains(l) by {
                        assert(pre.subs_map().dom().contains(l));
                        assert(l != key);
                    }
                    assert forall|l: u64|
                        l != key implies #[trigger] Self::agree_at(pre, post, l) by {}
                }
            },
            None => {},
        }
    }

    /// Record `cid`'s interest in `lid`. A subscription count rising from
    /// zero promotes the location to foreground at once, loading it first if
    /// need be — so a subscribed location is always foreground.
    pub fn client_subscribe(
        &mut self,
        cid: ClientID,
        lid: LocationID,
        stored: Option<(LocationPrimitive, Vec<Diff>)>,
        now: u64,
    ) -> (r: Result<(), LoadError>)
        requires
            old(self).wf(),
            cid < CLIENT_ID_CAPACITY,
        ensures
            final(self).wf(),
            match r {
                Ok(_) => {
                    &&& final(self).spec_subscribers(lid) == old(self).spec_subscribers(
                        lid,
                    ).insert(cid)
                    &&& final(self).tier_of(lid) == Tier::Foreground
                    &&& forall|l: LocationID|
                        l != lid ==> #[trigger] final(self).spec_subscribers(l) == old(self).spec_subscribers(l)
                    &&& forall|l: u64| l != lid as u64 ==> #[trigger] Self::agree_at(
                        *old(self),
                        *final(self),
                        l,
                    )
                    &&& old(self).tier_of(lid) != Tier::Unloaded ==> final(self).guard_at(lid)
                        == old(self).guard_at(lid)
                    &&& old(self).tier_of(lid) == Tier::Unloaded ==> final(self).loc_state(lid)
                        == loaded_state(stored)
                    &&& final(self).lb_map() == old(self).lb_map().remove(lid as u64)
                    &&& final(self).spec_retention() == old(self).spec_retention()
                },
                Err(e) => {
                    &&& e == LoadError::MissingPrimitive(lid)
                    &&& *final(self) == *old(self)
                },
            },
            r is Err <==> (old(self).tier_of(lid) == Tier::Unloaded && stored is None && lid
                != START_LOCATION_LID),
    {
        let key = lid as u64;
        let existing = match self.subscriptions.get(key) {
            Some(s) => Some(*s),
            None => None,
        };
        match existing {
            Some(mut s) => {
                proof {
                    assert(old(self).subs_map().dom().contains(key));
                    assert(self.fg_map().dom().contains(key));
                    assert(!self.lb_map().dom().contains(key));
                    assert(self.lb_map() =~= self.lb_map().remove(key));
                }
                s.set(cid, true);
                proof {
                    s.lemma_is_empty_iff();
                    assert(!s.spec_is_empty());
                }
                self.subscriptions.insert(key, s);
                proof {
                    let pre = *old(self);
                    let post = *self;
                    assert forall|l: u64| #[trigger] post.subs_map().dom().contains(l) implies
                        !post.subs_map()[l].spec_is_empty() && post.fg_map().dom().contains(l) by {
                        if l != key {
                            assert(pre.subs_map().dom().contains(l));
                        }
                    }
                    assert(post.spec_subscribers(lid) =~= pre.spec_subscribers(lid).insert(cid));
                    assert forall|l: LocationID|
                        l != lid implies #[trigger] post.spec_subscribers(l)
                            == pre.spec_subscribers(l) by {
                        if lid as u64 != l as u64 {
                        }
                    }
                    assert forall|l: u64|
                        l != key implies #[trigger] Self::agree_at(pre, post, l) by {}
                }
                Ok(())
            },
            None => {
                match self.load_foreground(lid, stored, now) {
                    Ok(_) => {
                        let ghost mid = *self;
                        let s = ClientIDSet::new_just_one(cid);
                        self.subscriptions.insert(key, s);
                        proof {
                            let pre = *old(self);
                            let post = *self;
                            assert forall|l: u64| #[trigger] post.subs_map().dom().contains(
                                l,
                            ) implies !post.subs_map()[l].spec_is_empty()
                                && post.fg_map().dom().contains(l) by {
                                if l != key {
                                    assert(mid.subs_map().dom().contains(l));
                                }
                            }
                            assert(pre.spec_subscribers(lid) =~= Set::<ClientID>::empty());
                            assert(post.spec_subscribers(lid) =~= pre.spec_subscribers(
                                lid,
                            ).insert(cid));
                            assert forall|l: LocationID|
                                l != lid implies #[trigger] post.spec_subscribers(l)
                                    == pre.spec_subscribers(l) by {
                                assert(Self::agree_at(pre, mid, l as u64));
                            }
                            assert forall|l: u64|
                                l != key implies #[trigger] Self::agree_at(pre, post, l) by {
                                assert(Self::agree_at(pre, mid, l));
                            }
                        }
                        Ok(())
                    },
                    Err(e) => Err(e),
                }
            },
        }
    }

    /// Withdraw `cid`'s interest in `lid`. When the last subscriber leaves,
    /// the subscriber set is dropped and the location is demoted from
    /// foreground to background, stamped with the demotion time.
    pub fn client_unsubscribe(&mut self, cid: ClientID, lid: LocationID, now: u64)
        requires
            old(self).wf(),
            cid < CLIENT_ID_CAPACITY,
        ensures
            final(self).wf(),
            final(self).spec_retention() == old(self).spec_retention(),
            final(self).spec_subscribers(lid) == old(self).spec_subscribers(lid).remove(cid),
            forall|l: LocationID|
                l != lid ==> #[trigger] final(self).spec_subscribers(l) == old(self).spec_subscribers(l),
            !old(self).subs_map().dom().contains(lid as u64) ==> *final(self) == *old(self),
            old(self).subs_map().dom().contains(lid as u64) && old(self).spec_subscribers(
                lid,
            ).remove(cid) != Set::<ClientID>::empty() ==> forall|l: u64|
                #[trigger] Self::agree_at(*old(self), *final(self), l),
            old(self).subs_map().dom().contains(lid as u64) && old(self).spec_subscribers(
                lid,
            ).remove(cid) == Set::<ClientID>::empty() ==> {
                &&& final(self).tier_of(lid) == Tier::Background
                &&& final(self).guard_at(lid) == old(self).guard_at(lid)
                &&& final(self).lb_map() == old(self).lb_map().insert(lid as u64, now)
                &&& forall|l: u64| l != lid as u64 ==> #[trigger] Self::agree_at(
                    *old(self),
                    *final(self),
                    l,
                )
            },
    {
        let key = lid as u64;
        let existing = match self.subscriptions.get(key) {
            Some(s) => Some(*s),
            None => None,
        };
        match existing {
            Some(mut s) => {
                proof {
                    assert(old(self).subs_map().dom().contains(key));
                    assert(self.fg_map().dom().contains(key));
                }
                s.set(cid, false);
                if s.is_empty() {
                    proof {
                        s.lemma_is_empty_iff();
                        assert(old(self).spec_subscribers(lid).remove(cid) =~= Set::<
                            ClientID,
                        >::empty());
                    }
                    let _ = self.subscriptions.remove(key);
                    let ghost mid = *self;
                    proof {
                        assert forall|l: u64| #[trigger] mid.subs_map().dom().contains(l) implies
                            !mid.subs_map()[l].spec_is_empty() && mid.fg_map().dom().contains(
                            l,
                        ) by {
                            assert(old(self).subs_map().dom().contains(l));
                        }
                        assert(mid.tier_of(lid) == Tier::Foreground);
                    }
                    self.unforeground(lid, now);
                    proof {
                        let pre = *old(self);
                        let post = *self;
                        assert(post.spec_subscribers(lid) =~= pre.spec_subscribers(lid).remove(
                            cid,
                        ));
                        assert forall|l: LocationID|
                            l != lid implies #[trigger] post.spec_subscribers(l)
                                == pre.spec_subscribers(l) by {
                            assert(Self::agree_at(mid, post, l as u64) || l as u64 == lid as u64);
                        }
                        assert forall|l: u64|
                            l != key implies #[trigger] Self::agree_at(pre, post, l) by {
                            assert(Self::agree_at(mid, post, l));
                        }
                    }
                } else {
                    proof {
                        s.lemma_is_empty_iff();
                    }
                    self.subscriptions.insert(key, s);
                    proof {
                        let pre = *old(self);
                        let post = *self;
                        assert forall|l: u64| #[trigger] post.subs_map().dom().contains(l) implies
                            !post.subs_map()[l].spec_is_empty() && post.fg_map().dom().contains(
                            l,
                        ) by {
                            if l != key {
                                assert(pre.subs_map().dom().contains(l));
                            }
                        }
                        assert(post.spec_subscribers(lid) =~= pre.spec_subscribers(lid).remove(
                            cid,
                        ));
                        assert(post.spec_subscribers(lid) != Set::<ClientID>::empty()) by {
                            let c = choose|c: ClientID| s.spec_get(c);
                            assert(post.spec_subscribers(lid).contains(c));
                        }
                        assert forall|l: LocationID|
                            l != lid implies #[trigger] post.spec_subscribers(l)
                                == pre.spec_subscribers(l) by {}
                        assert forall|l: u64| #[trigger] Self::agree_at(pre, post, l) by {}
                    }
                }
            },
            None => {
                proof {
                    assert(old(self).spec_subscribers(lid).remove(cid) =~= old(self).spec_subscribers(lid));
                }
            },
        }
    }

    /// Whether any client is subscribed to `lid`.
    pub fn subscribers_exist_for(&self, lid: LocationID) -> (r: bool)
        ensures
            r == self.subs_map().dom().contains(lid as u64),
    {
        self.subscriptions.contains_key(lid as u64)
    }

    /// The current subscriber set of `lid` (empty if none).
    pub fn get_subscriptions_for(&self, lid: LocationID) -> (r: ClientIDSet)
        requires
            self.wf(),
        ensures
            r.set_view() == self.spec_subscribers(lid),
    {
        match self.subscriptions.get(lid as u64) {
            Some(s) => {
                proof {
                    assert(s.set_view() =~= self.spec_subscribers(lid));
                }
                *s
            },
            None => {
                let s = ClientIDSet::new();
                proof {
                    s.lemma_is_empty_iff();
                    assert(s.set_view() =~= Set::<ClientID>::empty());
                }
                s
            },
        }
    }

    /// Whether `cid` is subscribed to `lid`.
    pub fn is_subscribed(&self, cid: ClientID, lid: LocationID) -> (r: bool)
        requires
            self.wf(),
            cid < CLIENT_ID_CAPACITY,
        ensures
            r == self.spec_subscribers(lid).contains(cid),
    {
        match self.subscriptions.get(lid as u64) {
            Some(s) => s.get(cid),
            None => false,
        }
    }

    /// Take and clear the record of when `lid` was last simulated before its
    /// eviction, as the time elapsed since.
    pub fn consume_time_since_last_sim(&mut self, lid: LocationID, now: u64) -> (r: Option<u64>)
        requires
            old(self).wf(),
        ensures
            final(self).wf(),
            final(self).ls_map() == old(self).ls_map().remove(lid as u64),
            match r {
                Some(dur) => old(self).ls_map().dom().contains(lid as u64) && now >= old(self).ls_map()[lid as u64] && dur == now - old(self).ls_map()[lid as u64],
                None => !old(self).ls_map().dom().contains(lid as u64) || now < old(self).ls_map()[lid as u64],
            },
            final(self).subs_map() == old(self).subs_map(),
            final(self).fg_map() == old(self).fg_map(),
            final(self).bg_map() == old(self).bg_map(),
            final(self).lb_map() == old(self).lb_map(),
            final(self).spec_retention() == old(self).spec_retention(),
    {
        match self.last_simulated.remove(lid as u64) {
            Some(t) => {
                proof {
                    assert(self.fg_map() == old(self).fg_map());
                    assert(self.bg_map() == old(self).bg_map());
                    assert(self.subs_map() == old(self).subs_map());
                    assert(self.lb_map() == old(self).lb_map());
                    assert(self.wf());
                }
                if now >= t {
                    Some(now - t)
                } else {
                    None
                }
            },
            None => {
                proof {
                    assert(old(self).ls_map().remove(lid as u64) =~= old(self).ls_map());
                }
                None
            },
        }
    }

    /// Route one diff to a location, loading it first if needed. Player
    /// actions demand foreground; background delivery is allowed otherwise.
    /// The inner result reports acceptance exactly as the guard does, and a
    /// rejected diff leaves the log untouched.
    pub fn apply_diff_to(
        &mut self,
        lid: LocationID,
        diff: Diff,
        must_be_foreground: bool,
        stored: Option<(LocationPrimitive, Vec<Diff>)>,
        now: u64,
    ) -> (r: Result<Result<(), ()>, LoadError>)
        requires
            old(self).wf(),
        ensures
            final(self).wf(),
            r is Err <==> (old(self).tier_of(lid) == Tier::Unloaded && stored is None && lid
                != START_LOCATION_LID),
            match r {
                Ok(inner) => {
                    let base = if old(self).tier_of(lid) != Tier::Unloaded {
                        old(self).loc_state(lid)
                    } else {
                        loaded_state(stored)
                    };
                    &&& inner is Ok <==> diff_ok(base, diff)
                    &&& final(self).tier_of(lid) != Tier::Unloaded
                    &&& must_be_foreground ==> final(self).tier_of(lid) == Tier::Foreground
                    &&& !must_be_foreground && old(self).tier_of(lid) != Tier::Unloaded ==> final(self).tier_of(lid) == old(self).tier_of(lid)
                    &&& final(self).loc_state(lid) == diff_apply(base, diff)
                    &&& final(self).guard_at(lid).wf()
                    &&& old(self).tier_of(lid) != Tier::Unloaded ==> {
                        &&& final(self).guard_at(lid).spec_loc().spec_prim() == old(self).guard_at(lid).spec_loc().spec_prim()
                        &&& (inner is Ok ==> final(self).guard_at(lid).spec_diffs() == old(self).guard_at(lid).spec_diffs().push(diff))
                        &&& (inner is Err ==> final(self).guard_at(lid).spec_diffs() == old(self).guard_at(lid).spec_diffs())
                    }
                    &&& final(self).subs_map() == old(self).subs_map()
                    &&& final(self).spec_retention() == old(self).spec_retention()
                    &&& forall|l: u64| l != lid as u64 ==> #[trigger] Self::agree_at(
                        *old(self),
                        *final(self),
                        l,
                    )
                },
                Err(e) => {
                    &&& e == LoadError::MissingPrimitive(lid)
                    &&& *final(self) == *old(self)
                },
            },
    {
        let key = lid as u64;
        let in_background: bool;
        if must_be_foreground {
            match self.load_foreground(lid, stored, now) {
                Ok(_) => {
                    in_background = false;
                },
                Err(e) => {
                    return Err(e);
                },
            }
        } else {
            match self.load_at_least_background(lid, stored, now) {
                Ok(b) => {
                    in_background = b;
                },
                Err(e) => {
                    return Err(e);
                },
            }
        }
        let ghost mid = *self;
        let inner: Result<(), ()>;
        if in_background {
            let mut guard = self.background.remove(key).unwrap();
            inner = guard.apply_diff(diff);
            self.background.insert(key, guard);
            proof {
                assert(self.bg_map() =~= mid.bg_map().insert(key, self.bg_map()[key]));
            }
        } else {
            let mut guard = self.foreground.remove(key).unwrap();
            inner = guard.apply_diff(diff);
            self.foreground.insert(key, guard);
            proof {
                assert(self.fg_map() =~= mid.fg_map().insert(key, self.fg_map()[key]));
            }
        }
        proof {
            let pre = *old(self);
            let post = *self;
            assert forall|l: u64|
                !(#[trigger] post.fg_map().dom().contains(l) && post.bg_map().dom().contains(
                l)) by {
                assert(!(mid.fg_map().dom().contains(l) && mid.bg_map().dom().contains(l)));
            }
            assert forall|l: u64| #[trigger] post.fg_map().dom().contains(l) implies
                post.fg_map()[l].wf() && l <= 0xffff_ffffu64 by {
                assert(mid.fg_map().dom().contains(l));
            }
            assert forall|l: u64| #[trigger] post.bg_map().dom().contains(l) implies
                post.bg_map()[l].wf() && l <= 0xffff_ffffu64 && post.lb_map().dom().contains(
                l,
            ) by {
                assert(mid.bg_map().dom().contains(l));
            }
            assert forall|l: u64| #[trigger] post.subs_map().dom().contains(l) implies
                !post.subs_map()[l].spec_is_empty() && post.fg_map().dom().contains(l) by {
                assert(mid.subs_map().dom().contains(l));
            }
            assert forall|l: u64| l != key implies #[trigger] Self::agree_at(pre, post, l) by {
                assert(Self::agree_at(pre, mid, l));
                assert(Self::agree_at(mid, post, l));
            }
        }
        Ok(inner)
    }

    /// A background location whose retention window has fully elapsed since
    /// its demotion.
    pub open spec fn is_overdue(self, l: u64, now: u64) -> bool {
        &&& self.bg_map().dom().contains(l)
        &&& now >= self.lb_map()[l]
        &&& now - self.lb_map()[l] > self.spec_retention()
    }

    /// Evict every overdue background location: each is flushed (its
    /// primitive and diff log are returned for the caller to persist), then
    /// unloaded and stamped as last simulated now. Background locations
    /// never have subscribers, so no watched location is ever evicted.
    pub fn unload_overdue_backgrounds(&mut self, now: u64) -> (r: Vec<
        (LocationID, LocationPrimitive, Vec<Diff>),
    >)
        requires
            old(self).wf(),
        ensures
            final(self).wf(),
            final(self).subs_map() == old(self).subs_map(),
            final(self).fg_map() == old(self).fg_map(),
            final(self).spec_retention() == old(self).spec_retention(),
            forall|l: u64|
                #[trigger] final(self).bg_map().dom().contains(l) <==> (old(self).bg_map().dom().contains(l) && !old(self).is_overdue(l, now)),
            forall|l: u64|
                !old(self).is_overdue(l, now) ==> #[trigger] Self::agree_at(
                    *old(self),
                    *final(self),
                    l,
                ),
            forall|l: u64|
                old(self).is_overdue(l, now) ==> !final(self).bg_map().dom().contains(l)
                    && !(#[trigger] final(self).lb_map().dom().contains(l)) && final(self).ls_map().dom().contains(l) && final(self).ls_map()[l] == now,
            forall|i: int|
                0 <= i < r@.len() ==> {
                    let entry = #[trigger] r@[i];
                    &&& old(self).is_overdue(entry.0 as u64, now)
                    &&& entry.1 == old(self).bg_map()[entry.0 as u64].spec_loc().spec_prim()
                    &&& entry.2@ == old(self).bg_map()[entry.0 as u64].spec_diffs()
                },
            forall|l: u64|
                old(self).is_overdue(l, now) ==> exists|i: int|
                    0 <= i < r@.len() && (#[trigger] r@[i]).0 as u64 == l,
    {
        let keys = self.background.keys_vec();
        let ghost pre = *old(self);
        proof {
            assert(keys@.subrange(0, 0) =~= Seq::<u64>::empty());
            crate::table::lemma_map_of_seq_dom(self.background.seq_view());
            assert forall|j: int|
                0 <= j < keys@.len() implies pre.bg_map().dom().contains(#[trigger] keys@[j]) by {
                assert(keys@[j] == (self.background.seq_view()[j]).0);
            }
        }
        let mut r: Vec<(LocationID, LocationPrimitive, Vec<Diff>)> = Vec::new();
        let n = keys.len();
        let mut i: usize = 0;
        while i < n
            invariant
                pre == *old(self),
                pre.wf(),
                self.wf(),
                n == keys@.len(),
                i <= n,
                self.subs_map() == pre.subs_map(),
                self.fg_map() == pre.fg_map(),
                self.spec_retention() == pre.spec_retention(),
                forall|j: int| 0 <= j < n ==> pre.bg_map().dom().contains(#[trigger] keys@[j]),
                forall|k: u64| keys@.contains(k) <==> pre.bg_map().dom().contains(k),
                forall|a: int, b: int| 0 <= a < b < n ==> keys@[a] != keys@[b],
                forall|l: u64|
                    !keys@.subrange(0, i as int).contains(l) ==> #[trigger] Self::agree_at(
                        pre,
                        *self,
                        l,
                    ),
                forall|j: int|
                    0 <= j < i ==> (if pre.is_overdue(#[trigger] keys@[j], now) {
                        &&& !self.bg_map().dom().contains(keys@[j])
                        &&& !self.lb_map().dom().contains(keys@[j])
                        &&& self.ls_map().dom().contains(keys@[j])
                        &&& self.ls_map()[keys@[j]] == now
                    } else {
                        Self::agree_at(pre, *self, keys@[j])
                    }),
                forall|ii: int|
                    0 <= ii < r@.len() ==> {
                        let entry = #[trigger] r@[ii];
                        &&& pre.is_overdue(entry.0 as u64, now)
                        &&& entry.1 == pre.bg_map()[entry.0 as u64].spec_loc().spec_prim()
                        &&& entry.2@ == pre.bg_map()[entry.0 as u64].spec_diffs()
                    },
                forall|j: int|
                    0 <= j < i && pre.is_overdue(#[trigger] keys@[j], now) ==> exists|ii: int|
                        0 <= ii < r@.len() && (#[trigger] r@[ii]).0 as u64 == keys@[j],
            decreases n - i,
        {
            let k = keys[i];
            proof {
                assert(keys@.subrange(0, i as int).contains(k) ==> false);
                assert(Self::agree_at(pre, *self, k));
                assert(self.bg_map().dom().contains(k));
                assert(self.lb_map().dom().contains(k));
            }
            let last = *self.last_backgrounded.get(k).unwrap();
            if now >= last && now - last > self.background_retention {
                proof {
                    assert(pre.is_overdue(k, now));
                }
                let ghost mid0 = *self;
                let guard = self.background.remove(k).unwrap();
                let (prim, log) = guard.snapshot_and_log();
                let _ = self.last_backgrounded.remove(k);
                self.last_simulated.insert(k, now);
                proof {
                    assert(guard == pre.bg_map()[k]);
                    assert(k <= 0xffff_ffffu64);
                }
                let ghost r_pre = r@;
                r.push((k as LocationID, prim, log));
                proof {
                    let post = *self;
                    assert forall|l: u64| #[trigger] post.bg_map().dom().contains(l) implies
                        post.bg_map()[l].wf() && l <= 0xffff_ffffu64 && post.lb_map().dom().contains(
                        l,
                    ) by {
                        assert(mid0.bg_map().dom().contains(l));
                        assert(l != k);
                    }
                    assert forall|l: u64| #[trigger] post.subs_map().dom().contains(l) implies
                        !post.subs_map()[l].spec_is_empty() && post.fg_map().dom().contains(l) by {
                        assert(mid0.subs_map().dom().contains(l));
                    }
                    assert(keys@.subrange(0, i + 1).contains(k)) by {
                        assert(keys@.subrange(0, i + 1)[i as int] == k);
                    }
                    assert forall|l: u64|
                        !keys@.subrange(0, i + 1).contains(l) implies #[trigger] Self::agree_at(
                            pre,
                            *self,
                            l,
                        ) by {
                        assert(keys@.subrange(0, i + 1)[i as int] == k);
                        assert(!keys@.subrange(0, i as int).contains(l)) by {
                            if keys@.subrange(0, i as int).contains(l) {
                                let jj = choose|jj: int|
                                    0 <= jj < i && keys@.subrange(0, i as int)[jj] == l;
                                assert(keys@.subrange(0, i + 1)[jj] == l);
                            }
                        }
                        assert(l != k);
                        assert(Self::agree_at(pre, mid0, l));
                    }
                    assert forall|j: int|
                        0 <= j < i + 1 implies (if pre.is_overdue(#[trigger] keys@[j], now) {
                        &&& !self.bg_map().dom().contains(keys@[j])
                        &&& !self.lb_map().dom().contains(keys@[j])
                        &&& self.ls_map().dom().contains(keys@[j])
                        &&& self.ls_map()[keys@[j]] == now
                    } else {
                        Self::agree_at(pre, *self, keys@[j])
                    }) by {
                        if j < i {
                            assert(keys@[j] != k);
                            if pre.is_overdue(keys@[j], now) {
                            } else {
                                assert(Self::agree_at(pre, mid0, keys@[j]));
                            }
                        }
                    }
                    assert forall|j: int|
                        0 <= j < i + 1 && pre.is_overdue(#[trigger] keys@[j], now) implies exists|
                            ii: int,
                        | 0 <= ii < r@.len() && (#[trigger] r@[ii]).0 as u64 == keys@[j] by {
                        if j < i {
                            let ii = choose|ii: int|
                                0 <= ii < r_pre.len() && (#[trigger] r_pre[ii]).0 as u64
                                    == keys@[j];
                            assert(r@[ii] == r_pre[ii]);
                            assert((r@[ii]).0 as u64 == keys@[j]);
                        } else {
                            assert((r@[r@.len() - 1]).0 as u64 == k);
                        }
                    }
                }
            } else {
                proof {
                    assert(!pre.is_overdue(k, now));
                    assert forall|l: u64|
                        !keys@.subrange(0, i + 1).contains(l) implies #[trigger] Self::agree_at(
                            pre,
                            *self,
                            l,
                        ) by {
                        assert(!keys@.subrange(0, i as int).contains(l)) by {
                            if keys@.subrange(0, i as int).contains(l) {
                                let jj = choose|jj: int|
                                    0 <= jj < i && keys@.subrange(0, i as int)[jj] == l;
                                assert(keys@.subrange(0, i + 1)[jj] == l);
                            }
                        }
                    }
                    assert forall|j: int|
                        0 <= j < i + 1 && pre.is_overdue(#[trigger] keys@[j], now) implies exists|
                            ii: int,
                        | 0 <= ii < r@.len() && (#[trigger] r@[ii]).0 as u64 == keys@[j] by {
                        assert(j < i);
                    }
                }
            }
            i = i + 1;
        }
        proof {
            let post = *self;
            assert(keys@.subrange(0, n as int) =~= keys@);
            assert forall|l: u64|
                #[trigger] post.bg_map().dom().contains(l) <==> (pre.bg_map().dom().contains(l)
                    && !pre.is_overdue(l, now)) by {
                if pre.bg_map().dom().contains(l) {
                    assert(keys@.contains(l));
                    let j = choose|j: int| 0 <= j < n && keys@[j] == l;
                } else {
                    assert(!keys@.contains(l));
                    assert(Self::agree_at(pre, post, l));
                }
            }
            assert forall|l: u64|
                !pre.is_overdue(l, now) implies #[trigger] Self::agree_at(pre, post, l) by {
                if keys@.contains(l) {
                    let j = choose|j: int| 0 <= j < n && keys@[j] == l;
                } else {
                }
            }
            assert forall|l: u64|
                pre.is_overdue(l, now) implies !post.bg_map().dom().contains(l) && !(
                #[trigger] post.lb_map().dom().contains(l)) && post.ls_map().dom().contains(l)
                    && post.ls_map()[l] == now by {
                assert(keys@.contains(l));
                let j = choose|j: int| 0 <= j < n && keys@[j] == l;
            }
            assert forall|l: u64|
                pre.is_overdue(l, now) implies exists|i: int|
                    0 <= i < r@.len() && (#[trigger] r@[i]).0 as u64 == l by {
                assert(keys@.contains(l));
                let j = choose|j: int| 0 <= j < n && keys@[j] == l;
            }
        }
        r
    }

    /// The entities of a location, loading it to at least background first.
    pub fn entities_in(
        &mut self,
        lid: LocationID,
        stored: Option<(LocationPrimitive, Vec<Diff>)>,
        now: u64,
    ) -> (r: Result<Vec<(EntityID, DPoint2)>, LoadError>)
        requires
            old(self).wf(),
        ensures
            final(self).wf(),
            r is Err <==> (old(self).tier_of(lid) == Tier::Unloaded && stored is None && lid
                != START_LOCATION_LID),
            final(self).subs_map() == old(self).subs_map(),
            final(self).spec_retention() == old(self).spec_retention(),
            old(self).tier_of(lid) != Tier::Unloaded ==> *final(self) == *old(self),
            forall|l: u64| l != lid as u64 ==> #[trigger] Self::agree_at(
                *old(self),
                *final(self),
                l,
            ),
            match r {
                Ok(v) => {
                    &&& final(self).tier_of(lid) != Tier::Unloaded
                    &&& final(self).loc_state(lid) == (if old(self).tier_of(lid)
                        != Tier::Unloaded {
                        old(self).loc_state(lid)
                    } else {
                        loaded_state(stored)
                    })
                },
                Err(e) => {
                    &&& e == LoadError::MissingPrimitive(lid)
                    &&& *final(self) == *old(self)
                },
            },
            r is Ok ==> entities_listing(final(self).loc_state(lid), r.unwrap()@),
    {
        let key = lid as u64;
        match self.load_at_least_background(lid, stored, now) {
            Ok(in_bg) => {
                let guard = if in_bg {
                    self.background.get(key).unwrap()
                } else {
                    self.foreground.get(key).unwrap()
                };
                proof {
                    assert(*guard == self.guard_at(lid));
                    assert(guard.wf());
                    assert(guard.spec_loc().emap() == self.loc_state(lid));
                }
                let v = guard.borrow_location().entities_vec();
                proof {
                    assert(entities_listing(self.loc_state(lid), v@));
                }
                Ok(v)
            },
            Err(e) => Err(e),
        }
    }

    /// A free cell of a location (loading it first), for spawn placement.
    pub fn free_point_in(
        &mut self,
        lid: LocationID,
        stored: Option<(LocationPrimitive, Vec<Diff>)>,
        now: u64,
    ) -> (r: Result<Option<DPoint2>, LoadError>)
        requires
            old(self).wf(),
        ensures
            final(self).wf(),
            r is Err <==> (old(self).tier_of(lid) == Tier::Unloaded && stored is None && lid
                != START_LOCATION_LID),
            final(self).subs_map() == old(self).subs_map(),
            final(self).spec_retention() == old(self).spec_retention(),
            old(self).tier_of(lid) != Tier::Unloaded ==> *final(self) == *old(self),
            forall|l: u64| l != lid as u64 ==> #[trigger] Self::agree_at(
                *old(self),
                *final(self),
                l,
            ),
            match r {
                Ok(found) => {
                    let dims = final(self).guard_at(lid).spec_loc().spec_prim();
                    &&& final(self).tier_of(lid) != Tier::Unloaded
                    &&& final(self).loc_state(lid) == (if old(self).tier_of(lid)
                        != Tier::Unloaded {
                        old(self).loc_state(lid)
                    } else {
                        loaded_state(stored)
                    })
                    &&& old(self).tier_of(lid) == Tier::Unloaded && stored is Some ==> dims
                        == stored.unwrap().0
                    &&& old(self).tier_of(lid) == Tier::Unloaded && stored is None ==> dims
                        == spec_start_location_primitive()
                    &&& (found is Some ==> !crate::location::occupied(
                        final(self).loc_state(lid),
                        found.unwrap().as_pair(),
                    ) && 0 <= found.unwrap().x < dims.cells_wide && 0 <= found.unwrap().y
                        < dims.cells_high)
                    &&& (found is None ==> forall|x: i32, y: i32|
                        0 <= x < dims.cells_wide && 0 <= y < dims.cells_high
                            ==> crate::location::occupied(final(self).loc_state(lid), (x, y)))
                },
                Err(e) => {
                    &&& e == LoadError::MissingPrimitive(lid)
                    &&& *final(self) == *old(self)
                },
            },
    {
        let key = lid as u64;
        match self.load_at_least_background(lid, stored, now) {
            Ok(in_bg) => {
                let guard = if in_bg {
                    self.background.get(key).unwrap()
                } else {
                    self.foreground.get(key).unwrap()
                };
                proof {
                    assert(*guard == self.guard_at(lid));
                    assert(guard.wf());
                    assert(guard.spec_loc().spec_prim() == self.guard_at(
                        lid,
                    ).spec_loc().spec_prim());
                }
                Ok(guard.borrow_location().free_point())
            },
            Err(e) => Err(e),
        }
    }

    /// The primitive of a location, loading it to at least background first.
    pub fn location_primitive_of(
        &mut self,
        lid: LocationID,
        stored: Option<(LocationPrimitive, Vec<Diff>)>,
        now: u64,
    ) -> (r: Result<LocationPrimitive, LoadError>)
        requires
            old(self).wf(),
        ensures
            final(self).wf(),
            r is Err <==> (old(self).tier_of(lid) == Tier::Unloaded && stored is None && lid
                != START_LOCATION_LID),
            final(self).subs_map() == old(self).subs_map(),
            final(self).spec_retention() == old(self).spec_retention(),
            old(self).tier_of(lid) != Tier::Unloaded ==> *final(self) == *old(self),
            forall|l: u64| l != lid as u64 ==> #[trigger] Self::agree_at(
                *old(self),
                *final(self),
                l,
            ),
            match r {
                Ok(p) => {
                    &&& final(self).tier_of(lid) != Tier::Unloaded
                    &&& p == final(self).guard_at(lid).spec_loc().spec_prim()
                    &&& old(self).tier_of(lid) != Tier::Unloaded ==> p == old(self).guard_at(
                        lid,
                    ).spec_loc().spec_prim()
                    &&& old(self).tier_of(lid) == Tier::Unloaded && stored is Some ==> p
                        == stored.unwrap().0
                    &&& old(self).tier_of(lid) == Tier::Unloaded && stored is None ==> p
                        == spec_start_location_primitive()
                },
                Err(e) => {
                    &&& e == LoadError::MissingPrimitive(lid)
                    &&& *final(self) == *old(self)
                },
            },
    {
        let key = lid as u64;
        match self.load_at_least_background(lid, stored, now) {
            Ok(in_bg) => {
                let guard = if in_bg {
                    self.background.get(key).unwrap()
                } else {
                    self.foreground.get(key).unwrap()
                };
                Ok(*guard.get_location_primitive())
            },
            Err(e) => Err(e),
        }
    }

    /// The flush payload of every loaded location: its primitive and full
    /// diff log, enough to reproduce it exactly.
    pub fn save_all_locations(&self) -> (r: Vec<(LocationID, LocationPrimitive, Vec<Diff>)>)
        requires
            self.wf(),
        ensures
            forall|i: int|
                0 <= i < r@.len() ==> {
                    let entry = #[trigger] r@[i];
                    &&& self.tier_of(entry.0) != Tier::Unloaded
                    &&& entry.1 == self.guard_at(entry.0).spec_loc().spec_prim()
                    &&& entry.2@ == self.guard_at(entry.0).spec_diffs()
                },
            forall|lid: LocationID|
                self.tier_of(lid) != Tier::Unloaded ==> exists|i: int|
                    0 <= i < r@.len() && (#[trigger] r@[i]).0 == lid,
    {
        let mut r: Vec<(LocationID, LocationPrimitive, Vec<Diff>)> = Vec::new();
        let nf = self.foreground.len();
        let mut i: usize = 0;
        while i < nf
            invariant
                self.wf(),
                nf == self.foreground.seq_view().len(),
                i <= nf,
                r@.len() == i,
                forall|j: int|
                    0 <= j < i ==> {
                        let entry = #[trigger] r@[j];
                        &&& entry.0 as u64 == self.foreground.seq_view()[j].0
                        &&& self.tier_of(entry.0) != Tier::Unloaded
                        &&& entry.1 == self.guard_at(entry.0).spec_loc().spec_prim()
                        &&& entry.2@ == self.guard_at(entry.0).spec_diffs()
                    },
            decreases nf - i,
        {
            let entry = self.foreground.entry_at(i);
            let (prim, log) = entry.1.snapshot_and_log();
            let lid = entry.0 as LocationID;
            proof {
                assert(self.fg_map().dom().contains(entry.0));
                assert(entry.0 <= 0xffff_ffffu64);
                assert(lid as u64 == entry.0);
            }
            r.push((lid, prim, log));
            i = i + 1;
        }
        let nb = self.background.len();
        let mut k: usize = 0;
        while k < nb
            invariant
                self.wf(),
                nf == self.foreground.seq_view().len(),
                nb == self.background.seq_view().len(),
                k <= nb,
                r@.len() == nf + k,
                forall|j: int|
                    0 <= j < nf ==> (#[trigger] r@[j]).0 as u64 == self.foreground.seq_view()[j].0,
                forall|j: int|
                    nf <= j < nf + k ==> (#[trigger] r@[j]).0 as u64 == self.background.seq_view()[j - nf].0,
                forall|j: int|
                    0 <= j < nf + k ==> {
                        let entry = #[trigger] r@[j];
                        &&& self.tier_of(entry.0) != Tier::Unloaded
                        &&& entry.1 == self.guard_at(entry.0).spec_loc().spec_prim()
                        &&& entry.2@ == self.guard_at(entry.0).spec_diffs()
                    },
            decreases nb - k,
        {
            let entry = self.background.entry_at(k);
            let (prim, log) = entry.1.snapshot_and_log();
            let lid = entry.0 as LocationID;
            proof {
                assert(self.bg_map().dom().contains(entry.0));
                assert(!self.fg_map().dom().contains(entry.0));
                assert(entry.0 <= 0xffff_ffffu64);
                assert(lid as u64 == entry.0);
            }
            r.push((lid, prim, log));
            k = k + 1;
        }
        proof {
            assert forall|lid: LocationID| self.tier_of(lid) != Tier::Unloaded implies exists|
                i: int,
            | 0 <= i < r@.len() && (#[trigger] r@[i]).0 == lid by {
                if self.fg_map().dom().contains(lid as u64) {
                    crate::table::lemma_map_of_seq_dom(self.foreground.seq_view());
                    let j = choose|j: int|
                        0 <= j < self.foreground.seq_view().len() && (
                        #[trigger] self.foreground.seq_view()[j]).0 == lid as u64;
                    assert((r@[j]).0 == lid);
                } else {
                    crate::table::lemma_map_of_seq_dom(self.background.seq_view());
                    let j = choose|j: int|
                        0 <= j < self.background.seq_view().len() && (
                        #[trigger] self.background.seq_view()[j]).0 == lid as u64;
                    assert((r@[nf + j]).0 == lid);
                }
            }
        }
        r
    }
}



/// A watched location is always foreground: whoever holds a subscriber set
/// for a location can rely on it being simulated.
pub proof fn lemma_subscribed_implies_foreground(
    loader: LocationLoader,
    lid: LocationID,
    cid: ClientID,
)
    requires
        loader.wf(),
        loader.spec_subscribers(lid).contains(cid),
    ensures
        loader.tier_of(lid) == Tier::Foreground,
{
    assert(loader.subs_map().dom().contains(lid as u64));
}

} // verus!
