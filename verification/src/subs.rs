//! The standalone subscription manager: which peers are interested in which
//! location. Subscriptions are the sole gate on broadcast fan-out — a diff
//! is sent to a location's current subscriber set and to nobody else.

use vstd::prelude::*;
use crate::identity::{ClientID, ClientIDSet, LocationID, CLIENT_ID_CAPACITY};
use crate::table::Table;

verus! {

/// Maps each location to its set of interested clients; only non-empty sets
/// are kept.
pub struct SubscriptionManager {
    subs: Table<ClientIDSet>,
}

impl SubscriptionManager {
    pub closed spec fn subs_map(self) -> Map<u64, ClientIDSet> {
        self.subs.as_map()
    }

    /// The clients subscribed to `lid` (empty if none).
    pub open spec fn spec_subs_for(self, lid: LocationID) -> Set<ClientID> {
        if self.subs_map().dom().contains(lid as u64) {
            self.subs_map()[lid as u64].set_view()
        } else {
            Set::empty()
        }
    }

    /// Only non-empty sets are stored.
    pub open spec fn wf(self) -> bool {
        forall|l: u64|
            #[trigger] self.subs_map().dom().contains(l) ==> !self.subs_map()[l].spec_is_empty()
    }

    pub fn new() -> (r: SubscriptionManager)
        ensures
            r.wf(),
            forall|lid: LocationID| r.spec_subs_for(lid) == Set::<ClientID>::empty(),
    {
        SubscriptionManager { subs: Table::new() }
    }

    /// Add `cid` to `lid`'s subscriber set.
    pub fn subscribe(&mut self, lid: LocationID, cid: ClientID)
        requires
            old(self).wf(),
            cid < CLIENT_ID_CAPACITY,
        ensures
            final(self).wf(),
            final(self).spec_subs_for(lid) == old(self).spec_subs_for(lid).insert(cid),
            forall|l: LocationID|
                l != lid ==> #[trigger] final(self).spec_subs_for(l) == old(self).spec_subs_for(l),
    {
        let key = lid as u64;
        let existing = match self.subs.get(key) {
            Some(s) => Some(*s),
            None => None,
        };
        match existing {
            Some(mut s) => {
                s.set(cid, true);
                proof {
                    s.lemma_is_empty_iff();
                }
                self.subs.insert(key, s);
                proof {
                    assert forall|l: u64| #[trigger] self.subs_map().dom().contains(l) implies
                        !self.subs_map()[l].spec_is_empty() by {
                        if l != key {
                            assert(old(self).subs_map().dom().contains(l));
                        }
                    }
                    assert(self.spec_subs_for(lid) =~= old(self).spec_subs_for(lid).insert(cid));
                }
            },
            None => {
                let s = ClientIDSet::new_just_one(cid);
                self.subs.insert(key, s);
                proof {
                    assert forall|l: u64| #[trigger] self.subs_map().dom().contains(l) implies
                        !self.subs_map()[l].spec_is_empty() by {
                        if l != key {
                            assert(old(self).subs_map().dom().contains(l));
                        }
                    }
                    assert(old(self).spec_subs_for(lid) =~= Set::<ClientID>::empty());
                    assert(self.spec_subs_for(lid) =~= old(self).spec_subs_for(lid).insert(cid));
                }
            },
        }
    }

    /// Drop `cid` from `lid`'s subscriber set; the set is discarded when it
    /// empties.
    pub fn unsubscribe(&mut self, lid: LocationID, cid: ClientID)
        requires
            old(self).wf(),
            cid < CLIENT_ID_CAPACITY,
        ensures
            final(self).wf(),
            final(self).spec_subs_for(lid) == old(self).spec_subs_for(lid).remove(cid),
            forall|l: LocationID|
                l != lid ==> #[trigger] final(self).spec_subs_for(l) == old(self).spec_subs_for(l),
    {
        let key = lid as u64;
        let existing = match self.subs.get(key) {
            Some(s) => Some(*s),
            None => None,
        };
        match existing {
            Some(mut s) => {
                s.set(cid, false);
                if s.is_empty() {
                    proof {
                        s.lemma_is_empty_iff();
                    }
                    let _ = self.subs.remove(key);
                    proof {
                        assert forall|l: u64| #[trigger] self.subs_map().dom().contains(l) implies
                            !self.subs_map()[l].spec_is_empty() by {
                            assert(old(self).subs_map().dom().contains(l));
                        }
                        assert(self.spec_subs_for(lid) =~= old(self).spec_subs_for(lid).remove(
                            cid,
                        ));
                    }
                } else {
                    self.subs.insert(key, s);
                    proof {
                        s.lemma_is_empty_iff();
                        assert forall|l: u64| #[trigger] self.subs_map().dom().contains(l) implies
                            !self.subs_map()[l].spec_is_empty() by {
                            if l != key {
                                assert(old(self).subs_map().dom().contains(l));
                            }
                        }
                        assert(self.spec_subs_for(lid) =~= old(self).spec_subs_for(lid).remove(
                            cid,
                        ));
                    }
                }
            },
            None => {
                proof {
                    assert(self.spec_subs_for(lid) =~= old(self).spec_subs_for(lid).remove(cid));
                }
            },
        }
    }

    /// An iterator over the subscribers of `lid`.
    pub fn iter_subs_for(&self, lid: LocationID) -> (r: crate::identity::ClientIDSetIntoIterator)
        requires
            self.wf(),
        ensures
            r.bit_set.set_view() == self.spec_subs_for(lid),
            r.pos_mode == true,
            r.index == 0,
    {
        let s = self.get_subs_for(lid);
        s.iter_set_pos()
    }

    /// The subscriber set of `lid`, empty if nobody subscribed.
    pub fn get_subs_for(&self, lid: LocationID) -> (r: ClientIDSet)
        requires
            self.wf(),
        ensures
            r.set_view() == self.spec_subs_for(lid),
    {
        match self.subs.get(lid as u64) {
            Some(s) => {
                proof {
                    assert(s.set_view() =~= self.spec_subs_for(lid));
                }
                *s
            },
            None => {
                let s = ClientIDSet::new();
                proof {
                    assert(s.set_view() =~= Set::<ClientID>::empty());
                }
                s
            },
        }
    }
}

} // verus!
