//! The location guard: one location together with the diff log accumulated
//! since its primitive was generated. The guard's invariant is the
//! persistence invariant: replaying the log over a fresh generation of the
//! primitive reproduces the live state, at all times.

use vstd::prelude::*;
use crate::location::{
    diff_apply, diff_ok, spec_start_location_primitive, start_location_primitive, Location,
    LocationPrimitive, START_LOCATION_LID,
};
use crate::identity::LocationID;
use crate::messaging::Diff;

verus! {

/// Failure to produce a location: a non-start location had no stored
/// primitive, which is a data-integrity fault, never papered over.
#[derive(Copy, Clone, Debug, PartialEq, Eq, Structural)]
pub enum LoadError {
    MissingPrimitive(LocationID),
}

/// The state reached by offering `diffs` in order to a location in state
/// `m`; a diff that is not accepted at its turn leaves the state unchanged.
pub open spec fn replay(m: Map<u64, (i32, i32)>, diffs: Seq<Diff>) -> Map<u64, (i32, i32)>
    decreases diffs.len(),
{
    if diffs.len() == 0 {
        m
    } else {
        diff_apply(replay(m, diffs.drop_last()), diffs.last())
    }
}

/// A location and its append-only diff log.
pub struct LocationGuard {
    loc: Location,
    diffs: Vec<Diff>,
}

impl LocationGuard {
    pub closed spec fn spec_loc(self) -> Location {
        self.loc
    }

    pub closed spec fn spec_diffs(self) -> Seq<Diff> {
        self.diffs@
    }

    /// The persistence invariant: the live state is well formed and equals
    /// the replay of the log over the primitive's fresh (empty) generation.
    pub open spec fn wf(self) -> bool {
        self.spec_loc().wf() && self.spec_loc().emap() == replay(
            Map::<u64, (i32, i32)>::empty(),
            self.spec_diffs(),
        )
    }

    /// A guard over a freshly generated location, with an empty log.
    pub fn new_generated(prim: LocationPrimitive) -> (r: LocationGuard)
        ensures
            r.wf(),
            r.spec_loc().spec_prim() == prim,
            r.spec_diffs() == Seq::<Diff>::empty(),
            r.spec_loc().emap() == Map::<u64, (i32, i32)>::empty(),
    {
        LocationGuard { loc: Location::generate_new(prim), diffs: Vec::new() }
    }

    pub fn borrow_location(&self) -> (r: &Location)
        ensures
            *r == self.spec_loc(),
    {
        &self.loc
    }

    pub fn get_location_primitive(&self) -> (r: &LocationPrimitive)
        ensures
            *r == self.spec_loc().spec_prim(),
    {
        self.loc.get_location_primitive()
    }

    /// Offer a diff to the live state; append it to the log exactly when it
    /// is accepted. A rejected diff leaves both the state and the log
    /// untouched.
    pub fn apply_diff(&mut self, diff: Diff) -> (r: Result<(), ()>)
        requires
            old(self).wf(),
        ensures
            final(self).wf(),
            final(self).spec_loc().spec_prim() == old(self).spec_loc().spec_prim(),
            r is Ok <==> diff_ok(old(self).spec_loc().emap(), diff),
            final(self).spec_loc().emap() == diff_apply(old(self).spec_loc().emap(), diff),
            r is Ok ==> final(self).spec_diffs() == old(self).spec_diffs().push(diff),
            r is Err ==> *final(self) == *old(self),
    {
        let ghost pre = *self;
        if self.loc.apply_diff(diff).is_ok() {
            self.diffs.push(diff);
            proof {
                assert(self.diffs@.drop_last() =~= pre.diffs@);
            }
            Ok(())
        } else {
            proof {
                assert(self.loc == pre.loc);
            }
            Err(())
        }
    }

    /// Everything needed to persist this location and later reproduce it
    /// exactly: its primitive and the full diff log.
    pub fn snapshot_and_log(&self) -> (r: (LocationPrimitive, Vec<Diff>))
        ensures
            r.0 == self.spec_loc().spec_prim(),
            r.1@ == self.spec_diffs(),
    {
        let prim = *self.loc.get_location_primitive();
        let n = self.diffs.len();
        let mut log: Vec<Diff> = Vec::new();
        let mut i: usize = 0;
        while i < n
            invariant
                n == self.diffs@.len(),
                i <= n,
                log@ =~= self.diffs@.subrange(0, i as int),
            decreases n - i,
        {
            log.push(self.diffs[i]);
            proof {
                assert(log@ =~= self.diffs@.subrange(0, i + 1));
            }
            i = i + 1;
        }
        proof {
            assert(log@ =~= self.diffs@);
        }
        (prim, log)
    }

    /// Rebuild a guard from storage: regenerate the location from its stored
    /// primitive and replay the stored log in order. With nothing stored,
    /// only the designated start location may be synthesized fresh; any
    /// other missing primitive is a fatal inconsistency.
    pub fn load_from(lid: LocationID, stored: Option<(LocationPrimitive, Vec<Diff>)>) -> (r:
        Result<LocationGuard, LoadError>)
        ensures
            match stored {
                Some(pd) => r is Ok && {
                    let g = r.unwrap();
                    &&& g.wf()
                    &&& g.spec_loc().spec_prim() == pd.0
                    &&& g.spec_loc().emap() == replay(Map::<u64, (i32, i32)>::empty(), pd.1@)
                },
                None => if lid == START_LOCATION_LID {
                    r is Ok && {
                        let g = r.unwrap();
                        &&& g.wf()
                        &&& g.spec_loc().spec_prim() == spec_start_location_primitive()
                        &&& g.spec_diffs() == Seq::<Diff>::empty()
                    }
                } else {
                    r == Result::<LocationGuard, LoadError>::Err(LoadError::MissingPrimitive(lid))
                },
            },
    {
        match stored {
            Some((prim, diffs)) => {
                let mut guard = LocationGuard { loc: Location::generate_new(prim), diffs: Vec::new() };
                let n = diffs.len();
                let mut i: usize = 0;
                while i < n
                    invariant
                        n == diffs@.len(),
                        i <= n,
                        guard.wf(),
                        guard.spec_loc().spec_prim() == prim,
                        guard.spec_loc().emap() == replay(
                            Map::<u64, (i32, i32)>::empty(),
                            diffs@.subrange(0, i as int),
                        ),
                    decreases n - i,
                {
                    let ghost pre_map = guard.spec_loc().emap();
                    let _ = guard.apply_diff(diffs[i]);
                    proof {
                        assert(diffs@.subrange(0, i + 1).drop_last() =~= diffs@.subrange(
                            0,
                            i as int,
                        ));
                        assert(diffs@.subrange(0, i + 1).last() == diffs@[i as int]);
                    }
                    i = i + 1;
                }
                proof {
                    assert(diffs@.subrange(0, n as int) =~= diffs@);
                }
                Ok(guard)
            },
            None => {
                if lid == START_LOCATION_LID {
                    Ok(LocationGuard::new_generated(start_location_primitive()))
                } else {
                    Err(LoadError::MissingPrimitive(lid))
                }
            },
        }
    }
}

/// Replay equivalence: for any well-formed guard, generating its primitive
/// afresh and applying its full diff log in order yields a state
/// observationally equal (same entity positions) to the live state.
pub proof fn lemma_replay_equivalence(g: LocationGuard)
    requires
        g.wf(),
    ensures
        replay(Map::<u64, (i32, i32)>::empty(), g.spec_diffs()) == g.spec_loc().emap(),
{
}

} // verus!
