//! The diffable entity at the heart of the cache: a location, whose state is
//! an entity↔position bijection regenerated from a small primitive and
//! mutated only through `Diff`s. The bijection invariant (`wf`) and the
//! exact acceptance/effect semantics of each diff are stated here.

use vstd::prelude::*;
use bidir_map::BidirMap;
use crate::entity_map::{
    bm_get_by_first, bm_get_by_second, bm_insert_fresh, bm_new, bm_pairs, bm_pairs_vec,
    bm_remove_by_first, has_first, has_second, swap_remove_seq,
};
use crate::identity::{EntityID, LocationID, SuperSeed, WorldID, ZoneID};
use crate::messaging::Diff;
use crate::points::DPoint2;
use crate::table::{
    distinct_keys, lemma_map_of_seq_dom, lemma_map_of_seq_ext, lemma_map_of_seq_get,
    lemma_map_of_seq_remove, map_of_seq,
};

verus! {

/// The designated start location: the one location that may be synthesized
/// fresh when no stored primitive exists.
pub const START_LOCATION_LID: LocationID = 0;

/// Seed data from which a full location is regenerated deterministically:
/// owning world, zone, grid size, cell scale (thousandths of a meter per
/// cell) and the terrain generation seed.
#[derive(Copy, Clone, Debug, PartialEq, Eq, Structural)]
pub struct LocationPrimitive {
    pub wid: WorldID,
    pub zone_id: ZoneID,
    pub cells_wide: u16,
    pub cells_high: u16,
    pub cell_to_milli: u32,
    pub super_seed: SuperSeed,
}

impl LocationPrimitive {
    pub fn new(
        wid: WorldID,
        zone_id: ZoneID,
        cells_wide: u16,
        cells_high: u16,
        cell_to_milli: u32,
        super_seed: SuperSeed,
    ) -> (r: LocationPrimitive)
        ensures
            r == (LocationPrimitive { wid, zone_id, cells_wide, cells_high, cell_to_milli, super_seed }),
    {
        LocationPrimitive { wid, zone_id, cells_wide, cells_high, cell_to_milli, super_seed }
    }
}

/// The hard-coded primitive of the start location: a 50×50 grid at a fixed
/// one-meter cell scale, seeded with the start location's id.
pub open spec fn spec_start_location_primitive() -> LocationPrimitive {
    LocationPrimitive {
        wid: 0,
        zone_id: 0,
        cells_wide: 50,
        cells_high: 50,
        cell_to_milli: 1000,
        super_seed: START_LOCATION_LID as SuperSeed,
    }
}

pub fn start_location_primitive() -> (r: LocationPrimitive)
    ensures
        r == spec_start_location_primitive(),
{
    LocationPrimitive {
        wid: 0,
        zone_id: 0,
        cells_wide: 50,
        cells_high: 50,
        cell_to_milli: 1000,
        super_seed: 0,
    }
}

/// No two entries place an entity twice or occupy one cell twice.
pub open spec fn distinct_seconds(s: Seq<(u64, (i32, i32))>) -> bool {
    forall|i: int, j: int| 0 <= i < j < s.len() ==> (#[trigger] s[i]).1 != (#[trigger] s[j]).1
}

/// Some entity stands at `p`.
pub open spec fn occupied(m: Map<u64, (i32, i32)>, p: (i32, i32)) -> bool {
    exists|e: u64| #[trigger] m.dom().contains(e) && m[e] == p
}

/// Whether a location in state `m` accepts `d`: a move needs the entity
/// present and the target cell free (moving in place is rejected, so an
/// accepted diff always changes the state); a placement needs the entity
/// absent and the cell free.
pub open spec fn diff_ok(m: Map<u64, (i32, i32)>, d: Diff) -> bool {
    match d {
        Diff::MoveEntityTo(eid, pt) => m.dom().contains(eid) && !occupied(m, pt.as_pair()),
        Diff::PlaceInside(eid, pt) => !m.dom().contains(eid) && !occupied(m, pt.as_pair()),
    }
}

/// The state after offering `d` to a location in state `m`: the entity
/// stands at the target if the diff is accepted; nothing changes otherwise.
pub open spec fn diff_apply(m: Map<u64, (i32, i32)>, d: Diff) -> Map<u64, (i32, i32)> {
    if diff_ok(m, d) {
        match d {
            Diff::MoveEntityTo(eid, pt) => m.insert(eid, pt.as_pair()),
            Diff::PlaceInside(eid, pt) => m.insert(eid, pt.as_pair()),
        }
    } else {
        m
    }
}

/// A location: its primitive and the entities standing on its grid.
pub struct Location {
    prim: LocationPrimitive,
    entities: BidirMap<u64, (i32, i32)>,
}

impl Location {
    /// The entity store's entries.
    pub closed spec fn pairs(self) -> Seq<(u64, (i32, i32))> {
        bm_pairs(self.entities)
    }

    /// The location's observable state: which entity stands where.
    pub open spec fn emap(self) -> Map<u64, (i32, i32)> {
        map_of_seq(self.pairs())
    }

    pub closed spec fn spec_prim(self) -> LocationPrimitive {
        self.prim
    }

    /// The bijection invariant: no entity is listed twice, no cell holds two
    /// entities.
    pub open spec fn wf(self) -> bool {
        distinct_keys(self.pairs()) && distinct_seconds(self.pairs())
    }

    /// Generation from a primitive is deterministic and starts with no
    /// entities.
    pub fn generate_new(prim: LocationPrimitive) -> (r: Location)
        ensures
            r.spec_prim() == prim,
            r.emap() == Map::<u64, (i32, i32)>::empty(),
            r.pairs() == Seq::<(u64, (i32, i32))>::empty(),
            r.wf(),
    {
        Location { prim, entities: bm_new() }
    }

    pub fn get_location_primitive(&self) -> (r: &LocationPrimitive)
        ensures
            *r == self.spec_prim(),
    {
        &self.prim
    }

    pub fn cells_wide(&self) -> (r: u16)
        ensures
            r == self.spec_prim().cells_wide,
    {
        self.prim.cells_wide
    }

    pub fn cells_high(&self) -> (r: u16)
        ensures
            r == self.spec_prim().cells_high,
    {
        self.prim.cells_high
    }

    /// Under `wf`, the entry list and the observable map agree.
    proof fn lemma_pairs_emap(self)
        requires
            self.wf(),
        ensures
            forall|e: u64| self.emap().dom().contains(e) <==> has_first(self.pairs(), e),
            forall|i: int|
                0 <= i < self.pairs().len() ==> self.emap().dom().contains(
                    (#[trigger] self.pairs()[i]).0,
                ) && self.emap()[self.pairs()[i].0] == self.pairs()[i].1,
    {
        lemma_map_of_seq_dom(self.pairs());
        assert forall|i: int| 0 <= i < self.pairs().len() implies self.emap().dom().contains(
            (#[trigger] self.pairs()[i]).0,
        ) && self.emap()[self.pairs()[i].0] == self.pairs()[i].1 by {
            lemma_map_of_seq_get(self.pairs(), i);
        }
    }

    /// Under `wf`, a cell is occupied exactly when some entry's position is
    /// that cell.
    proof fn lemma_occupied_has_second(self, p: (i32, i32))
        requires
            self.wf(),
        ensures
            occupied(self.emap(), p) <==> has_second(self.pairs(), p),
    {
        self.lemma_pairs_emap();
        if occupied(self.emap(), p) {
            let e = choose|e: u64| #[trigger] self.emap().dom().contains(e) && self.emap()[e] == p;
            lemma_map_of_seq_dom(self.pairs());
            let i = choose|i: int| 0 <= i < self.pairs().len() && (#[trigger] self.pairs()[i]).0 == e;
            lemma_map_of_seq_get(self.pairs(), i);
            assert((self.pairs()[i]).1 == p);
        }
        if has_second(self.pairs(), p) {
            let i = choose|i: int| 0 <= i < self.pairs().len() && (#[trigger] self.pairs()[i]).1 == p;
            lemma_map_of_seq_get(self.pairs(), i);
        }
    }

    /// Where `eid` stands, if it is in this location.
    pub fn point_of(&self, eid: EntityID) -> (r: Option<DPoint2>)
        requires
            self.wf(),
        ensures
            match r {
                Some(p) => self.emap().dom().contains(eid) && self.emap()[eid] == p.as_pair(),
                None => !self.emap().dom().contains(eid),
            },
    {
        proof {
            self.lemma_pairs_emap();
        }
        match bm_get_by_first(&self.entities, eid) {
            Some(p) => {
                proof {
                    let i = choose|i: int|
                        0 <= i < self.pairs().len() && #[trigger] self.pairs()[i] == (eid, p);
                    lemma_map_of_seq_get(self.pairs(), i);
                }
                Some(DPoint2::from_pair(p))
            },
            None => None,
        }
    }

    /// The entity standing at `pt`, if any.
    fn entity_at(&self, pt: DPoint2) -> (r: Option<EntityID>)
        requires
            self.wf(),
        ensures
            match r {
                Some(e) => self.emap().dom().contains(e) && self.emap()[e] == pt.as_pair(),
                None => !occupied(self.emap(), pt.as_pair()),
            },
    {
        proof {
            self.lemma_occupied_has_second(pt.as_pair());
        }
        match bm_get_by_second(&self.entities, pt.to_pair()) {
            Some(e) => {
                proof {
                    let i = choose|i: int|
                        0 <= i < self.pairs().len() && #[trigger] self.pairs()[i] == (
                        e,
                        pt.as_pair(),
                        );
                    lemma_map_of_seq_get(self.pairs(), i);
                }
                Some(e)
            },
            None => None,
        }
    }

    /// Whether `pt` is free for placement: no entity stands there.
    pub fn point_is_free(&self, pt: DPoint2) -> (r: bool)
        requires
            self.wf(),
        ensures
            r <==> !occupied(self.emap(), pt.as_pair()),
    {
        self.entity_at(pt).is_none()
    }

    /// Scan the grid for a free cell, column by column then cell by cell,
    /// returning the first free one in that scan order.
    pub fn free_point(&self) -> (r: Option<DPoint2>)
        requires
            self.wf(),
        ensures
            match r {
                Some(p) => {
                    &&& !occupied(self.emap(), p.as_pair())
                    &&& 0 <= p.x < self.spec_prim().cells_wide
                    &&& 0 <= p.y < self.spec_prim().cells_high
                    &&& forall|x: i32, y: i32|
                        0 <= x < self.spec_prim().cells_wide && 0 <= y
                            < self.spec_prim().cells_high && (x < p.x || (x == p.x && y < p.y))
                            ==> occupied(self.emap(), (x, y))
                },
                None => forall|x: i32, y: i32|
                    0 <= x < self.spec_prim().cells_wide && 0 <= y < self.spec_prim().cells_high
                        ==> occupied(self.emap(), (x, y)),
            },
    {
        let w = self.prim.cells_wide as i32;
        let h = self.prim.cells_high as i32;
        let mut i: i32 = 0;
        while i < w
            invariant
                0 <= i <= w,
                w == self.spec_prim().cells_wide,
                h == self.spec_prim().cells_high,
                self.wf(),
                forall|x: i32, y: i32| 0 <= x < i && 0 <= y < h ==> occupied(self.emap(), (x, y)),
            decreases w - i,
        {
            let mut j: i32 = 0;
            while j < h
                invariant
                    0 <= i < w,
                    0 <= j <= h,
                    w == self.spec_prim().cells_wide,
                    h == self.spec_prim().cells_high,
                    self.wf(),
                    forall|x: i32, y: i32|
                        0 <= x < i && 0 <= y < h ==> occupied(self.emap(), (x, y)),
                    forall|y: i32| 0 <= y < j ==> occupied(self.emap(), (i, y)),
                decreases h - j,
            {
                let p = DPoint2::new(i, j);
                if self.point_is_free(p) {
                    return Some(p);
                }
                j = j + 1;
            }
            i = i + 1;
        }
        None
    }

    /// Offer one diff to the live state. Accepted exactly when `diff_ok`
    /// holds of the current state; on rejection the state is untouched.
    pub fn apply_diff(&mut self, diff: Diff) -> (r: Result<(), ()>)
        requires
            old(self).wf(),
        ensures
            final(self).wf(),
            final(self).spec_prim() == old(self).spec_prim(),
            r is Ok <==> diff_ok(old(self).emap(), diff),
            final(self).emap() == diff_apply(old(self).emap(), diff),
            r is Err ==> *final(self) == *old(self),
    {
        match diff {
            Diff::MoveEntityTo(eid, pt) => {
                if self.entity_at(pt).is_some() {
                    return Err(());
                }
                if self.point_of(eid).is_none() {
                    return Err(());
                }
                let ghost s = self.pairs();
                let ghost m = self.emap();
                proof {
                    self.lemma_pairs_emap();
                    lemma_map_of_seq_dom(s);
                    self.lemma_occupied_has_second(pt.as_pair());
                }
                let removed = bm_remove_by_first(&mut self.entities, eid);
                proof {
                    assert(removed is Some);
                    let i = choose|i: int|
                        0 <= i < s.len() && #[trigger] s[i] == removed.unwrap() && bm_pairs(
                            self.entities,
                        ) == swap_remove_seq(s, i);
                    lemma_swap_remove_shape(s, i);
                    lemma_map_of_seq_remove(s, i);
                    lemma_map_of_seq_ext(swap_remove_seq(s, i), s.remove(i));
                    assert(self.emap() == m.remove(eid));
                    assert(!has_first(self.pairs(), eid)) by {
                        if has_first(self.pairs(), eid) {
                            let j = choose|j: int|
                                0 <= j < self.pairs().len() && (#[trigger] self.pairs()[j]).0
                                    == eid;
                        }
                    }
                    assert(!has_second(self.pairs(), pt.as_pair())) by {
                        if has_second(self.pairs(), pt.as_pair()) {
                            let j = choose|j: int|
                                0 <= j < self.pairs().len() && (#[trigger] self.pairs()[j]).1
                                    == pt.as_pair();
                            assert(s.contains(self.pairs()[j]));
                            let jj = choose|jj: int|
                                0 <= jj < s.len() && #[trigger] s[jj] == self.pairs()[j];
                            assert(has_second(s, pt.as_pair()));
                        }
                    }
                }
                let ghost t = self.pairs();
                bm_insert_fresh(&mut self.entities, eid, pt.to_pair());
                proof {
                    assert(self.pairs().drop_last() =~= t);
                    assert(self.emap() == map_of_seq(t).insert(eid, pt.as_pair()));
                    assert(self.emap() =~= m.insert(eid, pt.as_pair()));
                    lemma_distinct_after_push(t, eid, pt.as_pair());
                }
                Ok(())
            },
            Diff::PlaceInside(eid, pt) => {
                if self.point_of(eid).is_some() {
                    return Err(());
                }
                if self.entity_at(pt).is_some() {
                    return Err(());
                }
                let ghost s = self.pairs();
                let ghost m = self.emap();
                proof {
                    self.lemma_pairs_emap();
                    lemma_map_of_seq_dom(s);
                    self.lemma_occupied_has_second(pt.as_pair());
                    assert(!has_first(s, eid)) by {
                        if has_first(s, eid) {
                            let j = choose|j: int|
                                0 <= j < s.len() && (#[trigger] s[j]).0 == eid;
                        }
                    }
                }
                bm_insert_fresh(&mut self.entities, eid, pt.to_pair());
                proof {
                    assert(self.pairs().drop_last() =~= s);
                    assert(self.emap() == m.insert(eid, pt.as_pair()));
                    lemma_distinct_after_push(s, eid, pt.as_pair());
                }
                Ok(())
            },
        }
    }

    /// The entities standing in this location, with their positions.
    pub fn entities_vec(&self) -> (r: Vec<(EntityID, DPoint2)>)
        requires
            self.wf(),
        ensures
            r@.len() == self.pairs().len(),
            forall|i: int|
                0 <= i < r@.len() ==> self.emap().dom().contains((#[trigger] r@[i]).0)
                    && self.emap()[r@[i].0] == r@[i].1.as_pair(),
            forall|e: u64|
                self.emap().dom().contains(e) ==> exists|i: int|
                    0 <= i < r@.len() && (#[trigger] r@[i]).0 == e,
    {
        proof {
            self.lemma_pairs_emap();
            lemma_map_of_seq_dom(self.pairs());
        }
        let raw = bm_pairs_vec(&self.entities);
        let n = raw.len();
        let mut r: Vec<(EntityID, DPoint2)> = Vec::new();
        let mut i: usize = 0;
        while i < n
            invariant
                n == raw@.len(),
                raw@ == self.pairs(),
                i <= n,
                r@.len() == i,
                forall|j: int|
                    0 <= j < i ==> (#[trigger] r@[j]).0 == raw@[j].0 && r@[j].1.as_pair()
                        == raw@[j].1,
            decreases n - i,
        {
            let (e, p) = raw[i];
            r.push((e, DPoint2::from_pair(p)));
            i = i + 1;
        }
        proof {
            assert forall|e: u64| self.emap().dom().contains(e) implies exists|i: int|
                0 <= i < r@.len() && (#[trigger] r@[i]).0 == e by {
                let j = choose|j: int|
                    0 <= j < self.pairs().len() && (#[trigger] self.pairs()[j]).0 == e;
                assert(r@[j].0 == e);
            }
        }
        r
    }
}

/// Bijection invariant: in a well-formed location no two entities share a
/// cell and no entity stands twice — the entity↔position relation is a
/// bijection. Every constructor establishes `wf` and `apply_diff` preserves
/// it, so this holds after any sequence of accepted diffs.
pub proof fn lemma_bijection(loc: Location)
    requires
        loc.wf(),
    ensures
        forall|e1: u64, e2: u64|
            #[trigger] loc.emap().dom().contains(e1) && #[trigger] loc.emap().dom().contains(e2)
                && e1 != e2 ==> loc.emap()[e1] != loc.emap()[e2],
{
    lemma_map_of_seq_dom(loc.pairs());
    assert forall|e1: u64, e2: u64|
        #[trigger] loc.emap().dom().contains(e1) && #[trigger] loc.emap().dom().contains(e2) && e1
            != e2 implies loc.emap()[e1] != loc.emap()[e2] by {
        let i = choose|i: int| 0 <= i < loc.pairs().len() && (#[trigger] loc.pairs()[i]).0 == e1;
        let j = choose|j: int| 0 <= j < loc.pairs().len() && (#[trigger] loc.pairs()[j]).0 == e2;
        lemma_map_of_seq_get(loc.pairs(), i);
        lemma_map_of_seq_get(loc.pairs(), j);
        assert(i != j);
        assert((loc.pairs()[i]).1 != (loc.pairs()[j]).1);
    }
}

/// Swap-removal keeps every other entry and drops exactly the one at `i`;
/// it preserves both distinctness properties and, against an entry list
/// with distinct keys, denotes the same map as order-preserving removal.
proof fn lemma_swap_remove_shape(s: Seq<(u64, (i32, i32))>, i: int)
    requires
        0 <= i < s.len(),
        distinct_keys(s),
        distinct_seconds(s),
    ensures
        swap_remove_seq(s, i).len() == s.len() - 1,
        distinct_keys(swap_remove_seq(s, i)),
        distinct_seconds(swap_remove_seq(s, i)),
        forall|p: (u64, (i32, i32))|
            swap_remove_seq(s, i).contains(p) <==> s.remove(i).contains(p),
        forall|j: int|
            0 <= j < s.len() - 1 ==> #[trigger] swap_remove_seq(s, i)[j] == (if j == i {
                s[s.len() - 1]
            } else {
                s[j]
            }),
{
    let t = swap_remove_seq(s, i);
    s.remove_ensures(i);
    assert(forall|j: int|
        0 <= j < s.len() - 1 ==> #[trigger] t[j] == (if j == i {
            s[s.len() - 1]
        } else {
            s[j]
        }));
    assert forall|p: (u64, (i32, i32))| t.contains(p) implies s.remove(i).contains(p) by {
        let j = choose|j: int| 0 <= j < t.len() && t[j] == p;
        if j < i {
            assert(s.remove(i)[j] == s[j]);
            assert(s.remove(i).contains(p));
        } else if j == i {
            assert(t[j] == s[s.len() - 1]);
            assert(s.remove(i)[s.len() - 2] == s[s.len() - 1]);
            assert(s.remove(i).contains(p));
        } else {
            assert(t[j] == s[j]);
            assert(s.remove(i)[j - 1] == s[j]);
            assert(s.remove(i).contains(p));
        }
    }
    assert forall|p: (u64, (i32, i32))| s.remove(i).contains(p) implies t.contains(p) by {
        let j = choose|j: int| 0 <= j < s.remove(i).len() && s.remove(i)[j] == p;
        if j < i {
            assert(s.remove(i)[j] == s[j]);
            assert(t[j] == s[j]);
            assert(t.contains(p));
        } else {
            assert(s.remove(i)[j] == s[j + 1]);
            if j + 1 == s.len() - 1 {
                assert(i < s.len() - 1);
                assert(t[i] == s[s.len() - 1]);
                assert(t.contains(p));
            } else {
                assert(t[j + 1] == s[j + 1]);
                assert(t.contains(p));
            }
        }
    }
}

/// Appending an entry whose halves are both fresh keeps both distinctness
/// properties.
proof fn lemma_distinct_after_push(s: Seq<(u64, (i32, i32))>, k: u64, p: (i32, i32))
    requires
        distinct_keys(s),
        distinct_seconds(s),
        !has_first(s, k),
        !has_second(s, p),
    ensures
        distinct_keys(s.push((k, p))),
        distinct_seconds(s.push((k, p))),
{
    let t = s.push((k, p));
    assert forall|i: int, j: int| 0 <= i < j < t.len() implies (#[trigger] t[i]).0 != (
    #[trigger] t[j]).0 && t[i].1 != t[j].1 by {
        if j == t.len() - 1 {
            assert(t[i] == s[i]);
        } else {
            assert(t[i] == s[i] && t[j] == s[j]);
        }
    }
}

} // verus!
