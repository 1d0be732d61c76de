//! Identifier types shared by every component, and the compact bit-set of
//! client ids used for subscription bookkeeping.

use vstd::prelude::*;

verus! {

broadcast use vstd::seq_lib::lemma_seq_contains_after_push;

pub type EntityID = u64;

pub type LocationID = u32;

pub type ClientID = u16;

pub type AssetID = u16;

pub type ObjectID = u64;

pub type WorldID = u32;

pub type ZoneID = u32;

pub type SuperSeed = u64;

/// Number of client ids a `ClientIDSet` can hold: ids `0..CLIENT_ID_CAPACITY`.
pub const CLIENT_ID_CAPACITY: ClientID = 32;

/// A set of client ids, stored as one bit per id. Client ids are bounded
/// (at most `CLIENT_ID_CAPACITY` concurrent clients), so a single word is
/// enough for any subscriber set.
#[derive(Copy, Clone, Debug)]
pub struct ClientIDSet {
    bits: u32,
}

impl ClientIDSet {
    /// Membership: whether `cid`'s bit is up.
    pub closed spec fn spec_get(self, cid: ClientID) -> bool {
        cid < 32 && (self.bits >> (cid as u32)) & 1u32 == 1u32
    }

    /// The set as a mathematical set of client ids.
    pub open spec fn set_view(self) -> Set<ClientID> {
        Set::new(|cid: ClientID| self.spec_get(cid))
    }

    pub closed spec fn spec_is_empty(self) -> bool {
        self.bits == 0
    }

    pub fn new() -> (r: ClientIDSet)
        ensures
            r.spec_is_empty(),
            forall|c: ClientID| !r.spec_get(c),
    {
        proof {
            assert forall|c: ClientID| !((ClientIDSet { bits: 0u32 }).spec_get(c)) by {
                if c < 32 {
                    assert((0u32 >> (c as u32)) & 1u32 == 0u32) by (bit_vector);
                }
            }
        }
        ClientIDSet { bits: 0 }
    }

    pub fn new_just_one(cid: ClientID) -> (r: ClientIDSet)
        requires
            cid < CLIENT_ID_CAPACITY,
        ensures
            r.spec_get(cid),
            forall|c: ClientID| c != cid ==> !r.spec_get(c),
            !r.spec_is_empty(),
    {
        let mut x = Self::new();
        x.set(cid, true);
        x
    }

    pub fn get(&self, element: ClientID) -> (r: bool)
        requires
            element < CLIENT_ID_CAPACITY,
        ensures
            r == self.spec_get(element),
    {
        let r = (1u32 << (element as u32)) & self.bits > 0;
        proof {
            let b = self.bits;
            let e = element as u32;
            assert(e < 32 ==> (((1u32 << e) & b > 0) <==> ((b >> e) & 1u32 == 1u32)))
                by (bit_vector);
        }
        r
    }

    pub fn is_empty(&self) -> (r: bool)
        ensures
            r == self.spec_is_empty(),
    {
        self.bits == 0
    }

    /// Raise (`pos == true`) or lower (`pos == false`) the bit of `element`,
    /// leaving every other id's membership unchanged.
    pub fn set(&mut self, element: ClientID, pos: bool)
        requires
            element < CLIENT_ID_CAPACITY,
        ensures
            final(self).spec_get(element) == pos,
            forall|c: ClientID| c != element ==> final(self).spec_get(c) == old(self).spec_get(c),
    {
        let e = element as u32;
        if pos {
            let newbits = (1u32 << e) | self.bits;
            proof {
                let b = self.bits;
                assert(e < 32 ==> ((((1u32 << e) | b) >> e) & 1u32 == 1u32)) by (bit_vector);
                assert(forall|cu: u32|
                    cu != e && cu < 32 && e < 32 ==> (#[trigger] ((((1u32 << e) | b) >> cu) & 1u32))
                        == ((b >> cu) & 1u32)) by (bit_vector);
            }
            self.bits = newbits;
        } else {
            let newbits = !(1u32 << e) & self.bits;
            proof {
                let b = self.bits;
                assert(e < 32 ==> (((!(1u32 << e) & b) >> e) & 1u32 == 0u32)) by (bit_vector);
                assert(forall|cu: u32|
                    cu != e && cu < 32 && e < 32 ==> (#[trigger] (((!(1u32 << e) & b) >> cu)
                        & 1u32)) == ((b >> cu) & 1u32)) by (bit_vector);
            }
            self.bits = newbits;
        }
    }

    /// An empty set holds no id, and a non-empty set holds at least one.
    pub proof fn lemma_is_empty_iff(self)
        ensures
            self.spec_is_empty() <==> forall|c: ClientID| !self.spec_get(c),
    {
        if self.spec_is_empty() {
            assert forall|c: ClientID| !self.spec_get(c) by {
                if c < 32 {
                    let cu = c as u32;
                    let b = self.bits;
                    assert(b == 0 ==> (b >> cu) & 1u32 == 0u32) by (bit_vector);
                }
            }
        } else {
            let cu = Self::lemma_nonzero_bit(self.bits);
            assert(self.spec_get(cu as ClientID));
        }
    }

    /// A non-zero word has some bit up; returns the index of one.
    proof fn lemma_nonzero_bit(b: u32) -> (cu: u32)
        requires
            b != 0,
        ensures
            cu < 32,
            (b >> cu) & 1u32 == 1u32,
        decreases b,
    {
        if b & 1u32 == 1u32 {
            assert(b & 1u32 == 1u32 ==> (b >> 0u32) & 1u32 == 1u32) by (bit_vector);
            0u32
        } else {
            assert(b != 0 && b & 1u32 != 1u32 ==> b >> 1u32 != 0 && b >> 1u32 < b)
                by (bit_vector);
            let inner = Self::lemma_nonzero_bit(b >> 1u32);
            assert(((b >> 1u32) >> inner) & 1u32 == 1u32 && inner < 32 ==> inner < 31 && (b >> (
            inner + 1) as u32) & 1u32 == 1u32) by (bit_vector);
            (inner + 1) as u32
        }
    }

    pub fn iter_set_pos(self) -> (r: ClientIDSetIntoIterator)
        ensures
            r.bit_set == self,
            r.pos_mode == true,
            r.index == 0,
    {
        ClientIDSetIntoIterator { pos_mode: true, bit_set: self, index: 0 }
    }

    pub fn iter_set_neg(self) -> (r: ClientIDSetIntoIterator)
        ensures
            r.bit_set == self,
            r.pos_mode == false,
            r.index == 0,
    {
        ClientIDSetIntoIterator { pos_mode: false, bit_set: self, index: 0 }
    }

    /// All member ids, in increasing order.
    pub fn to_vec(self) -> (r: Vec<ClientID>)
        ensures
            forall|c: ClientID| r@.contains(c) <==> self.spec_get(c),
            forall|i: int, j: int| 0 <= i < j < r@.len() ==> r@[i] < r@[j],
    {
        let mut r: Vec<ClientID> = Vec::new();
        let mut i: u16 = 0;
        while i < CLIENT_ID_CAPACITY
            invariant
                i <= 32,
                forall|c: ClientID| r@.contains(c) <==> (c < i && self.spec_get(c)),
                forall|k: int, l: int| 0 <= k < l < r@.len() ==> r@[k] < r@[l],
                forall|k: int| 0 <= k < r@.len() ==> r@[k] < i,
            decreases 32 - i,
        {
            if self.get(i) {
                r.push(i);
            }
            i = i + 1;
        }
        r
    }
}

/// Walks the ids of a `ClientIDSet` in increasing order, yielding members
/// (`pos_mode`) or non-members (`!pos_mode`).
pub struct ClientIDSetIntoIterator {
    pub pos_mode: bool,
    pub bit_set: ClientIDSet,
    pub index: ClientID,
}

impl ClientIDSetIntoIterator {
    /// The next id at or above `index` whose membership equals `pos_mode`,
    /// if any; advances past it.
    pub fn next(&mut self) -> (r: Option<ClientID>)
        requires
            old(self).index <= CLIENT_ID_CAPACITY,
        ensures
            final(self).bit_set == old(self).bit_set,
            final(self).pos_mode == old(self).pos_mode,
            final(self).index <= CLIENT_ID_CAPACITY,
            match r {
                Some(c) => {
                    &&& old(self).index <= c < CLIENT_ID_CAPACITY
                    &&& old(self).bit_set.spec_get(c) == old(self).pos_mode
                    &&& final(self).index == c + 1
                    &&& forall|d: ClientID|
                        old(self).index <= d < c ==> old(self).bit_set.spec_get(d) != old(
                            self,
                        ).pos_mode
                },
                None => forall|d: ClientID|
                    old(self).index <= d < CLIENT_ID_CAPACITY ==> old(self).bit_set.spec_get(d)
                        != old(self).pos_mode,
            },
    {
        while self.index < CLIENT_ID_CAPACITY
            invariant
                self.bit_set == old(self).bit_set,
                self.pos_mode == old(self).pos_mode,
                old(self).index <= self.index <= CLIENT_ID_CAPACITY,
                forall|d: ClientID|
                    old(self).index <= d < self.index ==> self.bit_set.spec_get(d)
                        != self.pos_mode,
            decreases CLIENT_ID_CAPACITY - self.index,
        {
            self.index = self.index + 1;
            if self.bit_set.get(self.index - 1) == self.pos_mode {
                return Some(self.index - 1);
            }
        }
        None
    }
}

} // verus!
