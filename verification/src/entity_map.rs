//! The entity↔position store of one location: a bidirectional map from the
//! `bidir_map` crate, held behind a small trusted boundary. Its contents are
//! named by `bm_pairs`, the sequence of (entity id, cell pair) entries in
//! entry order, and every method the location logic calls is specified over
//! that name, following what the crate's source does: a vector of pairs,
//! searched linearly, with `swap_remove` for removal.

use vstd::prelude::*;
use bidir_map::BidirMap;

verus! {

#[verifier::external_type_specification]
#[verifier::external_body]
#[verifier::reject_recursive_types(Kv1)]
#[verifier::reject_recursive_types(Kv2)]
pub struct ExBidirMap<Kv1: PartialEq, Kv2: PartialEq>(BidirMap<Kv1, Kv2>);

/// The entries of the map, in its own storage order.
pub uninterp spec fn bm_pairs(m: BidirMap<u64, (i32, i32)>) -> Seq<(u64, (i32, i32))>;

/// Some entry has `k` as its first component.
pub open spec fn has_first(s: Seq<(u64, (i32, i32))>, k: u64) -> bool {
    exists|i: int| 0 <= i < s.len() && (#[trigger] s[i]).0 == k
}

/// Some entry has `p` as its second component.
pub open spec fn has_second(s: Seq<(u64, (i32, i32))>, p: (i32, i32)) -> bool {
    exists|i: int| 0 <= i < s.len() && (#[trigger] s[i]).1 == p
}

/// A sequence with the entry at `i` taken out, the last entry moved into its
/// place — how `Vec::swap_remove` reshapes the storage.
pub open spec fn swap_remove_seq<T>(s: Seq<T>, i: int) -> Seq<T> {
    if i == s.len() - 1 {
        s.drop_last()
    } else {
        s.update(i, s.last()).drop_last()
    }
}

/// Relies on `BidirMap::new`: the new map has no entries.
#[verifier::external_body]
pub fn bm_new() -> (r: BidirMap<u64, (i32, i32)>)
    ensures
        bm_pairs(r) == Seq::<(u64, (i32, i32))>::empty(),
{
    BidirMap::new()
}

/// Relies on `BidirMap::get_by_first`: finds an entry whose first component
/// is `k`, if one exists.
#[verifier::external_body]
pub fn bm_get_by_first(m: &BidirMap<u64, (i32, i32)>, k: u64) -> (r: Option<(i32, i32)>)
    ensures
        match r {
            Some(p) => exists|i: int|
                0 <= i < bm_pairs(*m).len() && #[trigger] bm_pairs(*m)[i] == (k, p),
            None => !has_first(bm_pairs(*m), k),
        },
{
    m.get_by_first(&k).copied()
}

/// Relies on `BidirMap::get_by_second`: finds an entry whose second
/// component is `p`, if one exists.
#[verifier::external_body]
pub fn bm_get_by_second(m: &BidirMap<u64, (i32, i32)>, p: (i32, i32)) -> (r: Option<u64>)
    ensures
        match r {
            Some(k) => exists|i: int|
                0 <= i < bm_pairs(*m).len() && #[trigger] bm_pairs(*m)[i] == (k, p),
            None => !has_second(bm_pairs(*m), p),
        },
{
    m.get_by_second(&p).copied()
}

/// Relies on `BidirMap::insert`: when neither key half is present, the new
/// entry is appended to the storage and nothing is displaced.
#[verifier::external_body]
pub fn bm_insert_fresh(m: &mut BidirMap<u64, (i32, i32)>, k: u64, p: (i32, i32))
    requires
        !has_first(bm_pairs(*old(m)), k),
        !has_second(bm_pairs(*old(m)), p),
    ensures
        bm_pairs(*final(m)) == bm_pairs(*old(m)).push((k, p)),
{
    let _ = m.insert(k, p);
}

/// Relies on `BidirMap::remove_by_first`: removes the entry whose first
/// component is `k` by a swap-remove of the storage, returning it.
#[verifier::external_body]
pub fn bm_remove_by_first(m: &mut BidirMap<u64, (i32, i32)>, k: u64) -> (r: Option<
    (u64, (i32, i32)),
>)
    ensures
        match r {
            Some(pair) => pair.0 == k && exists|i: int|
                0 <= i < bm_pairs(*old(m)).len() && #[trigger] bm_pairs(*old(m))[i] == pair
                    && bm_pairs(*final(m)) == swap_remove_seq(bm_pairs(*old(m)), i),
            None => !has_first(bm_pairs(*old(m)), k) && bm_pairs(*final(m)) == bm_pairs(*old(m)),
        },
{
    m.remove_by_first(&k)
}

/// Relies on `BidirMap::iter`: yields the entries in storage order.
#[verifier::external_body]
pub fn bm_pairs_vec(m: &BidirMap<u64, (i32, i32)>) -> (r: Vec<(u64, (i32, i32))>)
    ensures
        r@ == bm_pairs(*m),
{
    m.iter().map(|kv| (*kv.0, *kv.1)).collect()
}

} // verus!
