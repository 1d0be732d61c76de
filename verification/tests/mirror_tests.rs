//! The client mirror: non-blocking lookups, the derivation chain, and the
//! outbound-fetch throttle.

use worldcache::location::LocationPrimitive;
use worldcache::messaging::Diff;
use worldcache::points::DPoint2;
use worldcache::messaging::{MsgToClient, MsgToServer};
use worldcache::mirror::ClientResources;
use worldcache::worlds::WorldPrimitive;

#[test]
fn try_get_miss_records_pending_and_returns_none() {
    let mut cr = ClientResources::new(400);
    assert!(cr.try_get_world_prim(7).is_none());
    assert!(cr.try_get_world(7).is_none());
    assert!(cr.try_get_location_prim(3).is_none());
    assert!(cr.try_get_location(3).is_none());
    assert!(cr.try_get_object(9).is_none());
    assert!(cr.try_get_entity(11).is_none());
    let pending = cr.take_pending_world_prims();
    assert_eq!(pending, vec![7]);
}

#[test]
fn throttle_allows_at_most_one_fetch_per_window() {
    let mut cr = ClientResources::new(400);
    // First miss at t=1000: one fetch goes out.
    let (found, req) = cr.fast_world_prim_populate(7, None, 1000);
    assert!(!found);
    assert!(matches!(req, Some(MsgToServer::RequestWorldData(7))));
    // Any number of retries inside the window send nothing.
    for t in [1000u64, 1100, 1250, 1400] {
        let (found, req) = cr.fast_world_prim_populate(7, None, t);
        assert!(!found);
        assert!(req.is_none());
    }
    // Past the window, exactly one more fetch goes out.
    let (_, req) = cr.fast_world_prim_populate(7, None, 1401);
    assert!(matches!(req, Some(MsgToServer::RequestWorldData(7))));
    let (_, req) = cr.fast_world_prim_populate(7, None, 1500);
    assert!(req.is_none());
}

#[test]
fn acquisition_sweep_raises_one_throttled_fetch_per_pending_id() {
    let mut cr = ClientResources::new(400);
    assert!(cr.try_get_world_prim(7).is_none());
    assert!(cr.try_get_entity(11).is_none());
    let reqs = cr.perform_acquisitions(1000);
    assert_eq!(reqs.len(), 2);
    assert!(reqs.iter().any(|r| matches!(r, MsgToServer::RequestWorldData(7))));
    assert!(reqs.iter().any(|r| matches!(r, MsgToServer::RequestEntityData(11))));
    // A second sweep inside the window raises nothing, however often the
    // lookups missed meanwhile.
    assert!(cr.try_get_world_prim(7).is_none());
    assert!(cr.try_get_entity(11).is_none());
    let reqs = cr.perform_acquisitions(1200);
    assert_eq!(reqs.len(), 0);
}

#[test]
fn throttle_is_tracked_per_resource_id() {
    let mut cr = ClientResources::new(400);
    let (_, req7) = cr.fast_world_prim_populate(7, None, 1000);
    let (_, req8) = cr.fast_world_prim_populate(8, None, 1000);
    assert!(req7.is_some());
    assert!(req8.is_some());
}

#[test]
fn stored_copy_populates_without_fetch() {
    let mut cr = ClientResources::new(400);
    let wp = WorldPrimitive::new(5, 6);
    let (found, req) = cr.fast_world_prim_populate(7, Some(wp), 1000);
    assert!(found);
    assert!(req.is_none());
    assert_eq!(cr.try_get_world_prim(7), Some(wp));
}

#[test]
fn server_push_populates_cache_directly() {
    let mut cr = ClientResources::new(400);
    let wp = WorldPrimitive::new(5, 6);
    cr.server_sent_data(MsgToClient::GiveWorldPrimitive(7, wp));
    assert_eq!(cr.try_get_world_prim(7), Some(wp));
    let lp = LocationPrimitive::new(7, 0, 50, 50, 1000, 3);
    cr.server_sent_data(MsgToClient::GiveLocationPrimitive(2, lp));
    assert_eq!(cr.try_get_location_prim(2), Some(lp));
}

#[test]
fn pushed_world_prim_overwrites_and_invalidates_derived_world() {
    let mut cr = ClientResources::new(400);
    let first = WorldPrimitive::new(1, 2);
    let second = WorldPrimitive::new(8, 9);
    let (found, _) = cr.fast_world_populate(7, Some(first), 1000);
    assert!(found);
    assert_eq!(cr.try_get_world(7).unwrap().prim, first);
    // A server push replaces the stored primitive and drops the world
    // derived from the stale one; the next resolution re-derives.
    cr.server_sent_data(MsgToClient::GiveWorldPrimitive(7, second));
    assert_eq!(cr.try_get_world_prim(7), Some(second));
    assert!(cr.try_get_world(7).is_none());
    let (found, req) = cr.fast_world_populate(7, None, 1000);
    assert!(found);
    assert!(req.is_none());
    assert_eq!(cr.try_get_world(7).unwrap().prim, second);
}

#[test]
fn world_is_derived_from_its_primitive() {
    let mut cr = ClientResources::new(400);
    let wp = WorldPrimitive::new(5, 6);
    let (found, req) = cr.fast_world_populate(7, Some(wp), 1000);
    assert!(found);
    assert!(req.is_none());
    let w = cr.try_get_world(7).unwrap();
    assert_eq!(w.prim, wp);
}

#[test]
fn location_chain_derives_through_world() {
    let mut cr = ClientResources::new(400);
    let wp = WorldPrimitive::new(5, 6);
    let lp = LocationPrimitive::new(7, 0, 40, 30, 1000, 3);
    let (found, reqs) = cr.fast_location_populate(2, Some(lp), Some(wp), 1000);
    assert!(found);
    assert_eq!(reqs.len(), 0);
    let loc = cr.try_get_location(2).unwrap();
    assert_eq!(*loc.get_location_primitive(), lp);
}

#[test]
fn pushed_diffs_keep_the_mirrored_location_in_step() {
    let mut cr = ClientResources::new(400);
    let wp = WorldPrimitive::new(5, 6);
    let lp = LocationPrimitive::new(7, 0, 40, 30, 1000, 3);
    let (found, _) = cr.fast_location_populate(2, Some(lp), Some(wp), 1000);
    assert!(found);
    assert!(cr.apply_server_diff(2, Diff::PlaceInside(42, DPoint2::new(3, 3))).is_ok());
    assert!(cr.apply_server_diff(2, Diff::PlaceInside(43, DPoint2::new(3, 3))).is_err());
    assert_eq!(cr.try_get_location(2).unwrap().point_of(42), Some(DPoint2::new(3, 3)));
    // A diff for a location not mirrored is refused outright.
    assert!(cr.apply_server_diff(9, Diff::PlaceInside(1, DPoint2::new(0, 0))).is_err());
}

#[test]
fn location_chain_miss_requests_location_data() {
    let mut cr = ClientResources::new(400);
    let (found, reqs) = cr.fast_location_populate(2, None, None, 1000);
    assert!(!found);
    assert_eq!(reqs.len(), 1);
    assert!(matches!(reqs[0], MsgToServer::RequestLocationData(2)));
}
