//! The client's synchronization step: control handoff, view building, and
//! follow-up requests.

use worldcache::client_step::ClientState;
use worldcache::location::LocationPrimitive;
use worldcache::messaging::{Diff, MsgToClient, MsgToServer};
use worldcache::points::DPoint2;
use worldcache::worlds::WorldPrimitive;

#[test]
fn taking_control_of_a_new_location_requests_its_data() {
    let mut cs = ClientState::new(3);
    let out = cs.handle_msg(MsgToClient::GiveControlling(42, 5));
    assert_eq!(cs.controlling(), Some((42, 5)));
    assert!(cs.current_location().is_none());
    assert_eq!(out.len(), 1);
    assert!(matches!(out[0], MsgToServer::RequestLocationData(5)));
}

#[test]
fn location_primitive_without_world_asks_for_both_again() {
    let mut cs = ClientState::new(3);
    let _ = cs.handle_msg(MsgToClient::GiveControlling(42, 5));
    let lp = LocationPrimitive::new(7, 0, 50, 50, 1000, 5);
    let out = cs.handle_msg(MsgToClient::GiveLocationPrimitive(5, lp));
    assert_eq!(out.len(), 2);
    assert!(matches!(out[0], MsgToServer::RequestWorldData(7)));
    assert!(matches!(out[1], MsgToServer::RequestLocationData(5)));
    assert!(cs.current_location().is_none());
}

#[test]
fn location_primitive_with_world_builds_the_view() {
    let mut cs = ClientState::new(3);
    let _ = cs.handle_msg(MsgToClient::GiveControlling(42, 5));
    let _ = cs.handle_msg(MsgToClient::GiveWorldPrimitive(7, WorldPrimitive::new(1, 2)));
    let lp = LocationPrimitive::new(7, 0, 50, 50, 1000, 5);
    let out = cs.handle_msg(MsgToClient::GiveLocationPrimitive(5, lp));
    assert_eq!(out.len(), 0);
    let loc = cs.current_location().as_ref().unwrap();
    assert_eq!(*loc.get_location_primitive(), lp);
}

#[test]
fn diffs_for_the_watched_location_are_applied() {
    let mut cs = ClientState::new(3);
    let _ = cs.handle_msg(MsgToClient::GiveControlling(42, 5));
    let _ = cs.handle_msg(MsgToClient::GiveWorldPrimitive(7, WorldPrimitive::new(1, 2)));
    let lp = LocationPrimitive::new(7, 0, 50, 50, 1000, 5);
    let _ = cs.handle_msg(MsgToClient::GiveLocationPrimitive(5, lp));
    let _ = cs.handle_msg(MsgToClient::ApplyLocationDiff(
        5,
        Diff::PlaceInside(42, DPoint2::new(10, 10)),
    ));
    assert_eq!(
        cs.current_location().as_ref().unwrap().point_of(42),
        Some(DPoint2::new(10, 10))
    );
    // Diffs for other locations leave the view alone.
    let _ = cs.handle_msg(MsgToClient::ApplyLocationDiff(
        6,
        Diff::PlaceInside(43, DPoint2::new(1, 1)),
    ));
    assert_eq!(cs.current_location().as_ref().unwrap().point_of(43), None);
}

#[test]
fn descriptors_land_in_their_caches() {
    let mut cs = ClientState::new(3);
    let ed = worldcache::entities::EntityData::new(1, 700);
    let od = worldcache::objects::ObjectData::new(0, 1000);
    let _ = cs.handle_msg(MsgToClient::GiveEntityData(8, ed));
    let _ = cs.handle_msg(MsgToClient::GiveObjectData(9, od));
    assert_eq!(cs.entity_data.get(8), Some(&ed));
    assert_eq!(cs.object_data.get(9), Some(&od));
}

#[test]
fn keeping_control_in_place_requests_nothing() {
    let mut cs = ClientState::new(3);
    let _ = cs.handle_msg(MsgToClient::GiveControlling(42, 5));
    let out = cs.handle_msg(MsgToClient::GiveControlling(42, 5));
    assert_eq!(out.len(), 0);
}
