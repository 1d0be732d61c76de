//! The server's decision core: request handling, subscription-driven
//! promotion, and subscription-scoped fan-out of accepted diffs.

use worldcache::fanout::{filter_for_client, should_deliver};
use worldcache::loader::Tier;
use worldcache::messaging::{Diff, MsgFromClient, MsgToClient, MsgToClientSet, MsgToServer};
use worldcache::points::DPoint2;
use worldcache::server_step::{ServerState, StoreSnapshot};
use worldcache::text::bound_string;
use worldcache::userbase::UserBase;

fn empty_store() -> StoreSnapshot {
    StoreSnapshot { loc_prim: None, loc_data: None, world_prim: None }
}

fn msg(cid: u16, m: MsgToServer) -> MsgFromClient {
    MsgFromClient { msg: m, cid }
}

/// Register and log a user in, returning the client id the roster issued.
fn join(ub: &mut UserBase, name: &str) -> u16 {
    assert!(ub.register(
        bound_string(String::from(name)),
        bound_string(String::from("pw"))
    ));
    ub.login(bound_string(String::from(name)), bound_string(String::from("pw"))).unwrap()
}

#[test]
fn request_location_data_subscribes_and_answers() {
    let mut state = ServerState::new(10_000);
    let mut ub = UserBase::new();
    let out = state.handle_message(
        &mut ub,
        msg(3, MsgToServer::RequestLocationData(0)),
        empty_store(),
        100,
    );
    assert_eq!(state.loader.tier(0), Tier::Foreground);
    assert!(state.loader.is_subscribed(3, 0));
    assert_eq!(out.len(), 1);
    assert!(matches!(
        out[0],
        MsgToClientSet::Only(MsgToClient::GiveLocationPrimitive(0, _), 3)
    ));
}

#[test]
fn accepted_move_is_fanned_out_to_exactly_the_subscribers() {
    let mut state = ServerState::new(10_000);
    let mut ub = UserBase::new();
    let alice = join(&mut ub, "alice");
    let bob = join(&mut ub, "bob");
    let carol = join(&mut ub, "carol");
    // Alice and Bob watch location 0; Carol does not.
    for cid in [alice, bob] {
        let _ = state.handle_message(
            &mut ub,
            msg(cid, MsgToServer::RequestLocationData(0)),
            empty_store(),
            100,
        );
    }
    // Give Alice control of a freshly placed entity.
    let _ = state.handle_message(
        &mut ub,
        msg(alice, MsgToServer::RequestControlling),
        empty_store(),
        110,
    );
    let ctl = state.data.controlling_of(alice).unwrap();
    let out = state.handle_message(
        &mut ub,
        msg(alice, MsgToServer::ControlMoveTo(0, ctl.0, DPoint2::new(20, 20))),
        empty_store(),
        120,
    );
    assert_eq!(out.len(), 1);
    // The diff reaches exactly the subscriber set at application time.
    assert!(should_deliver(&out[0], alice));
    assert!(should_deliver(&out[0], bob));
    assert!(!should_deliver(&out[0], carol));
    assert!(matches!(
        out[0],
        MsgToClientSet::Subset(MsgToClient::ApplyLocationDiff(0, Diff::MoveEntityTo(_, _)), _)
    ));
    // The coupler filter agrees: one payload for watchers, none for others.
    assert_eq!(filter_for_client(&out, bob).len(), 1);
    assert_eq!(filter_for_client(&out, carol).len(), 0);
}

#[test]
fn rejected_move_is_not_broadcast() {
    let mut state = ServerState::new(10_000);
    let mut ub = UserBase::new();
    let alice = join(&mut ub, "alice");
    let _ = state.handle_message(
        &mut ub,
        msg(alice, MsgToServer::RequestControlling),
        empty_store(),
        100,
    );
    let ctl = state.data.controlling_of(alice).unwrap();
    let here = state
        .loader
        .entities_in(0, None, 110)
        .unwrap()
        .into_iter()
        .find(|&(e, _)| e == ctl.0)
        .unwrap()
        .1;
    // Moving to the very cell the entity stands on is rejected: nothing is
    // sent and the log stays as it was.
    let out = state.handle_message(
        &mut ub,
        msg(alice, MsgToServer::ControlMoveTo(0, ctl.0, here)),
        empty_store(),
        120,
    );
    assert_eq!(out.len(), 0);
}

#[test]
fn move_by_non_controller_is_ignored() {
    let mut state = ServerState::new(10_000);
    let mut ub = UserBase::new();
    let out = state.handle_message(
        &mut ub,
        msg(9, MsgToServer::ControlMoveTo(0, 1234, DPoint2::new(1, 1))),
        empty_store(),
        100,
    );
    assert_eq!(out.len(), 0);
}

#[test]
fn request_controlling_first_time_sets_up_a_player() {
    let mut state = ServerState::new(10_000);
    let mut ub = UserBase::new();
    let alice = join(&mut ub, "alice");
    let out = state.handle_message(
        &mut ub,
        msg(alice, MsgToServer::RequestControlling),
        empty_store(),
        100,
    );
    let ctl = state.data.controlling_of(alice).unwrap();
    assert_eq!(ctl.1, 0);
    assert_eq!(out.len(), 2);
    assert!(matches!(
        out[1],
        MsgToClientSet::Only(MsgToClient::GiveControlling(_, 0), c) if c == alice
    ));
    // Asking again answers from the record without a second setup.
    let out2 = state.handle_message(
        &mut ub,
        msg(alice, MsgToServer::RequestControlling),
        empty_store(),
        110,
    );
    assert_eq!(out2.len(), 1);
    assert_eq!(state.data.controlling_of(alice).unwrap(), ctl);
}

#[test]
fn coupler_filter_keeps_order_and_payloads() {
    let msgs = vec![
        MsgToClientSet::Only(MsgToClient::GiveControlling(1, 0), 3),
        MsgToClientSet::All(MsgToClient::GiveControlling(2, 0)),
        MsgToClientSet::Only(MsgToClient::GiveControlling(3, 0), 4),
    ];
    let for3 = filter_for_client(&msgs, 3);
    assert_eq!(for3.len(), 2);
    assert!(matches!(for3[0], MsgToClient::GiveControlling(1, 0)));
    assert!(matches!(for3[1], MsgToClient::GiveControlling(2, 0)));
    let for5 = filter_for_client(&msgs, 5);
    assert_eq!(for5.len(), 1);
}

#[test]
fn request_world_data_always_answers() {
    let mut state = ServerState::new(10_000);
    let mut ub = UserBase::new();
    let out = state.handle_message(
        &mut ub,
        msg(3, MsgToServer::RequestWorldData(7)),
        empty_store(),
        100,
    );
    assert_eq!(out.len(), 1);
    let first = match out[0] {
        MsgToClientSet::Only(MsgToClient::GiveWorldPrimitive(7, wp), 3) => wp,
        _ => panic!("unexpected answer"),
    };
    // Asking again returns the same synthesized primitive: generation is
    // cached, never re-rolled.
    let out2 = state.handle_message(
        &mut ub,
        msg(4, MsgToServer::RequestWorldData(7)),
        empty_store(),
        110,
    );
    match out2[0] {
        MsgToClientSet::Only(MsgToClient::GiveWorldPrimitive(7, wp), 4) => {
            assert_eq!(wp, first);
        },
        _ => panic!("unexpected answer"),
    }
}

#[test]
fn entity_and_object_requests_answer_only_known_ids() {
    let mut state = ServerState::new(10_000);
    let mut ub = UserBase::new();
    let out = state.handle_message(
        &mut ub,
        msg(3, MsgToServer::RequestEntityData(99)),
        empty_store(),
        100,
    );
    assert_eq!(out.len(), 0);
    let out = state.handle_message(
        &mut ub,
        msg(3, MsgToServer::RequestObjectData(99)),
        empty_store(),
        100,
    );
    assert_eq!(out.len(), 0);
}

#[test]
fn disconnect_logs_out_and_unsubscribes() {
    let mut state = ServerState::new(10_000);
    let mut ub = UserBase::new();
    let alice = join(&mut ub, "alice");
    let _ = state.handle_message(
        &mut ub,
        msg(alice, MsgToServer::RequestControlling),
        empty_store(),
        100,
    );
    let _ = state.handle_message(
        &mut ub,
        msg(alice, MsgToServer::RequestLocationData(0)),
        empty_store(),
        110,
    );
    assert!(state.loader.is_subscribed(alice, 0));
    assert!(ub.is_logged_in(alice));
    let out = state.handle_message(
        &mut ub,
        msg(alice, MsgToServer::ClientHasDisconnected),
        empty_store(),
        120,
    );
    assert_eq!(out.len(), 0);
    assert!(!state.loader.is_subscribed(alice, 0));
    assert!(!ub.is_logged_in(alice));
}

#[test]
fn request_location_data_announces_present_entities() {
    let mut state = ServerState::new(10_000);
    let mut ub = UserBase::new();
    let alice = join(&mut ub, "alice");
    let bob = join(&mut ub, "bob");
    // Set up a player so the start location holds one entity.
    let _ = state.handle_message(
        &mut ub,
        msg(alice, MsgToServer::RequestControlling),
        empty_store(),
        100,
    );
    let out = state.handle_message(
        &mut ub,
        msg(bob, MsgToServer::RequestLocationData(0)),
        empty_store(),
        110,
    );
    assert_eq!(out.len(), 2);
    assert!(matches!(
        out[1],
        MsgToClientSet::Only(MsgToClient::ApplyLocationDiff(0, Diff::PlaceInside(_, _)), c)
            if c == bob
    ));
}
