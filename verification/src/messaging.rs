//! The closed message vocabularies of the wire protocol: state diffs, the
//! client→server and server→client messages, and the addressing envelope for
//! outbound fan-out.

use vstd::prelude::*;
use crate::entities::EntityData;
use crate::identity::{ClientID, ClientIDSet, EntityID, LocationID, ObjectID, WorldID};
use crate::location::LocationPrimitive;
use crate::objects::ObjectData;
use crate::points::DPoint2;
use crate::text::BoundedString;
use crate::userbase::UserBaseError;
use crate::worlds::WorldPrimitive;

verus! {

/// One atomic change applied to a single location.
#[derive(Clone, Copy, Debug, PartialEq, Eq, Structural)]
pub enum Diff {
    MoveEntityTo(EntityID, DPoint2),
    PlaceInside(EntityID, DPoint2),
}

/// What a client asks of the server.
#[derive(Copy, Clone, Debug)]
pub enum MsgToServer {
    CreateEntity(EntityID, DPoint2),
    ControlMoveTo(LocationID, EntityID, DPoint2),
    ClientHasDisconnected,
    ClientLogin(BoundedString, BoundedString),
    RequestEntityData(EntityID),
    RequestObjectData(ObjectID),
    RequestControlling,
    RequestLocationData(LocationID),
    RequestWorldData(WorldID),
}

/// What the server tells a client.
#[derive(Copy, Clone, Debug)]
pub enum MsgToClient {
    GiveEntityData(EntityID, EntityData),
    GiveObjectData(ObjectID, ObjectData),
    ApplyLocationDiff(LocationID, Diff),
    GiveControlling(EntityID, LocationID),
    GiveLocationPrimitive(LocationID, LocationPrimitive),
    GiveWorldPrimitive(WorldID, WorldPrimitive),
    LoginSuccessful(ClientID),
    LoginFailure(UserBaseError),
}

/// A client request, stamped with the sender's id.
#[derive(Copy, Clone, Debug)]
pub struct MsgFromClient {
    pub msg: MsgToServer,
    pub cid: ClientID,
}

/// An outbound message with its addressing mode: one client, everyone, or an
/// explicit subscriber set.
#[derive(Copy, Clone, Debug)]
pub enum MsgToClientSet {
    Only(MsgToClient, ClientID),
    All(MsgToClient),
    Subset(MsgToClient, ClientIDSet),
}

} // verus!
