//! The decisions the server's receive loop makes between socket reads:
//! which connections get a heartbeat or are dropped, where an incoming
//! packet goes, and whether an actor enters or leaves a user's scope.

use vstd::prelude::*;

use crate::keys::UserKey;

verus! {

/// What the heartbeat pass does with one connection.
#[derive(Clone, Copy, PartialEq, Eq, Debug, Structural)]
pub enum HeartbeatAction {
    /// The connection timed out: queue its user for disconnection.
    Disconnect,
    /// Nothing was sent for too long: send a heartbeat.
    SendHeartbeat,
    /// Nothing to do.
    Nothing,
}

/// Decides the heartbeat pass for a connection that should be dropped
/// (`should_drop`) or is due a heartbeat (`should_send_heartbeat`): a
/// timed-out connection gets no heartbeat.
pub fn heartbeat_action(should_drop: bool, should_send_heartbeat: bool) -> (r: HeartbeatAction)
    ensures
        r == (if should_drop {
            HeartbeatAction::Disconnect
        } else if should_send_heartbeat {
            HeartbeatAction::SendHeartbeat
        } else {
            HeartbeatAction::Nothing
        }),
{
    if should_drop {
        HeartbeatAction::Disconnect
    } else if should_send_heartbeat {
        HeartbeatAction::SendHeartbeat
    } else {
        HeartbeatAction::Nothing
    }
}

/// The type of a packet's header, as far as the server's receive loop
/// tells them apart.
#[derive(Clone, Copy, PartialEq, Eq, Debug, Structural)]
pub enum PacketKind {
    ClientChallengeRequest,
    ClientConnectRequest,
    Data,
    Heartbeat,
    Ping,
    /// Any other type: the server ignores it.
    Other,
}

/// Where a received packet goes.
#[derive(Clone, Copy, PartialEq, Eq, Debug, Structural)]
pub enum PacketRoute {
    /// Answer the challenge with the tick, the timestamp and its digest.
    AnswerChallenge,
    /// Decide the connect request (see the handshake).
    DecideConnect,
    /// Hand it to the connection of this user.
    Process(UserKey),
    /// The address has a user but no connection yet: warn and drop it.
    Unauthenticated,
    /// Drop it.
    Ignore,
}

/// Where a packet of `kind` goes, from an address whose user is `known`
/// (if any), `has_connection` telling whether that user has a connection.
/// Data, heartbeats and pings reach only an established connection.
pub open spec fn packet_route_spec(kind: PacketKind, known: Option<UserKey>, has_connection: bool) -> PacketRoute {
    match kind {
        PacketKind::ClientChallengeRequest => PacketRoute::AnswerChallenge,
        PacketKind::ClientConnectRequest => PacketRoute::DecideConnect,
        PacketKind::Data | PacketKind::Heartbeat | PacketKind::Ping => match known {
            Some(u) => if has_connection { PacketRoute::Process(u) } else { PacketRoute::Unauthenticated },
            None => PacketRoute::Ignore,
        },
        PacketKind::Other => PacketRoute::Ignore,
    }
}

/// `route` is where a packet of `kind` should go: a challenge request is
/// answered, a connect request decided; a data packet, heartbeat or ping
/// reaches the connection of its known user when it has one, is refused as
/// unauthenticated when the user has none, and is dropped from an unknown
/// address; any other packet is dropped.
pub open spec fn routed_as_meant(kind: PacketKind, known: Option<UserKey>, has_connection: bool, route: PacketRoute) -> bool {
    let session = kind == PacketKind::Data || kind == PacketKind::Heartbeat || kind == PacketKind::Ping;
    &&& kind == PacketKind::ClientChallengeRequest ==> route == PacketRoute::AnswerChallenge
    &&& kind == PacketKind::ClientConnectRequest ==> route == PacketRoute::DecideConnect
    &&& kind == PacketKind::Other ==> route == PacketRoute::Ignore
    &&& (session && known is None) ==> route == PacketRoute::Ignore
    &&& (session && known is Some && has_connection) ==> route == PacketRoute::Process(known->0)
    &&& (session && known is Some && !has_connection) ==> route == PacketRoute::Unauthenticated
}

/// Data packets, heartbeats and pings are routed alike: from a known user
/// with a connection each reaches that user's connection, from a known
/// user without one each is unauthenticated, and from an unknown address
/// each is dropped. A packet reaches a connection only in that case, and
/// only the user's own.
pub proof fn lemma_session_packets_routed_alike(kind: PacketKind, known: Option<UserKey>, has_connection: bool)
    ensures
        routed_as_meant(kind, known, has_connection, packet_route_spec(kind, known, has_connection)),
        (kind == PacketKind::Data || kind == PacketKind::Heartbeat || kind == PacketKind::Ping) ==> packet_route_spec(
            kind,
            known,
            has_connection,
        ) == packet_route_spec(PacketKind::Data, known, has_connection),
        packet_route_spec(kind, known, has_connection) matches PacketRoute::Process(u) ==> (known == Some(u)
            && has_connection),
{
}

/// Decides where a received packet goes.
pub fn packet_route(kind: PacketKind, known: Option<UserKey>, has_connection: bool) -> (r: PacketRoute)
    ensures
        routed_as_meant(kind, known, has_connection, r),
        r == packet_route_spec(kind, known, has_connection),
{
    match kind {
        PacketKind::ClientChallengeRequest => PacketRoute::AnswerChallenge,
        PacketKind::ClientConnectRequest => PacketRoute::DecideConnect,
        PacketKind::Data | PacketKind::Heartbeat | PacketKind::Ping => match known {
            Some(u) => if has_connection { PacketRoute::Process(u) } else { PacketRoute::Unauthenticated },
            None => PacketRoute::Ignore,
        },
        PacketKind::Other => PacketRoute::Ignore,
    }
}

/// What the scope pass does with one actor of a room for one of its users.
#[derive(Clone, Copy, PartialEq, Eq, Debug, Structural)]
pub enum ScopeAction {
    /// The actor enters the user's scope.
    Add,
    /// The actor leaves the user's scope.
    Remove,
    /// Nothing changes.
    Keep,
}

/// Decides the scope pass for an actor that is (`currently_in_scope`) or
/// is not in the user's scope: it belongs there when it is the user's pawn
/// or the scope function admits it.
pub fn scope_action(currently_in_scope: bool, is_pawn: bool, admitted: bool) -> (r: ScopeAction)
    ensures
        r == (if (is_pawn || admitted) && !currently_in_scope {
            ScopeAction::Add
        } else if !(is_pawn || admitted) && currently_in_scope {
            ScopeAction::Remove
        } else {
            ScopeAction::Keep
        }),
{
    let should_be_in_scope = is_pawn || admitted;
    if should_be_in_scope {
        if !currently_in_scope {
            ScopeAction::Add
        } else {
            ScopeAction::Keep
        }
    } else if currently_in_scope {
        ScopeAction::Remove
    } else {
        ScopeAction::Keep
    }
}

/// After the scope pass, an actor is in the user's scope exactly when it
/// belongs there.
pub proof fn lemma_scope_pass_settles(currently_in_scope: bool, is_pawn: bool, admitted: bool, action: ScopeAction)
    requires
        action == (if (is_pawn || admitted) && !currently_in_scope {
            ScopeAction::Add
        } else if !(is_pawn || admitted) && currently_in_scope {
            ScopeAction::Remove
        } else {
            ScopeAction::Keep
        }),
    ensures
        (match action {
            ScopeAction::Add => true,
            ScopeAction::Remove => false,
            ScopeAction::Keep => currently_in_scope,
        }) == (is_pawn || admitted),
{
}

} // verus!
