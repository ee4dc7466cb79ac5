//! Plain identifiers shared by the server's stores.

use vstd::prelude::*;

verus! {

/// Key of a connected (or connecting) user.
#[derive(Clone, Copy, PartialEq, Eq, Hash, Debug, Structural)]
pub struct UserKey(pub u64);

/// Opaque handle to a room on the server.
///
/// Obtained from `CoordHandle::create_room` and used to reference the room in
/// subsequent calls. `RoomKey` values are stable for the lifetime of the
/// room and may be stored freely.
#[derive(Clone, Copy, PartialEq, Eq, Hash, Debug, Structural)]
pub struct RoomKey(pub u64);

/// Server-wide identity of a replicated entity.
#[derive(Clone, Copy, PartialEq, Eq, Hash, Debug, Structural)]
pub struct GlobalEntity(pub u64);

/// Identity of a replicated component type.
#[derive(Clone, Copy, PartialEq, Eq, Hash, Debug, Structural)]
pub struct ComponentKind(pub u16);

/// Identity of a message channel.
#[derive(Clone, Copy, PartialEq, Eq, Hash, Debug, Structural)]
pub struct ChannelKind(pub u16);

/// Identity of a message type.
#[derive(Clone, Copy, PartialEq, Eq, Hash, Debug, Structural)]
pub struct MessageKind(pub u16);

/// A peer's network address: the IP address as a 128-bit number (IPv4
/// addresses in their IPv6-mapped form) and the port.
#[derive(Clone, Copy, PartialEq, Eq, Hash, Debug, Structural)]
pub struct Address {
    pub ip: u128,
    pub port: u16,
}

impl RoomKey {
    /// The number a room key wraps.
    pub fn to_u64(&self) -> (r: u64)
        ensures
            r == self.0,
    {
        self.0
    }

    /// The room key that wraps `value`.
    pub fn from_u64(value: u64) -> (r: RoomKey)
        ensures
            r.0 == value,
    {
        RoomKey(value)
    }
}

impl UserKey {
    /// The number a user key wraps.
    pub fn to_u64(&self) -> (r: u64)
        ensures
            r == self.0,
    {
        self.0
    }

    /// The user key that wraps `value`.
    pub fn from_u64(value: u64) -> (r: UserKey)
        ensures
            r.0 == value,
    {
        UserKey(value)
    }
}

} // verus!
