//! The wire form of one replica action in a packet, and whether the packet
//! has room for it.
//!
//! Component payloads, encoded diff masks, the action type's byte and the
//! protocol ids of component types come from the protocol's own encoders;
//! this module lays them out.

use vstd::prelude::*;

use crate::ping_manager::write_u16_big_endian;

verus! {

/// A packet never holds more replica actions than this.
pub const MAX_REPLICA_ACTIONS: u8 = 255;

/// The two big-endian bytes of `n`.
pub open spec fn be16(n: u16) -> Seq<u8> {
    seq![(n / 256) as u8, (n % 256) as u8]
}

/// A component as a created entity carries it: the protocol id of its
/// type, its local key, and its encoded payload.
pub struct ComponentWrite {
    pub naia_id: u16,
    pub local_key: u16,
    pub payload: Vec<u8>,
}

/// What one replica action puts on the wire, with its parts already
/// encoded.
pub enum ReplicaWrite {
    DeleteReplica { local_key: u16 },
    UpdateReplica { local_key: u16, mask: Vec<u8>, payload: Vec<u8> },
    /// A new entity, with its components if any are sent along.
    CreateEntity { local_key: u16, components: Option<Vec<ComponentWrite>> },
    DeleteEntity { local_key: u16 },
    AssignPawnEntity { local_key: u16 },
    UnassignPawnEntity { local_key: u16 },
    AddComponent { entity_key: u16, naia_id: u16, component_key: u16, payload: Vec<u8> },
}

/// The bytes of the components `cs`, one after the other: type id, local
/// key, payload.
pub open spec fn components_bytes(cs: Seq<ComponentWrite>) -> Seq<u8>
    decreases cs.len(),
{
    if cs.len() == 0 {
        Seq::empty()
    } else {
        components_bytes(cs.drop_last()) + be16(cs.last().naia_id) + be16(cs.last().local_key) + cs.last().payload@
    }
}

/// The bytes of `action` after its type byte.
pub open spec fn replica_body(action: ReplicaWrite) -> Seq<u8> {
    match action {
        ReplicaWrite::DeleteReplica { local_key } => be16(local_key),
        ReplicaWrite::UpdateReplica { local_key, mask, payload } => be16(local_key) + mask@ + payload@,
        ReplicaWrite::CreateEntity { local_key, components } => match components {
            Some(cs) => be16(local_key) + seq![cs@.len() as u8] + components_bytes(cs@),
            None => be16(local_key) + seq![0u8],
        },
        ReplicaWrite::DeleteEntity { local_key } => be16(local_key),
        ReplicaWrite::AssignPawnEntity { local_key } => be16(local_key),
        ReplicaWrite::UnassignPawnEntity { local_key } => be16(local_key),
        ReplicaWrite::AddComponent { entity_key, naia_id, component_key, payload } => be16(entity_key) + be16(naia_id)
            + be16(component_key) + payload@,
    }
}

/// A created entity sends at most 255 components along.
pub open spec fn writable(action: ReplicaWrite) -> bool {
    match action {
        ReplicaWrite::CreateEntity { components: Some(cs), .. } => cs@.len() <= 255,
        _ => true,
    }
}

fn push_u16(out: &mut Vec<u8>, n: u16)
    ensures
        final(out)@ == old(out)@ + be16(n),
{
    let mut two: Vec<u8> = vec![0u8, 0u8];
    write_u16_big_endian(two.as_mut_slice(), n);
    proof {
        assert(two@ =~= be16(n));
    }
    out.append(&mut two);
}

fn push_bytes(out: &mut Vec<u8>, bytes: &Vec<u8>)
    ensures
        final(out)@ == old(out)@ + bytes@,
{
    let ghost start = out@;
    let mut i: usize = 0;
    while i < bytes.len()
        invariant
            i <= bytes@.len(),
            out@ == start + bytes@.take(i as int),
        decreases bytes@.len() - i,
    {
        out.push(bytes[i]);
        proof {
            assert(bytes@.take(i + 1) =~= bytes@.take(i as int).push(bytes@[i as int]));
            assert(out@ =~= start + bytes@.take(i + 1));
        }
        i += 1;
    }
    proof {
        assert(bytes@.take(bytes@.len() as int) =~= bytes@);
    }
}

/// The bytes of one replica action: its type byte `type_byte`, then its
/// keys as big-endian numbers and its encoded parts, in the order the
/// receiver reads them. A created entity says how many components follow
/// (0 when none are sent along).
pub fn replica_action_bytes(type_byte: u8, action: &ReplicaWrite) -> (r: Vec<u8>)
    requires
        writable(*action),
    ensures
        r@ == seq![type_byte] + replica_body(*action),
{
    let mut out: Vec<u8> = vec![type_byte];
    match action {
        ReplicaWrite::DeleteReplica { local_key } => {
            push_u16(&mut out, *local_key);
        },
        ReplicaWrite::UpdateReplica { local_key, mask, payload } => {
            push_u16(&mut out, *local_key);
            push_bytes(&mut out, mask);
            push_bytes(&mut out, payload);
            proof {
                assert(out@ =~= seq![type_byte] + (be16(*local_key) + mask@ + payload@));
            }
        },
        ReplicaWrite::CreateEntity { local_key, components } => {
            push_u16(&mut out, *local_key);
            match components {
                Some(cs) => {
                    out.push(cs.len() as u8);
                    let ghost head = out@;
                    let mut i: usize = 0;
                    while i < cs.len()
                        invariant
                            i <= cs@.len(),
                            out@ == head + components_bytes(cs@.take(i as int)),
                        decreases cs@.len() - i,
                    {
                        proof {
                            assert(cs@.take(i + 1).drop_last() =~= cs@.take(i as int));
                            assert(cs@.take(i + 1).last() == cs@[i as int]);
                        }
                        push_u16(&mut out, cs[i].naia_id);
                        push_u16(&mut out, cs[i].local_key);
                        push_bytes(&mut out, &cs[i].payload);
                        proof {
                            assert(out@ =~= head + components_bytes(cs@.take(i + 1)));
                        }
                        i += 1;
                    }
                    proof {
                        assert(cs@.take(cs@.len() as int) =~= cs@);
                        assert(out@ =~= seq![type_byte] + (be16(*local_key) + seq![cs@.len() as u8] + components_bytes(cs@)));
                    }
                },
                None => {
                    out.push(0u8);
                    proof {
                        assert(out@ =~= seq![type_byte] + (be16(*local_key) + seq![0u8]));
                    }
                },
            }
        },
        ReplicaWrite::DeleteEntity { local_key } => {
            push_u16(&mut out, *local_key);
        },
        ReplicaWrite::AssignPawnEntity { local_key } => {
            push_u16(&mut out, *local_key);
        },
        ReplicaWrite::UnassignPawnEntity { local_key } => {
            push_u16(&mut out, *local_key);
        },
        ReplicaWrite::AddComponent { entity_key, naia_id, component_key, payload } => {
            push_u16(&mut out, *entity_key);
            push_u16(&mut out, *naia_id);
            push_u16(&mut out, *component_key);
            push_bytes(&mut out, payload);
            proof {
                assert(out@ =~= seq![type_byte] + (be16(*entity_key) + be16(*naia_id) + be16(*component_key) + payload@));
            }
        },
    }
    out
}

/// Whether a packet already `packet_bytes` long, holding `action_count`
/// replica actions, takes one more of `action_len` bytes under the limit
/// `mtu`: the first action also brings the two-byte count, the packet must
/// stay strictly under the limit, and it never holds more than 255 actions.
pub open spec fn packet_takes(packet_bytes: int, action_count: u8, action_len: int, mtu: int) -> bool {
    let size = packet_bytes + action_len + if action_count == 0 { 2int } else { 0int };
    size < mtu && action_count != MAX_REPLICA_ACTIONS
}

/// Decides whether the packet takes the action; when it does, the packet's
/// count of replica actions goes up by one.
pub fn packet_takes_action(packet_bytes: usize, action_count: u8, action_len: usize, mtu: usize) -> (r: bool)
    ensures
        r == packet_takes(packet_bytes as int, action_count, action_len as int, mtu as int),
{
    let extra: usize = if action_count == 0 { 2 } else { 0 };
    if packet_bytes >= mtu || action_len >= mtu - packet_bytes || extra >= mtu - packet_bytes - action_len {
        return false;
    }
    action_count != MAX_REPLICA_ACTIONS
}

/// The key an action names first on the wire: the entity's for entity
/// actions and for a component added to an entity, the component's for a
/// component update or deletion.
pub open spec fn first_key(action: ReplicaWrite) -> u16 {
    match action {
        ReplicaWrite::DeleteReplica { local_key } => local_key,
        ReplicaWrite::UpdateReplica { local_key, .. } => local_key,
        ReplicaWrite::CreateEntity { local_key, .. } => local_key,
        ReplicaWrite::DeleteEntity { local_key } => local_key,
        ReplicaWrite::AssignPawnEntity { local_key } => local_key,
        ReplicaWrite::UnassignPawnEntity { local_key } => local_key,
        ReplicaWrite::AddComponent { entity_key, .. } => entity_key,
    }
}

/// Every action's bytes after its type byte start with its first key,
/// high byte first; key-only actions are exactly those two bytes; a
/// created entity follows its key with how many components come (0 when
/// none are sent along).
pub proof fn lemma_action_bytes_lead_with_key(action: ReplicaWrite)
    ensures
        replica_body(action).len() >= 2,
        replica_body(action)[0] == (first_key(action) / 256) as u8,
        replica_body(action)[1] == (first_key(action) % 256) as u8,
        (action is DeleteReplica || action is DeleteEntity || action is AssignPawnEntity || action is UnassignPawnEntity)
            ==> replica_body(action).len() == 2,
        action matches ReplicaWrite::CreateEntity { components, .. } ==> replica_body(action)[2] == match components {
            Some(cs) => cs@.len() as u8,
            None => 0u8,
        },
{
}

/// A packet takes an action only when it then stays strictly under the
/// limit, the first action counting two more bytes for the action count;
/// it never takes a 256th action, and otherwise takes every action that
/// fits.
pub proof fn lemma_packet_takes_what_fits(packet_bytes: int, action_count: u8, action_len: int, mtu: int)
    ensures
        action_count == 255 ==> !packet_takes(packet_bytes, action_count, action_len, mtu),
        action_count == 0 ==> (packet_takes(packet_bytes, action_count, action_len, mtu) <==> packet_bytes + action_len + 2
            < mtu),
        (action_count != 0 && action_count != 255) ==> (packet_takes(packet_bytes, action_count, action_len, mtu)
            <==> packet_bytes + action_len < mtu),
{
}

} // verus!
