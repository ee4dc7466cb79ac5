//! Answers a connection's ping with a pong that echoes its index.

use byteorder::ByteOrder;

use vstd::prelude::*;

verus! {

/// byteorder's `BigEndian::read_u16`: the first two bytes of `buf` read as a
/// big-endian number. It panics on a shorter buffer, which `requires` rules out.
#[verifier::external_body]
pub(crate) fn read_u16_big_endian(buf: &[u8]) -> (r: u16)
    requires
        buf@.len() >= 2,
    ensures
        r == buf@[0] as int * 256 + buf@[1] as int,
{
    byteorder::BigEndian::read_u16(buf)
}

/// byteorder's `BigEndian::write_u16`: writes `n` big-endian into the first
/// two bytes of `buf`, leaving the rest. It panics on a shorter buffer, which
/// `requires` rules out.
#[verifier::external_body]
pub(crate) fn write_u16_big_endian(buf: &mut [u8], n: u16)
    requires
        old(buf)@.len() >= 2,
    ensures
        final(buf)@ == old(buf)@.update(0, (n / 256) as u8).update(1, (n % 256) as u8),
{
    byteorder::BigEndian::write_u16(buf, n)
}

/// Answers pings.
#[derive(Debug)]
pub struct PingManager {}

impl PingManager {
    /// A ping manager.
    pub fn new() -> (r: Self)
        ensures
            r == (PingManager {}),
    {
        PingManager {  }
    }

    /// The pong for a ping payload: the ping's 16-bit big-endian index, and
    /// nothing else. The payload must hold at least the index.
    pub fn process_ping(&self, ping_payload: &[u8]) -> (r: Vec<u8>)
        requires
            ping_payload@.len() >= 2,
        ensures
            r@ == ping_payload@.subrange(0, 2),
    {
        let ping_index = read_u16_big_endian(ping_payload);
        let mut out_bytes: Vec<u8> = vec![0u8, 0u8];
        write_u16_big_endian(out_bytes.as_mut_slice(), ping_index);
        proof {
            let b0 = ping_payload@[0];
            let b1 = ping_payload@[1];
            assert((ping_index / 256) as u8 == b0 && (ping_index % 256) as u8 == b1) by (nonlinear_arith)
                requires
                    ping_index == b0 as int * 256 + b1 as int,
            ;
            assert(out_bytes@ =~= ping_payload@.subrange(0, 2));
        }
        out_bytes
    }
}

} // verus!
