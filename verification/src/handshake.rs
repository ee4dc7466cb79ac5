//! The server's side of the connection handshake: what a connect request
//! leads to, and the answer to a challenge request, whose digest proves to
//! the server later that it issued the timestamp.

use vstd::prelude::*;

use crate::keys::UserKey;
use crate::ping_manager::write_u16_big_endian;

verus! {

/// What the server does with a client's connect request.
#[derive(Clone, Copy, PartialEq, Eq, Debug, Structural)]
pub enum ConnectDecision {
    /// The address already has a connection made with the same timestamp:
    /// answer with the connect-accept again.
    Reaccept(UserKey),
    /// The address has a connection made with another timestamp: queue its
    /// user for disconnection.
    Disconnect(UserKey),
    /// The address has a user but no connection: drop the request.
    Ignore,
    /// The digest does not verify, or authentication refuses the user: drop
    /// the request.
    Reject,
    /// A new user: register it, connect it and answer with the
    /// connect-accept.
    Accept,
}

/// The decision for a connect request from an address with user `known`
/// (if any), whose connection exists (`has_connection`) and was made with
/// the request's timestamp (`same_timestamp`); for an unknown address,
/// whether the timestamp's digest verifies and whether the user is
/// authorized.
pub open spec fn connect_decision(
    known: Option<UserKey>,
    has_connection: bool,
    same_timestamp: bool,
    digest_ok: bool,
    authorized: bool,
) -> ConnectDecision {
    match known {
        Some(u) =>
            if !has_connection {
                ConnectDecision::Ignore
            } else if same_timestamp {
                ConnectDecision::Reaccept(u)
            } else {
                ConnectDecision::Disconnect(u)
            },
        None =>
            if digest_ok && authorized {
                ConnectDecision::Accept
            } else {
                ConnectDecision::Reject
            },
    }
}

/// `decision` is what a connect request should lead to. From an address
/// with a user: nothing without a connection; with one, the timestamp alone
/// decides, the connect-accept being sent again for the same timestamp and
/// the user being disconnected for another, whatever the digest and the
/// authorization say. From a new address: acceptance exactly when the
/// digest verifies and the user is authorized, refusal otherwise.
pub open spec fn decided_as_meant(
    known: Option<UserKey>,
    has_connection: bool,
    same_timestamp: bool,
    digest_ok: bool,
    authorized: bool,
    decision: ConnectDecision,
) -> bool {
    match known {
        Some(u) => {
            &&& !has_connection ==> decision == ConnectDecision::Ignore
            &&& (has_connection && same_timestamp) ==> decision == ConnectDecision::Reaccept(u)
            &&& (has_connection && !same_timestamp) ==> decision == ConnectDecision::Disconnect(u)
        },
        None => {
            &&& (digest_ok && authorized) ==> decision == ConnectDecision::Accept
            &&& !(digest_ok && authorized) ==> decision == ConnectDecision::Reject
        },
    }
}

/// A connect request from a known, connected user is decided by its
/// timestamp alone: changing the digest's verdict or the authorization
/// changes nothing, the same timestamp re-accepts that user and another
/// disconnects it. A new address is accepted only with a verified digest
/// and an authorized user.
pub proof fn lemma_known_users_decided_by_timestamp(
    u: UserKey,
    same_timestamp: bool,
    digest_ok: bool,
    authorized: bool,
    digest_ok2: bool,
    authorized2: bool,
)
    ensures
        connect_decision(Some(u), true, same_timestamp, digest_ok, authorized) == connect_decision(
            Some(u),
            true,
            same_timestamp,
            digest_ok2,
            authorized2,
        ),
        connect_decision(Some(u), true, true, digest_ok, authorized) == ConnectDecision::Reaccept(u),
        connect_decision(Some(u), true, false, digest_ok, authorized) == ConnectDecision::Disconnect(u),
        connect_decision(Some(u), false, same_timestamp, digest_ok, authorized) == ConnectDecision::Ignore,
        (connect_decision(None, false, same_timestamp, digest_ok, authorized) == ConnectDecision::Accept) == (digest_ok
            && authorized),
        decided_as_meant(
            Some(u),
            true,
            same_timestamp,
            digest_ok,
            authorized,
            connect_decision(Some(u), true, same_timestamp, digest_ok, authorized),
        ),
{
}

/// Decides what a connect request leads to.
pub fn decide_connect_request(
    known: Option<UserKey>,
    has_connection: bool,
    same_timestamp: bool,
    digest_ok: bool,
    authorized: bool,
) -> (r: ConnectDecision)
    ensures
        r == connect_decision(known, has_connection, same_timestamp, digest_ok, authorized),
        decided_as_meant(known, has_connection, same_timestamp, digest_ok, authorized, r),
{
    match known {
        Some(u) => {
            if !has_connection {
                ConnectDecision::Ignore
            } else if same_timestamp {
                ConnectDecision::Reaccept(u)
            } else {
                ConnectDecision::Disconnect(u)
            }
        },
        None => {
            if digest_ok && authorized {
                ConnectDecision::Accept
            } else {
                ConnectDecision::Reject
            }
        },
    }
}

/// The answer to a challenge request: the server's current tick as two
/// big-endian bytes, the client's timestamp bytes, then the digest the
/// server computed over them.
pub fn challenge_response_payload(tick: u16, timestamp_bytes: &Vec<u8>, digest: &Vec<u8>) -> (r: Vec<u8>)
    ensures
        r@ == seq![(tick / 256) as u8, (tick % 256) as u8] + timestamp_bytes@ + digest@,
{
    let mut out: Vec<u8> = vec![0u8, 0u8];
    write_u16_big_endian(out.as_mut_slice(), tick);
    let ghost head = out@;
    proof {
        assert(head =~= seq![(tick / 256) as u8, (tick % 256) as u8]);
    }
    let mut i: usize = 0;
    while i < timestamp_bytes.len()
        invariant
            i <= timestamp_bytes@.len(),
            out@ == head + timestamp_bytes@.take(i as int),
        decreases timestamp_bytes@.len() - i,
    {
        out.push(timestamp_bytes[i]);
        proof {
            assert(timestamp_bytes@.take(i + 1) =~= timestamp_bytes@.take(i as int).push(timestamp_bytes@[i as int]));
            assert(out@ =~= head + timestamp_bytes@.take(i + 1));
        }
        i += 1;
    }
    proof {
        assert(timestamp_bytes@.take(timestamp_bytes@.len() as int) =~= timestamp_bytes@);
    }
    let ghost mid = out@;
    let mut j: usize = 0;
    while j < digest.len()
        invariant
            j <= digest@.len(),
            out@ == mid + digest@.take(j as int),
        decreases digest@.len() - j,
    {
        out.push(digest[j]);
        proof {
            assert(digest@.take(j + 1) =~= digest@.take(j as int).push(digest@[j as int]));
            assert(out@ =~= mid + digest@.take(j + 1));
        }
        j += 1;
    }
    proof {
        assert(digest@.take(digest@.len() as int) =~= digest@);
    }
    out
}

/// The HMAC-SHA256 tag of `data` under the key whose bytes are `key`, as
/// ring computes it.
pub uninterp spec fn hmac_sha256_tag(key: Seq<u8>, data: Seq<u8>) -> Seq<u8>;

/// How many bytes a handshake key has: the output length of SHA-256, as
/// ring's `hmac::Key::generate` draws for it.
pub const KEY_LEN: usize = 32;

/// The longest input that SHA-256 hashes is below this many bytes.
pub const MAX_HASHED_LEN: u64 = 0x1000_0000_0000_0000;

/// ring's `SecureRandom::fill` on the system's random source: `len` random
/// bytes, or `None` when the random source fails. The bytes are random, so
/// only their number is stated.
#[verifier::external_body]
fn random_bytes(len: usize) -> (r: Option<Vec<u8>>)
    ensures
        r matches Some(v) ==> v@.len() == len,
{
    let mut bytes = vec![0u8; len];
    match ring::rand::SecureRandom::fill(&ring::rand::SystemRandom::new(), bytes.as_mut_slice()) {
        Ok(()) => Some(bytes),
        Err(_) => None,
    }
}

/// ring's `hmac::sign` with SHA-256, under the key made by `hmac::Key::new`
/// from `key`: the tag of `data`, 32 bytes long. Keys of at most one block
/// are taken as they are, and `sign` panics only on input too long to hash;
/// `requires` rules both out.
#[verifier::external_body]
fn hmac_sign(key: &Vec<u8>, data: &Vec<u8>) -> (r: Vec<u8>)
    requires
        key@.len() <= 64,
        data@.len() < MAX_HASHED_LEN,
    ensures
        r@ == hmac_sha256_tag(key@, data@),
        r@.len() == 32,
{
    let key = ring::hmac::Key::new(ring::hmac::HMAC_SHA256, key.as_slice());
    ring::hmac::sign(&key, data.as_slice()).as_ref().to_vec()
}

/// ring's `hmac::verify` with SHA-256, under the key made by
/// `hmac::Key::new` from `key`: whether `tag` is the tag of `data`, that is
/// what `hmac::sign` gives for them.
#[verifier::external_body]
fn hmac_verify(key: &Vec<u8>, data: &Vec<u8>, tag: &Vec<u8>) -> (r: bool)
    requires
        key@.len() <= 64,
        data@.len() < MAX_HASHED_LEN,
    ensures
        r == (tag@ == hmac_sha256_tag(key@, data@)),
{
    let key = ring::hmac::Key::new(ring::hmac::HMAC_SHA256, key.as_slice());
    ring::hmac::verify(&key, data.as_slice(), tag.as_slice()).is_ok()
}

/// The server's secret for the handshake: timestamps it answers with a
/// digest under this key are the ones it accepts connect requests for.
pub struct ChallengeKey {
    connection_hash_key: Vec<u8>,
}

impl View for ChallengeKey {
    type V = Seq<u8>;

    /// The key's bytes.
    closed spec fn view(&self) -> Seq<u8> {
        self.connection_hash_key@
    }
}

impl ChallengeKey {
    /// A well-formed key has SHA-256's output length.
    pub closed spec fn wf(&self) -> bool {
        self@.len() == KEY_LEN
    }

    /// A fresh random key, or `None` when the random source fails.
    pub fn new() -> (r: Option<ChallengeKey>)
        ensures
            r matches Some(k) ==> k.wf(),
    {
        match random_bytes(KEY_LEN) {
            Some(bytes) => Some(ChallengeKey { connection_hash_key: bytes }),
            None => None,
        }
    }

    /// The answer to a challenge request carrying `timestamp_bytes`: the
    /// tick (two big-endian bytes), the timestamp bytes, then the digest of
    /// the timestamp under this key.
    pub fn challenge_response(&self, tick: u16, timestamp_bytes: &Vec<u8>) -> (r: Vec<u8>)
        requires
            self.wf(),
            timestamp_bytes@.len() < MAX_HASHED_LEN,
        ensures
            r@ == seq![(tick / 256) as u8, (tick % 256) as u8] + timestamp_bytes@
                + hmac_sha256_tag(self@, timestamp_bytes@),
            r@.len() == 2 + timestamp_bytes@.len() + 32,
    {
        let digest = hmac_sign(&self.connection_hash_key, timestamp_bytes);
        challenge_response_payload(tick, timestamp_bytes, &digest)
    }

    /// The decision for a connect request. For an address with a user it
    /// follows the user's connection and timestamp; for a new address the
    /// request is accepted only if `digest` is this key's digest of
    /// `timestamp_bytes` and the user is `authorized`.
    pub fn connect_request(
        &self,
        known: Option<UserKey>,
        has_connection: bool,
        same_timestamp: bool,
        timestamp_bytes: &Vec<u8>,
        digest: &Vec<u8>,
        authorized: bool,
    ) -> (r: ConnectDecision)
        requires
            self.wf(),
            timestamp_bytes@.len() < MAX_HASHED_LEN,
        ensures
            r == connect_decision(
                known,
                has_connection,
                same_timestamp,
                known is None && digest@ == hmac_sha256_tag(self@, timestamp_bytes@),
                authorized,
            ),
            decided_as_meant(
                known,
                has_connection,
                same_timestamp,
                digest@ == hmac_sha256_tag(self@, timestamp_bytes@),
                authorized,
                r,
            ),
    {
        let digest_ok = match known {
            Some(_) => false,
            None => hmac_verify(&self.connection_hash_key, timestamp_bytes, digest),
        };
        decide_connect_request(known, has_connection, same_timestamp, digest_ok, authorized)
    }
}

/// A digest a key answers a challenge with is the one the same key accepts
/// a connect request for: the server takes back exactly the timestamps it
/// answered, and a digest that differs from its answer is refused.
pub proof fn lemma_answered_digest_is_accepted(
    key: Seq<u8>,
    timestamp: Seq<u8>,
    answered: Seq<u8>,
    presented: Seq<u8>,
    authorized: bool,
)
    requires
        answered == hmac_sha256_tag(key, timestamp),
    ensures
        connect_decision(None, false, false, presented == hmac_sha256_tag(key, timestamp), authorized)
            == (if presented == answered && authorized { ConnectDecision::Accept } else { ConnectDecision::Reject }),
{
}

} // verus!
