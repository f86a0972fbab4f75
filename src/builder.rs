use vstd::prelude::*;

use crate::bytes::{Extensions, PeerId};
use crate::filter::PeerAddr;

verus! {

/// The 20-byte SHA-1 digest of a byte sequence.
pub uninterp spec fn sha1_digest(b: Seq<u8>) -> Seq<u8>;

/// The four bytes of a 32-bit value, most significant first.
pub open spec fn be_bytes(n: u32) -> Seq<u8> {
    seq![(n >> 24u32) as u8, (n >> 16u32) as u8, (n >> 8u32) as u8, n as u8]
}

/// Relies on rand::random: a value drawn from the thread-local generator. Nothing
/// is known of it.
#[verifier::external_body]
fn random_u32() -> (r: u32) {
    rand::random::<u32>()
}

/// Relies on bip_util::convert::four_bytes_to_array: the bytes of a u32, big-endian.
#[verifier::external_body]
fn four_bytes_to_array(n: u32) -> (r: [u8; 4])
    ensures
        r@ == be_bytes(n),
{
    bip_util::convert::four_bytes_to_array(n)
}

/// Relies on bip_util's PeerId::from_bytes: the SHA-1 digest of the given bytes.
#[verifier::external_body]
fn peer_id_from_bytes(b: &[u8]) -> (r: PeerId)
    ensures
        r@ == sha1_digest(b@),
{
    let hash: [u8; 20] = bip_util::bt::PeerId::from_bytes(b).into();
    PeerId(hash)
}

/// The peer id derived from a seed: the digest of its four big-endian bytes.
pub fn peer_id_from_seed(seed: u32) -> (r: PeerId)
    ensures
        r@ == sha1_digest(be_bytes(seed)),
{
    let bytes = four_bytes_to_array(seed);
    peer_id_from_bytes(bytes.as_slice())
}

/// The unspecified IPv4 address with port 0 (any free port).
pub open spec fn default_bind() -> PeerAddr {
    PeerAddr { v6: false, ip: 0, port: 0 }
}

/// Build configuration of a handshaker.
#[derive(Clone, Copy, Debug)]
pub struct HandshakerBuilder {
    pub bind: PeerAddr,
    pub port: u16,
    pub pid: PeerId,
    pub ext: Extensions,
}

impl HandshakerBuilder {
    /// The default configuration: listen on the unspecified IPv4 address on any free
    /// port, advertise the bound port, a peer id derived from a random seed, and no
    /// extensions.
    pub fn new() -> (r: HandshakerBuilder)
        ensures
            r.bind == default_bind(),
            r.port == 0,
            exists|seed: u32| r.pid@ == sha1_digest(be_bytes(seed)),
            r.ext@ == Seq::new(8, |i: int| 0u8),
    {
        let seed = random_u32();
        HandshakerBuilder {
            bind: PeerAddr { v6: false, ip: 0, port: 0 },
            port: 0,
            pid: peer_id_from_seed(seed),
            ext: Extensions::new(),
        }
    }

    /// Address that the host will listen on.
    pub fn with_bind_addr(&mut self, addr: PeerAddr)
        ensures
            *final(self) == (HandshakerBuilder { bind: addr, ..*old(self) }),
    {
        self.bind = addr;
    }

    /// Port that external peers should connect on; 0 advertises the bound port.
    pub fn with_open_port(&mut self, port: u16)
        ensures
            *final(self) == (HandshakerBuilder { port: port, ..*old(self) }),
    {
        self.port = port;
    }

    /// Peer id advertised when handshaking with other peers.
    pub fn with_peer_id(&mut self, peer_id: PeerId)
        ensures
            *final(self) == (HandshakerBuilder { pid: peer_id, ..*old(self) }),
    {
        self.pid = peer_id;
    }

    /// Extensions supported by our client, advertised to the peer when handshaking.
    pub fn with_extensions(&mut self, ext: Extensions)
        ensures
            *final(self) == (HandshakerBuilder { ext: ext, ..*old(self) }),
    {
        self.ext = ext;
    }

    /// The port to advertise once the listener is bound to `bound_port`: the
    /// configured one, or the bound one where none was configured.
    pub fn advertised_port(&self, bound_port: u16) -> (r: u16)
        ensures
            r == if self.port == 0 { bound_port } else { self.port },
    {
        if self.port == 0 {
            bound_port
        } else {
            self.port
        }
    }
}

} // verus!
