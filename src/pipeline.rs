use vstd::prelude::*;

use crate::filter::{admits, Candidate, Filters, PeerAddr};
use crate::machine::InitiateSeed;

verus! {

/// Capacity of the queue of initiation requests.
pub const MAX_ADDR_BUFFER_SIZE: usize = 1000;

/// Capacity of the queue of sockets waiting for a handshake.
pub const MAX_HAND_BUFFER_SIZE: usize = 20;

/// Capacity of the queue of completed handshakes.
pub const MAX_SOCK_BUFFER_SIZE: usize = 20;

/// What the caller feeds into the address stage.
#[derive(Clone, Copy, Debug)]
pub enum InitiateMessage {
    /// Dial `addr` and handshake for `infohash`.
    Initiate(InitiateSeed),
    /// Close every stage.
    Shutdown,
}

/// What the address stage does with one message.
#[derive(Clone, Copy, Debug)]
pub enum InitiateDecision {
    /// Dial the peer; on success the socket goes to the handshake stage with this seed.
    Dial(InitiateSeed),
    /// A filter denied the request: drop it without an error.
    Drop,
    /// Stop the pipeline.
    Shutdown,
}

/// The candidate known before dialling: the address and the infohash.
pub open spec fn dial_candidate(seed: InitiateSeed) -> Candidate {
    Candidate { addr: seed.addr, hash: Some(seed.infohash), pid: None }
}

/// The candidate known when a peer connects: its address alone.
pub open spec fn accept_candidate(addr: PeerAddr) -> Candidate {
    Candidate { addr: addr, hash: None, pid: None }
}

/// The address stage's decision on one message.
pub fn decide_initiate(msg: &InitiateMessage, filters: &Filters) -> (r: InitiateDecision)
    ensures
        *msg is Shutdown ==> r is Shutdown,
        *msg matches InitiateMessage::Initiate(seed) ==> if admits(filters@, dial_candidate(seed)) {
            r == InitiateDecision::Dial(seed)
        } else {
            r is Drop
        },
{
    match msg {
        InitiateMessage::Initiate(seed) => {
            let c = Candidate { addr: seed.addr, hash: Some(seed.infohash), pid: None };
            if filters.evaluate(&c) {
                InitiateDecision::Dial(*seed)
            } else {
                InitiateDecision::Drop
            }
        },
        InitiateMessage::Shutdown => InitiateDecision::Shutdown,
    }
}

/// The listener stage's decision on an accepted socket: true to hand it to the
/// handshake stage, false to close it.
pub fn decide_accept(addr: PeerAddr, filters: &Filters) -> (r: bool)
    ensures
        r == admits(filters@, accept_candidate(addr)),
{
    let c = Candidate { addr: addr, hash: None, pid: None };
    filters.evaluate(&c)
}

} // verus!
