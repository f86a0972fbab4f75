use vstd::prelude::*;

use crate::bytes::{and_bytes, Extensions, InfoHash, PeerId};
use crate::filter::{admits, Candidate, Filters, PeerAddr};
use crate::wire::{
    check_header, copy_bytes, handshake_bytes, header_bytes, take20, take8, valid_header,
    write_header, HEADER_LEN,
};

verus! {

/// Why a handshake was abandoned. None of these reaches the user: the socket is
/// closed and no completed handshake is produced.
#[derive(Clone, Copy, Debug, PartialEq, Eq, Structural)]
pub enum HandshakeError {
    /// The header's length byte or protocol name is wrong.
    BadProtocol,
    /// The remote side answered with another infohash than the one we sent.
    InfoHashMismatch,
    /// A read or write failed, or a read came back short.
    IoError,
    /// The handshake's deadline passed.
    Timeout,
    /// A filter denied the handshake.
    Filtered,
}

/// A request to handshake with a peer for a torrent.
#[derive(Clone, Copy, Debug)]
pub struct InitiateSeed {
    pub infohash: InfoHash,
    pub addr: PeerAddr,
}

/// Where a handshake stands.
#[derive(Clone, Copy, Debug, PartialEq, Eq, Structural)]
pub enum Stage {
    SendHeader,
    SendInfoHash,
    SendPeerId,
    RecvHeader,
    RecvInfoHash,
    RecvPeerId,
    Done,
    Failed(HandshakeError),
}

/// A handshake that went through.
#[derive(Clone, Copy, Debug)]
pub struct CompleteMessage {
    pub initiated_by_us: bool,
    pub addr: PeerAddr,
    pub infohash: InfoHash,
    pub peer_id: PeerId,
    pub extensions: Extensions,
}

/// What the driver of a handshake does next.
pub enum Action {
    /// Write these bytes to the socket, then call `on_sent`.
    Send(Vec<u8>),
    /// Read exactly this many bytes, then call `on_received` with them.
    Receive(usize),
    /// The handshake is done: hand the socket to the consumer.
    Complete(CompleteMessage),
    /// Close the socket.
    Close(HandshakeError),
}

pub open spec fn is_send(s: Stage) -> bool {
    s is SendHeader || s is SendInfoHash || s is SendPeerId
}

pub open spec fn is_recv(s: Stage) -> bool {
    s is RecvHeader || s is RecvInfoHash || s is RecvPeerId
}

/// Where in the 68-byte handshake the piece that a stage moves starts.
pub open spec fn offset(s: Stage) -> int {
    match s {
        Stage::SendHeader | Stage::RecvHeader => 0,
        Stage::SendInfoHash | Stage::RecvInfoHash => 28,
        Stage::SendPeerId | Stage::RecvPeerId => 48,
        _ => 68,
    }
}

/// Length of the piece that a send or receive stage moves.
pub open spec fn piece_len(s: Stage) -> int {
    if s is SendHeader || s is RecvHeader { 28 } else { 20 }
}

/// How many bytes have gone out when a handshake is in the given stage.
pub open spec fn sent_len(initiated: bool, s: Stage) -> int {
    if is_send(s) {
        offset(s)
    } else if s is Done || initiated {
        68
    } else {
        0
    }
}

/// How many bytes have come in when a handshake is in the given stage.
pub open spec fn recv_len(initiated: bool, s: Stage) -> int {
    if is_recv(s) {
        offset(s)
    } else if s is Done || !initiated {
        68
    } else {
        0
    }
}

/// The stage after a send stage has written its piece.
pub open spec fn after_send(initiated: bool, s: Stage) -> Stage {
    match s {
        Stage::SendHeader => Stage::SendInfoHash,
        Stage::SendInfoHash => Stage::SendPeerId,
        _ => if initiated { Stage::RecvHeader } else { Stage::Done },
    }
}

/// The per-socket handshake state machine. The driver asks `action` what to do,
/// does it, and reports back through `on_sent`, `on_received` or `on_failure`.
pub struct HandshakeMachine {
    /// Whether we dialled the peer (and so send first).
    pub initiated: bool,
    /// The request that started an outgoing handshake.
    pub seed: Option<InitiateSeed>,
    pub stage: Stage,
    pub addr: PeerAddr,
    pub local_ext: Extensions,
    pub local_pid: PeerId,
    /// The torrent: the one requested when we dial, the one received when we accept.
    pub infohash: InfoHash,
    pub remote_ext: Extensions,
    pub remote_pid: PeerId,
    /// Every byte written so far.
    pub sent: Ghost<Seq<u8>>,
    /// Every byte read so far.
    pub received: Ghost<Seq<u8>>,
}

impl HandshakeMachine {
    /// The 68 bytes we send.
    pub open spec fn local_bytes(&self) -> Seq<u8> {
        handshake_bytes(self.local_ext@, self.infohash@, self.local_pid@)
    }

    /// The 68 bytes the peer sends.
    pub open spec fn remote_bytes(&self) -> Seq<u8> {
        handshake_bytes(self.remote_ext@, self.infohash@, self.remote_pid@)
    }

    pub open spec fn wf(&self) -> bool {
        &&& self.initiated == (self.seed is Some)
        &&& self.initiated ==> self.infohash@ == self.seed->0.infohash@ && self.addr == self.seed->0.addr
        &&& !(self.stage is Failed) ==> {
            &&& self.sent@ == self.local_bytes().take(sent_len(self.initiated, self.stage))
            &&& self.received@ == self.remote_bytes().take(recv_len(self.initiated, self.stage))
        }
    }

    /// The handshake's completion record, as the consumer receives it.
    pub open spec fn completion(&self, m: CompleteMessage) -> bool {
        &&& m.initiated_by_us == self.initiated
        &&& m.addr == self.addr
        &&& m.infohash@ == self.infohash@
        &&& m.peer_id@ == self.remote_pid@
        &&& m.extensions@ == and_bytes(self.local_ext@, self.remote_ext@)
    }

    /// A handshake that we open by dialling `seed.addr`: we send first.
    pub fn initiate(seed: InitiateSeed, ext: Extensions, pid: PeerId) -> (r: HandshakeMachine)
        ensures
            r.wf(),
            r.initiated,
            r.seed == Some(seed),
            r.stage == Stage::SendHeader,
            r.addr == seed.addr,
            r.infohash@ == seed.infohash@,
            r.local_ext@ == ext@,
            r.local_pid@ == pid@,
            r.sent@.len() == 0,
            r.received@.len() == 0,
    {
        let r = HandshakeMachine {
            initiated: true,
            seed: Some(seed),
            stage: Stage::SendHeader,
            addr: seed.addr,
            local_ext: ext,
            local_pid: pid,
            infohash: seed.infohash,
            remote_ext: Extensions([0u8; 8]),
            remote_pid: PeerId([0u8; 20]),
            sent: Ghost(Seq::empty()),
            received: Ghost(Seq::empty()),
        };
        assert(r.local_bytes().take(0) =~= Seq::<u8>::empty());
        assert(r.remote_bytes().take(0) =~= Seq::<u8>::empty());
        r
    }

    /// A handshake on a socket that the peer at `addr` opened: we read first.
    pub fn accept(addr: PeerAddr, ext: Extensions, pid: PeerId) -> (r: HandshakeMachine)
        ensures
            r.wf(),
            !r.initiated,
            r.stage == Stage::RecvHeader,
            r.addr == addr,
            r.local_ext@ == ext@,
            r.local_pid@ == pid@,
            r.sent@.len() == 0,
            r.received@.len() == 0,
    {
        let r = HandshakeMachine {
            initiated: false,
            seed: None,
            stage: Stage::RecvHeader,
            addr: addr,
            local_ext: ext,
            local_pid: pid,
            infohash: InfoHash([0u8; 20]),
            remote_ext: Extensions([0u8; 8]),
            remote_pid: PeerId([0u8; 20]),
            sent: Ghost(Seq::empty()),
            received: Ghost(Seq::empty()),
        };
        assert(r.local_bytes().take(0) =~= Seq::<u8>::empty());
        assert(r.remote_bytes().take(0) =~= Seq::<u8>::empty());
        r
    }

    /// What to do next in the current stage.
    pub fn action(&self) -> (r: Action)
        requires
            self.wf(),
        ensures
            is_send(self.stage) ==> (r matches Action::Send(b)
                && b@ == self.local_bytes().subrange(offset(self.stage), offset(self.stage) + piece_len(self.stage))),
            is_recv(self.stage) ==> r == Action::Receive(piece_len(self.stage) as usize),
            self.stage is Done ==> (r matches Action::Complete(m) && self.completion(m)),
            self.stage matches Stage::Failed(e) ==> r == Action::Close(e),
    {
        let ghost full = self.local_bytes();
        match self.stage {
            Stage::SendHeader => {
                let b = write_header(&self.local_ext);
                assert(b@ =~= full.subrange(0, 28));
                Action::Send(b)
            },
            Stage::SendInfoHash => {
                let b = copy_bytes(self.infohash.0.as_slice());
                assert(b@ =~= full.subrange(28, 48));
                Action::Send(b)
            },
            Stage::SendPeerId => {
                let b = copy_bytes(self.local_pid.0.as_slice());
                assert(b@ =~= full.subrange(48, 68));
                Action::Send(b)
            },
            Stage::RecvHeader => Action::Receive(HEADER_LEN),
            Stage::RecvInfoHash => Action::Receive(20),
            Stage::RecvPeerId => Action::Receive(20),
            Stage::Done => Action::Complete(CompleteMessage {
                initiated_by_us: self.initiated,
                addr: self.addr,
                infohash: self.infohash,
                peer_id: self.remote_pid,
                extensions: self.local_ext.intersect(&self.remote_ext),
            }),
            Stage::Failed(e) => Action::Close(e),
        }
    }

    /// The piece of the current send stage has been written.
    pub fn on_sent(&mut self)
        requires
            old(self).wf(),
            is_send(old(self).stage),
        ensures
            final(self).wf(),
            final(self).stage == after_send(old(self).initiated, old(self).stage),
            final(self).sent@ == old(self).sent@ + old(self).local_bytes().subrange(
                offset(old(self).stage),
                offset(old(self).stage) + piece_len(old(self).stage),
            ),
            final(self).received@ == old(self).received@,
            final(self).initiated == old(self).initiated,
            final(self).seed == old(self).seed,
            final(self).addr == old(self).addr,
            final(self).infohash == old(self).infohash,
            final(self).local_ext == old(self).local_ext,
            final(self).local_pid == old(self).local_pid,
            final(self).remote_ext == old(self).remote_ext,
            final(self).remote_pid == old(self).remote_pid,
    {
        let ghost full = self.local_bytes();
        let ghost start = offset(self.stage);
        let ghost piece = full.subrange(start, start + piece_len(self.stage));
        let next = match self.stage {
            Stage::SendHeader => Stage::SendInfoHash,
            Stage::SendInfoHash => Stage::SendPeerId,
            _ => if self.initiated { Stage::RecvHeader } else { Stage::Done },
        };
        proof {
            assert(full.take(start) + piece =~= full.take(start + piece_len(self.stage)));
            self.sent = Ghost(self.sent@ + piece);
        }
        self.stage = next;
        proof {
            assert(full.take(68) =~= full);
        }
    }

    /// The piece asked for by the current receive stage has come in as `buf`.
    /// Checks it, records it, and consults the filters where the stage calls for it.
    pub fn on_received(&mut self, buf: &[u8], filters: &Filters)
        requires
            old(self).wf(),
            is_recv(old(self).stage),
        ensures
            final(self).wf(),
            final(self).initiated == old(self).initiated,
            final(self).seed == old(self).seed,
            final(self).addr == old(self).addr,
            final(self).local_ext == old(self).local_ext,
            final(self).local_pid == old(self).local_pid,
            final(self).sent@ == old(self).sent@,
            !(final(self).stage is Failed) ==> final(self).received@ == old(self).received@ + buf@,
            buf@.len() != piece_len(old(self).stage) ==> final(self).stage == Stage::Failed(HandshakeError::IoError),
            buf@.len() == piece_len(old(self).stage) && old(self).stage is RecvHeader ==> {
                &&& valid_header(buf@) ==> final(self).stage == Stage::RecvInfoHash
                    && final(self).remote_ext@ == buf@.subrange(20, 28)
                &&& !valid_header(buf@) ==> final(self).stage == Stage::Failed(HandshakeError::BadProtocol)
            },
            buf@.len() == piece_len(old(self).stage) && old(self).stage is RecvInfoHash && old(self).initiated ==> {
                &&& final(self).infohash == old(self).infohash
                &&& buf@ == old(self).infohash@ ==> final(self).stage == Stage::RecvPeerId
                &&& buf@ != old(self).infohash@ ==> final(self).stage == Stage::Failed(HandshakeError::InfoHashMismatch)
            },
            buf@.len() == piece_len(old(self).stage) && old(self).stage is RecvInfoHash && !old(self).initiated ==> {
                &&& final(self).infohash@ == buf@
                &&& final(self).stage == if admits(filters@, (Candidate { addr: old(self).addr, hash: Some(final(self).infohash), pid: None })) {
                    Stage::RecvPeerId
                } else {
                    Stage::Failed(HandshakeError::Filtered)
                }
            },
            buf@.len() == piece_len(old(self).stage) && old(self).stage is RecvPeerId ==> {
                &&& final(self).infohash == old(self).infohash
                &&& final(self).remote_ext == old(self).remote_ext
                &&& final(self).remote_pid@ == buf@
                &&& final(self).stage == if admits(filters@, (Candidate {
                    addr: old(self).addr,
                    hash: Some(old(self).infohash),
                    pid: Some(final(self).remote_pid),
                })) {
                    if old(self).initiated { Stage::Done } else { Stage::SendHeader }
                } else {
                    Stage::Failed(HandshakeError::Filtered)
                }
            },
    {
        match self.stage {
            Stage::RecvHeader => {
                if buf.len() != HEADER_LEN {
                    self.stage = Stage::Failed(HandshakeError::IoError);
                } else if !check_header(buf) {
                    self.stage = Stage::Failed(HandshakeError::BadProtocol);
                } else {
                    self.remote_ext = Extensions(take8(buf, 20));
                    proof {
                        assert(buf@ =~= header_bytes(self.remote_ext@));
                        assert(self.remote_bytes().take(28) =~= buf@);
                        assert(self.received@ =~= Seq::<u8>::empty());
                        self.received = Ghost(self.received@ + buf@);
                    }
                    self.stage = Stage::RecvInfoHash;
                }
            },
            Stage::RecvInfoHash => {
                if buf.len() != 20 {
                    self.stage = Stage::Failed(HandshakeError::IoError);
                } else if self.initiated {
                    let got = InfoHash(take20(buf));
                    assert(got@ =~= buf@);
                    if !got.same(&self.infohash) {
                        self.stage = Stage::Failed(HandshakeError::InfoHashMismatch);
                    } else {
                        proof {
                            assert(self.remote_bytes().take(48) =~= self.remote_bytes().take(28) + buf@);
                            self.received = Ghost(self.received@ + buf@);
                        }
                        self.stage = Stage::RecvPeerId;
                    }
                } else {
                    let ghost before = self.remote_bytes().take(28);
                    assert(self.local_bytes().take(0) =~= Seq::<u8>::empty());
                    self.infohash = InfoHash(take20(buf));
                    assert(self.local_bytes().take(0) =~= Seq::<u8>::empty());
                    assert(self.infohash@ =~= buf@);
                    let c = Candidate { addr: self.addr, hash: Some(self.infohash), pid: None };
                    if filters.evaluate(&c) {
                        proof {
                            assert(self.remote_bytes().take(28) =~= before);
                            assert(self.remote_bytes().take(48) =~= self.remote_bytes().take(28) + buf@);
                            self.received = Ghost(self.received@ + buf@);
                        }
                        self.stage = Stage::RecvPeerId;
                    } else {
                        self.stage = Stage::Failed(HandshakeError::Filtered);
                    }
                }
            },
            _ => {
                if buf.len() != 20 {
                    self.stage = Stage::Failed(HandshakeError::IoError);
                } else {
                    let ghost before = self.remote_bytes().take(48);
                    self.remote_pid = PeerId(take20(buf));
                    assert(self.remote_pid@ =~= buf@);
                    let c = Candidate { addr: self.addr, hash: Some(self.infohash), pid: Some(self.remote_pid) };
                    if filters.evaluate(&c) {
                        proof {
                            assert(self.remote_bytes().take(48) =~= before);
                            assert(self.remote_bytes().take(68) =~= self.remote_bytes());
                            assert(self.remote_bytes() =~= self.remote_bytes().take(48) + buf@);
                            self.received = Ghost(self.received@ + buf@);
                        }
                        if self.initiated {
                            self.stage = Stage::Done;
                        } else {
                            proof {
                                assert(self.local_bytes().take(0) =~= Seq::<u8>::empty());
                            }
                            self.stage = Stage::SendHeader;
                        }
                    } else {
                        self.stage = Stage::Failed(HandshakeError::Filtered);
                    }
                }
            },
        }
    }

    /// A read or write failed, or the deadline passed: the handshake is abandoned,
    /// unless it was already done.
    pub fn on_failure(&mut self, e: HandshakeError)
        requires
            old(self).wf(),
        ensures
            final(self).wf(),
            old(self).stage is Done ==> final(self).stage == old(self).stage,
            !(old(self).stage is Done) ==> final(self).stage == Stage::Failed(e),
            final(self).initiated == old(self).initiated,
            final(self).seed == old(self).seed,
            final(self).addr == old(self).addr,
            final(self).infohash == old(self).infohash,
            final(self).local_ext == old(self).local_ext,
            final(self).local_pid == old(self).local_pid,
            final(self).remote_ext == old(self).remote_ext,
            final(self).remote_pid == old(self).remote_pid,
            final(self).sent@ == old(self).sent@,
            final(self).received@ == old(self).received@,
    {
        if self.stage != Stage::Done {
            self.stage = Stage::Failed(e);
        }
    }
}

/// A finished handshake has moved exactly 68 bytes each way: the whole handshake
/// we send, and the whole handshake the peer sends.
pub proof fn lemma_done_exchanged_whole_handshakes(m: HandshakeMachine)
    requires
        m.wf(),
        m.stage is Done,
    ensures
        m.sent@ == m.local_bytes(),
        m.received@ == m.remote_bytes(),
        m.sent@.len() == 68,
        m.received@.len() == 68,
{
    assert(m.local_bytes().take(68) =~= m.local_bytes());
    assert(m.remote_bytes().take(68) =~= m.remote_bytes());
}

/// The record of a finished handshake carries, as its extensions, the bitwise AND
/// of our extensions and the reserved bytes the peer sent.
pub proof fn lemma_completion_extensions(m: HandshakeMachine, msg: CompleteMessage)
    requires
        m.wf(),
        m.stage is Done,
        m.completion(msg),
    ensures
        msg.extensions@ == and_bytes(m.local_ext@, m.received@.subrange(20, 28)),
{
    assert(m.remote_bytes().take(68) =~= m.remote_bytes());
    assert(m.received@.subrange(20, 28) =~= m.remote_ext@);
}

/// The record of a finished handshake that we dialled names the infohash and the
/// address of the request that started it.
pub proof fn lemma_initiated_completion_matches_seed(m: HandshakeMachine, msg: CompleteMessage)
    requires
        m.wf(),
        m.initiated,
        m.completion(msg),
    ensures
        m.seed matches Some(s) && msg.infohash@ == s.infohash@ && msg.addr == s.addr,
        msg.initiated_by_us,
{
}

} // verus!
