use bip_handshake::bytes::{Extensions, InfoHash, PeerId};
use bip_handshake::filter::{FilterKey, Filters, HandshakeFilter, PeerAddr};
use bip_handshake::machine::{Action, CompleteMessage, HandshakeError, HandshakeMachine, InitiateSeed, Stage};
use bip_handshake::wire::write_handshake;

fn addr() -> PeerAddr {
    PeerAddr { v6: false, ip: 0x7f00_0001, port: 6881 }
}

fn remote_handshake(ext: [u8; 8], hash: [u8; 20], pid: [u8; 20]) -> Vec<u8> {
    let mut v = vec![19u8];
    v.extend_from_slice(b"BitTorrent protocol");
    v.extend_from_slice(&ext);
    v.extend_from_slice(&hash);
    v.extend_from_slice(&pid);
    v
}

/// Runs a machine against a peer that has `incoming` ready to be read. Returns what
/// was written and how the handshake ended.
fn drive(m: &mut HandshakeMachine, incoming: &[u8], filters: &Filters) -> (Vec<u8>, Result<CompleteMessage, HandshakeError>) {
    let mut written = Vec::new();
    let mut pos = 0;
    loop {
        match m.action() {
            Action::Send(b) => {
                written.extend_from_slice(&b);
                m.on_sent();
            }
            Action::Receive(n) => {
                let end = std::cmp::min(pos + n, incoming.len());
                let piece = incoming[pos..end].to_vec();
                pos = end;
                if piece.len() < n {
                    m.on_failure(HandshakeError::Timeout);
                } else {
                    m.on_received(&piece, filters);
                }
            }
            Action::Complete(c) => return (written, Ok(c)),
            Action::Close(e) => return (written, Err(e)),
        }
    }
}

#[test]
fn outbound_happy_path() {
    let h = [0xAAu8; 20];
    let q = [0x02u8; 20];
    let seed = InitiateSeed { infohash: InfoHash(h), addr: addr() };
    let mut m = HandshakeMachine::initiate(seed, Extensions([0u8; 8]), PeerId([0x01u8; 20]));
    let filters = Filters::new();
    let (written, out) = drive(&mut m, &remote_handshake([0x55; 8], h, q), &filters);
    assert_eq!(written, remote_handshake([0u8; 8], h, [0x01u8; 20]));
    assert_eq!(written.len(), 68);
    let c = out.unwrap();
    assert!(c.initiated_by_us);
    assert_eq!(c.infohash.0, h);
    assert_eq!(c.peer_id.0, q);
    assert_eq!(c.extensions.0, [0u8; 8]);
    assert_eq!(c.addr, addr());
}

#[test]
fn infohash_mismatch() {
    let seed = InitiateSeed { infohash: InfoHash([0xAA; 20]), addr: addr() };
    let mut m = HandshakeMachine::initiate(seed, Extensions([0u8; 8]), PeerId([0x01u8; 20]));
    let filters = Filters::new();
    let (_, out) = drive(&mut m, &remote_handshake([0x55; 8], [0xBB; 20], [0x02; 20]), &filters);
    assert_eq!(out.err(), Some(HandshakeError::InfoHashMismatch));
    assert_eq!(m.stage, Stage::Failed(HandshakeError::InfoHashMismatch));
}

#[test]
fn filter_blocks_by_peer_id() {
    let h = [0xAAu8; 20];
    let q = [0x02u8; 20];
    let seed = InitiateSeed { infohash: InfoHash(h), addr: addr() };
    let mut m = HandshakeMachine::initiate(seed, Extensions([0u8; 8]), PeerId([0x01u8; 20]));
    let mut filters = Filters::new();
    filters.add_filter(HandshakeFilter { allow: false, key: FilterKey::PeerId(PeerId(q)) });
    let (written, out) = drive(&mut m, &remote_handshake([0x55; 8], h, q), &filters);
    // both sides completed their bytes before the peer id was inspected
    assert_eq!(written.len(), 68);
    assert_eq!(out.err(), Some(HandshakeError::Filtered));
}

#[test]
fn inbound_happy_path() {
    let h = [0xAAu8; 20];
    let q = [0x02u8; 20];
    let mut m = HandshakeMachine::accept(addr(), Extensions([0x0F; 8]), PeerId([0x01u8; 20]));
    let filters = Filters::new();
    let (written, out) = drive(&mut m, &remote_handshake([0xF0; 8], h, q), &filters);
    assert_eq!(written, remote_handshake([0x0F; 8], h, [0x01u8; 20]));
    let c = out.unwrap();
    assert!(!c.initiated_by_us);
    assert_eq!(c.infohash.0, h);
    assert_eq!(c.peer_id.0, q);
    assert_eq!(c.extensions.0, [0x00u8; 8]);
}

#[test]
fn inbound_filtered_by_infohash_before_reply() {
    let h = [0xAAu8; 20];
    let mut m = HandshakeMachine::accept(addr(), Extensions([0x0F; 8]), PeerId([0x01u8; 20]));
    let mut filters = Filters::new();
    filters.add_filter(HandshakeFilter { allow: false, key: FilterKey::InfoHash(InfoHash(h)) });
    let (written, out) = drive(&mut m, &remote_handshake([0xF0; 8], h, [0x02; 20]), &filters);
    assert!(written.is_empty());
    assert_eq!(out.err(), Some(HandshakeError::Filtered));
}

#[test]
fn timeout_after_partial_header() {
    let mut m = HandshakeMachine::accept(addr(), Extensions([0u8; 8]), PeerId([0x01u8; 20]));
    let filters = Filters::new();
    let partial = remote_handshake([0; 8], [0xAA; 20], [0x02; 20])[..10].to_vec();
    let (written, out) = drive(&mut m, &partial, &filters);
    assert!(written.is_empty());
    assert_eq!(out.err(), Some(HandshakeError::Timeout));
}

#[test]
fn bad_protocol_name() {
    let mut m = HandshakeMachine::accept(addr(), Extensions([0u8; 8]), PeerId([0x01u8; 20]));
    let filters = Filters::new();
    let mut bytes = remote_handshake([0; 8], [0xAA; 20], [0x02; 20]);
    bytes[5] = b'X';
    let (_, out) = drive(&mut m, &bytes, &filters);
    assert_eq!(out.err(), Some(HandshakeError::BadProtocol));
}

#[test]
fn bad_length_byte() {
    let seed = InitiateSeed { infohash: InfoHash([0xAA; 20]), addr: addr() };
    let mut m = HandshakeMachine::initiate(seed, Extensions([0u8; 8]), PeerId([0x01u8; 20]));
    let filters = Filters::new();
    let mut bytes = remote_handshake([0; 8], [0xAA; 20], [0x02; 20]);
    bytes[0] = 18;
    let (_, out) = drive(&mut m, &bytes, &filters);
    assert_eq!(out.err(), Some(HandshakeError::BadProtocol));
}

#[test]
fn short_read_is_io_error() {
    let mut m = HandshakeMachine::accept(addr(), Extensions([0u8; 8]), PeerId([0x01u8; 20]));
    let filters = Filters::new();
    m.on_received(&[19u8, 66, 105], &filters);
    assert_eq!(m.stage, Stage::Failed(HandshakeError::IoError));
}

#[test]
fn failure_after_done_keeps_done() {
    let h = [0xAAu8; 20];
    let seed = InitiateSeed { infohash: InfoHash(h), addr: addr() };
    let mut m = HandshakeMachine::initiate(seed, Extensions([0u8; 8]), PeerId([0x01u8; 20]));
    let filters = Filters::new();
    let (_, out) = drive(&mut m, &remote_handshake([0x55; 8], h, [0x02; 20]), &filters);
    assert!(out.is_ok());
    m.on_failure(HandshakeError::Timeout);
    assert_eq!(m.stage, Stage::Done);
}

#[test]
fn extensions_are_intersected() {
    let a = Extensions([0xFF, 0x0F, 0, 1, 2, 3, 4, 0x80]);
    let b = Extensions([0x10, 0xFF, 0xFF, 1, 1, 1, 4, 0x81]);
    assert_eq!(a.intersect(&b).0, [0x10, 0x0F, 0, 1, 0, 1, 4, 0x80]);
}

#[test]
fn handshake_bytes_layout() {
    let v = write_handshake(&Extensions([1; 8]), &InfoHash([2; 20]), &PeerId([3; 20]));
    assert_eq!(v, remote_handshake([1; 8], [2; 20], [3; 20]));
}
