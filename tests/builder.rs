use bip_handshake::builder::{peer_id_from_seed, HandshakerBuilder};
use bip_handshake::bytes::{Extensions, PeerId};
use bip_handshake::filter::PeerAddr;

#[test]
fn defaults() {
    let b = HandshakerBuilder::new();
    assert_eq!(b.bind, PeerAddr { v6: false, ip: 0, port: 0 });
    assert_eq!(b.port, 0);
    assert_eq!(b.ext.0, [0u8; 8]);
}

#[test]
fn peer_id_is_digest_of_seed_bytes() {
    // SHA-1 of the four bytes 00 00 00 00
    let p = peer_id_from_seed(0);
    assert_eq!(
        p.0,
        [0x90, 0x69, 0xca, 0x78, 0xe7, 0x45, 0x0a, 0x28, 0x51, 0x73, 0x43, 0x1b, 0x3e, 0x52, 0xc5, 0xc2, 0x52, 0x99, 0xe4, 0x73]
    );
    assert_ne!(peer_id_from_seed(1).0, p.0);
}

#[test]
fn setters_and_advertised_port() {
    let mut b = HandshakerBuilder::new();
    b.with_bind_addr(PeerAddr { v6: false, ip: 0x7f00_0001, port: 5000 });
    b.with_peer_id(PeerId([9; 20]));
    b.with_extensions(Extensions([1; 8]));
    assert_eq!(b.advertised_port(41234), 41234);
    b.with_open_port(6881);
    assert_eq!(b.advertised_port(41234), 6881);
    assert_eq!(b.bind.port, 5000);
    assert_eq!(b.pid.0, [9; 20]);
    assert_eq!(b.ext.0, [1; 8]);
}

#[test]
fn peer_id_seed_bytes_are_big_endian() {
    // SHA-1 of the bytes 01 02 03 04
    assert_eq!(
        peer_id_from_seed(0x0102_0304).0,
        [18, 218, 218, 31, 255, 77, 71, 135, 173, 227, 51, 49, 71, 32, 44, 59, 68, 62, 55, 111]
    );
}
