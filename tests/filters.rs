use bip_handshake::bytes::{InfoHash, PeerId};
use bip_handshake::filter::{Candidate, FilterKey, Filters, HandshakeFilter, PeerAddr};
use bip_handshake::pipeline::{decide_accept, decide_initiate, InitiateDecision, InitiateMessage};
use bip_handshake::machine::InitiateSeed;

fn a(port: u16) -> PeerAddr {
    PeerAddr { v6: false, ip: 0x0a00_0001, port }
}

fn cand(port: u16, hash: Option<u8>, pid: Option<u8>) -> Candidate {
    Candidate { addr: a(port), hash: hash.map(|b| InfoHash([b; 20])), pid: pid.map(|b| PeerId([b; 20])) }
}

#[test]
fn empty_registry_admits_everything() {
    let f = Filters::new();
    assert!(f.evaluate(&cand(1, None, None)));
    assert!(f.evaluate(&cand(1, Some(1), Some(2))));
}

#[test]
fn block_by_addr() {
    let mut f = Filters::new();
    f.add_filter(HandshakeFilter { allow: false, key: FilterKey::Addr(a(1)) });
    assert!(!f.evaluate(&cand(1, None, None)));
    assert!(f.evaluate(&cand(2, None, None)));
}

#[test]
fn block_by_ip_covers_every_port() {
    let mut f = Filters::new();
    f.add_filter(HandshakeFilter { allow: false, key: FilterKey::Ip(false, 0x0a00_0001) });
    assert!(!f.evaluate(&cand(1, None, None)));
    assert!(!f.evaluate(&cand(9, None, None)));
}

#[test]
fn allow_list_excludes_others() {
    let mut f = Filters::new();
    f.add_filter(HandshakeFilter { allow: true, key: FilterKey::InfoHash(InfoHash([7; 20])) });
    assert!(f.evaluate(&cand(1, Some(7), None)));
    assert!(!f.evaluate(&cand(1, Some(8), None)));
    // infohash unknown at this checkpoint: the rule does not decide
    assert!(f.evaluate(&cand(1, None, None)));
}

#[test]
fn same_key_replaces_entry() {
    let mut f = Filters::new();
    f.add_filter(HandshakeFilter { allow: false, key: FilterKey::PeerId(PeerId([3; 20])) });
    f.add_filter(HandshakeFilter { allow: true, key: FilterKey::PeerId(PeerId([3; 20])) });
    assert_eq!(f.len(), 1);
    assert!(f.evaluate(&cand(1, None, Some(3))));
}

#[test]
fn remove_and_clear() {
    let mut f = Filters::new();
    let block = HandshakeFilter { allow: false, key: FilterKey::Addr(a(1)) };
    f.add_filter(block);
    f.add_filter(HandshakeFilter { allow: false, key: FilterKey::Addr(a(2)) });
    // removal is by equality: the allow entry with the same key is not there
    f.remove_filter(HandshakeFilter { allow: true, key: FilterKey::Addr(a(1)) });
    assert_eq!(f.len(), 2);
    f.remove_filter(block);
    assert_eq!(f.len(), 1);
    assert!(f.evaluate(&cand(1, None, None)));
    assert!(!f.evaluate(&cand(2, None, None)));
    f.clear_filters();
    assert_eq!(f.len(), 0);
    assert!(f.evaluate(&cand(2, None, None)));
}

#[test]
fn evaluation_is_stable_without_mutation() {
    let mut f = Filters::new();
    f.add_filter(HandshakeFilter { allow: false, key: FilterKey::InfoHash(InfoHash([5; 20])) });
    let c = cand(4, Some(5), None);
    let first = f.evaluate(&c);
    let second = f.evaluate(&c);
    assert_eq!(first, second);
    assert!(!first);
}

#[test]
fn address_stage_decisions() {
    let mut f = Filters::new();
    let seed = InitiateSeed { infohash: InfoHash([1; 20]), addr: a(1) };
    assert!(matches!(decide_initiate(&InitiateMessage::Initiate(seed), &f), InitiateDecision::Dial(s) if s.addr == a(1)));
    assert!(matches!(decide_initiate(&InitiateMessage::Shutdown, &f), InitiateDecision::Shutdown));
    f.add_filter(HandshakeFilter { allow: false, key: FilterKey::InfoHash(InfoHash([1; 20])) });
    assert!(matches!(decide_initiate(&InitiateMessage::Initiate(seed), &f), InitiateDecision::Drop));
    assert!(decide_accept(a(1), &f));
    f.add_filter(HandshakeFilter { allow: false, key: FilterKey::Addr(a(1)) });
    assert!(!decide_accept(a(1), &f));
}
