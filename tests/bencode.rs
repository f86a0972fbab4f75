use bip_handshake::bencode::{BMutAccess, BRefAccess, Bencode, BencodeMutKind, BencodeRefKind};
use bip_handshake::decode::{bytes_less, decode, DecodeError};
use bip_handshake::encode::to_bytes;

fn sample() -> Bencode {
    Bencode::Dict(vec![
        (b"a".to_vec(), Bencode::Int(1)),
        (b"b".to_vec(), Bencode::Bytes(b"hello".to_vec())),
    ])
}

#[test]
fn bencode_round_trip_dict() {
    let enc = to_bytes(&sample());
    assert_eq!(enc, b"d1:ai1e1:b5:helloe".to_vec());
    let dec = decode(&enc).unwrap();
    assert_eq!(to_bytes(&dec), enc);
    let d = dec.dict().unwrap();
    assert_eq!(d.len(), 2);
    assert_eq!(d[0].1.integer(), Some(1));
    assert_eq!(d[1].1.str(), Some("hello".to_string()));
}

#[test]
fn integers_encode_canonically() {
    assert_eq!(to_bytes(&Bencode::Int(0)), b"i0e".to_vec());
    assert_eq!(to_bytes(&Bencode::Int(-42)), b"i-42e".to_vec());
    assert_eq!(to_bytes(&Bencode::Int(i64::MIN)), b"i-9223372036854775808e".to_vec());
    assert_eq!(to_bytes(&Bencode::Int(i64::MAX)), b"i9223372036854775807e".to_vec());
}

#[test]
fn list_and_empty_values() {
    let v = Bencode::List(vec![Bencode::Bytes(vec![]), Bencode::List(vec![]), Bencode::Dict(vec![])]);
    let enc = to_bytes(&v);
    assert_eq!(enc, b"l0:ledee".to_vec());
    assert_eq!(to_bytes(&decode(&enc).unwrap()), enc);
}

#[test]
fn decode_integer_extremes() {
    assert_eq!(decode(b"i-9223372036854775808e").unwrap().integer(), Some(i64::MIN));
    assert_eq!(decode(b"i9223372036854775808e").err(), Some(DecodeError::InvalidNumber));
}

#[test]
fn decode_rejects_unordered_keys() {
    assert_eq!(decode(b"d1:bi1e1:ai2ee").err(), Some(DecodeError::UnorderedKeys));
    assert_eq!(decode(b"d1:ai1e1:ai2ee").err(), Some(DecodeError::UnorderedKeys));
}

#[test]
fn decode_rejects_non_canonical_numbers() {
    assert_eq!(decode(b"i-0e").err(), Some(DecodeError::InvalidNumber));
    assert_eq!(decode(b"i03e").err(), Some(DecodeError::InvalidByte));
    assert_eq!(decode(b"ie").err(), Some(DecodeError::InvalidNumber));
}

#[test]
fn decode_errors() {
    assert_eq!(decode(b"").err(), Some(DecodeError::UnexpectedEnd));
    assert_eq!(decode(b"l").err(), Some(DecodeError::UnexpectedEnd));
    assert_eq!(decode(b"5:abc").err(), Some(DecodeError::UnexpectedEnd));
    assert_eq!(decode(b"x").err(), Some(DecodeError::InvalidByte));
    assert_eq!(decode(b"i1ei2e").err(), Some(DecodeError::TrailingBytes));
    assert_eq!(decode(b"3abc").err(), Some(DecodeError::InvalidByte));
}

#[test]
fn lexicographic_order() {
    assert!(bytes_less(b"a", b"b"));
    assert!(bytes_less(b"a", b"ab"));
    assert!(!bytes_less(b"ab", b"a"));
    assert!(!bytes_less(b"a", b"a"));
    assert!(bytes_less(b"", b"a"));
}

#[test]
fn access_projections() {
    let v = Bencode::Bytes(vec![0xff, 0xfe]);
    assert_eq!(v.bytes(), Some(&[0xffu8, 0xfe][..]));
    assert_eq!(v.str(), None);
    assert_eq!(v.integer(), None);
    assert!(v.list().is_none());
    assert!(matches!(v.kind(), BencodeRefKind::Bytes(b) if b == [0xff, 0xfe]));
    let i = Bencode::Int(7);
    assert!(matches!(i.kind(), BencodeRefKind::Int(7)));
    assert!(i.dict().is_none());
}

#[test]
fn mutation_through_access() {
    let mut v = Bencode::List(vec![Bencode::Int(1)]);
    v.list_mut().unwrap().push(Bencode::Int(2));
    assert!(v.dict_mut().is_none());
    if let BencodeMutKind::List(l) = v.kind_mut() {
        l.push(Bencode::Int(3));
    }
    assert_eq!(to_bytes(&v), b"li1ei2ei3ee".to_vec());
    let mut d = sample();
    d.dict_mut().unwrap().push((b"c".to_vec(), Bencode::Int(3)));
    assert_eq!(to_bytes(&d), b"d1:ai1e1:b5:hello1:ci3ee".to_vec());
}

#[test]
fn empty_bytes_are_empty_text() {
    assert_eq!(Bencode::Bytes(vec![]).str(), Some(String::new()));
}

#[test]
fn nested_round_trip() {
    let enc = b"d4:listli-7e3:abcd1:xi0eee3:numi42ee".to_vec();
    let v = decode(&enc).unwrap();
    assert_eq!(to_bytes(&v), enc);
    let l = v.dict().unwrap()[0].1.list().unwrap();
    assert_eq!(l[0].integer(), Some(-7));
    assert_eq!(l[1].bytes(), Some(&b"abc"[..]));
}
