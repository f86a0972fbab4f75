use vstd::prelude::*;

use crate::bytes::{Extensions, InfoHash, PeerId};

verus! {

/// Length of the header: the length byte, the protocol name and the reserved bytes.
pub const HEADER_LEN: usize = 28;

/// Length of a whole handshake as each side sends it.
pub const HANDSHAKE_LEN: usize = 68;

/// The protocol name, "BitTorrent protocol", as bytes.
pub open spec fn protocol_name() -> Seq<u8> {
    seq![66u8, 105, 116, 84, 111, 114, 114, 101, 110, 116, 32, 112, 114, 111, 116, 111, 99, 111, 108]
}

/// The first 20 bytes of every handshake: the name's length (19), then the name.
pub open spec fn header_prefix() -> Seq<u8> {
    seq![19u8] + protocol_name()
}

/// The 28-byte header carrying the given reserved bytes.
pub open spec fn header_bytes(ext: Seq<u8>) -> Seq<u8> {
    header_prefix() + ext
}

/// The 68 bytes a side sends: header, infohash, peer id.
pub open spec fn handshake_bytes(ext: Seq<u8>, hash: Seq<u8>, pid: Seq<u8>) -> Seq<u8> {
    header_bytes(ext) + hash + pid
}

/// A received header is well formed when it is 28 bytes long and opens with the
/// protocol's length byte and name.
pub open spec fn valid_header(buf: Seq<u8>) -> bool {
    buf.len() == HEADER_LEN && buf.subrange(0, 20) == header_prefix()
}

/// The 20 bytes every header opens with.
pub fn header_prefix_vec() -> (r: Vec<u8>)
    ensures
        r@ == header_prefix(),
{
    let r = vec![19u8, 66, 105, 116, 84, 111, 114, 114, 101, 110, 116, 32, 112, 114, 111, 116, 111, 99, 111, 108];
    assert(r@ =~= header_prefix());
    r
}

/// The bytes of a slice, copied into a vector.
pub fn copy_bytes(a: &[u8]) -> (r: Vec<u8>)
    ensures
        r@ == a@,
{
    let mut out: Vec<u8> = Vec::new();
    let mut i: usize = 0;
    while i < a.len()
        invariant
            i <= a@.len(),
            out@ == a@.subrange(0, i as int),
        decreases a@.len() - i,
    {
        out.push(a[i]);
        assert(a@.subrange(0, i + 1) == a@.subrange(0, i as int).push(a@[i as int]));
        i = i + 1;
    }
    assert(a@.subrange(0, a@.len() as int) == a@);
    out
}

/// The header that carries the given extensions.
pub fn write_header(ext: &Extensions) -> (r: Vec<u8>)
    ensures
        r@ == header_bytes(ext@),
        r@.len() == HEADER_LEN,
{
    let mut r = header_prefix_vec();
    let mut i: usize = 0;
    while i < 8
        invariant
            i <= 8,
            ext@.len() == 8,
            r@ == header_prefix() + ext@.subrange(0, i as int),
        decreases 8 - i,
    {
        r.push(ext.0[i]);
        assert(ext@.subrange(0, i + 1) == ext@.subrange(0, i as int).push(ext@[i as int]));
        assert(header_prefix() + ext@.subrange(0, i + 1) =~= (header_prefix() + ext@.subrange(0, i as int)).push(ext@[i as int]));
        i = i + 1;
    }
    assert(ext@.subrange(0, 8) == ext@);
    r
}

/// The 68 bytes that a side with the given extensions, infohash and peer id sends.
pub fn write_handshake(ext: &Extensions, hash: &InfoHash, pid: &PeerId) -> (r: Vec<u8>)
    ensures
        r@ == handshake_bytes(ext@, hash@, pid@),
        r@.len() == HANDSHAKE_LEN,
{
    let mut r = write_header(ext);
    let mut h = copy_bytes(hash.0.as_slice());
    let mut p = copy_bytes(pid.0.as_slice());
    r.append(&mut h);
    r.append(&mut p);
    r
}

/// Whether `buf` holds a well formed header.
pub fn check_header(buf: &[u8]) -> (r: bool)
    ensures
        r == valid_header(buf@),
{
    if buf.len() != HEADER_LEN {
        return false;
    }
    let p = header_prefix_vec();
    let mut i: usize = 0;
    while i < 20
        invariant
            i <= 20,
            buf@.len() == 28,
            p@ == header_prefix(),
            buf@.subrange(0, i as int) == p@.subrange(0, i as int),
        decreases 20 - i,
    {
        if buf[i] != p[i] {
            assert(buf@.subrange(0, 20)[i as int] != header_prefix()[i as int]);
            return false;
        }
        assert(buf@.subrange(0, i + 1) == buf@.subrange(0, i as int).push(buf@[i as int]));
        assert(p@.subrange(0, i + 1) == p@.subrange(0, i as int).push(p@[i as int]));
        i = i + 1;
    }
    assert(p@.subrange(0, 20) == p@);
    true
}

/// The 8 bytes of `buf` from `start` on.
pub fn take8(buf: &[u8], start: usize) -> (r: [u8; 8])
    requires
        start + 8 <= buf@.len(),
    ensures
        r@ == buf@.subrange(start as int, start + 8),
{
    let mut out = [0u8; 8];
    let mut i: usize = 0;
    while i < 8
        invariant
            i <= 8,
            start + 8 <= buf.len(),
            out@.len() == 8,
            forall|j: int| 0 <= j < i ==> out@[j] == buf@[start + j],
        decreases 8 - i,
    {
        out[i] = buf[start + i];
        i = i + 1;
    }
    assert(out@ =~= buf@.subrange(start as int, start + 8));
    out
}

/// The first 20 bytes of `buf`.
pub fn take20(buf: &[u8]) -> (r: [u8; 20])
    requires
        20 <= buf@.len(),
    ensures
        r@ == buf@.subrange(0, 20),
{
    let mut out = [0u8; 20];
    let mut i: usize = 0;
    while i < 20
        invariant
            i <= 20,
            20 <= buf@.len(),
            out@.len() == 20,
            forall|j: int| 0 <= j < i ==> out@[j] == buf@[j],
        decreases 20 - i,
    {
        out[i] = buf[i];
        i = i + 1;
    }
    assert(out@ =~= buf@.subrange(0, 20));
    out
}

} // verus!
