use vstd::prelude::*;

verus! {

/// A 20-byte peer identifier advertised by each side of a handshake.
#[derive(Clone, Copy, Debug)]
pub struct PeerId(pub [u8; 20]);

/// A 20-byte identifier of the torrent a handshake concerns.
#[derive(Clone, Copy, Debug)]
pub struct InfoHash(pub [u8; 20]);

/// The 8 reserved bytes of a handshake, each bit flagging a protocol extension.
#[derive(Clone, Copy, Debug)]
pub struct Extensions(pub [u8; 8]);

/// Bytewise conjunction of two equally long byte sequences.
pub open spec fn and_bytes(a: Seq<u8>, b: Seq<u8>) -> Seq<u8> {
    Seq::new(a.len(), |i: int| a[i] & b[i])
}

/// Whether two byte slices hold the same bytes.
pub fn bytes_equal(a: &[u8], b: &[u8]) -> (r: bool)
    ensures
        r == (a@ == b@),
{
    if a.len() != b.len() {
        return false;
    }
    let mut i: usize = 0;
    while i < a.len()
        invariant
            a@.len() == b@.len(),
            i <= a@.len(),
            a@.subrange(0, i as int) == b@.subrange(0, i as int),
        decreases a@.len() - i,
    {
        if a[i] != b[i] {
            assert(a@[i as int] != b@[i as int]);
            return false;
        }
        assert(a@.subrange(0, i + 1) == a@.subrange(0, i as int).push(a@[i as int]));
        assert(b@.subrange(0, i + 1) == b@.subrange(0, i as int).push(b@[i as int]));
        i = i + 1;
    }
    assert(a@ == a@.subrange(0, a@.len() as int));
    assert(b@ == b@.subrange(0, b@.len() as int));
    true
}

impl PeerId {
    pub open spec fn view(&self) -> Seq<u8> {
        self.0@
    }

    /// Whether two peer ids hold the same bytes.
    pub fn same(&self, other: &PeerId) -> (r: bool)
        ensures
            r == (self@ == other@),
    {
        bytes_equal(self.0.as_slice(), other.0.as_slice())
    }
}

impl InfoHash {
    pub open spec fn view(&self) -> Seq<u8> {
        self.0@
    }

    /// Whether two infohashes hold the same bytes.
    pub fn same(&self, other: &InfoHash) -> (r: bool)
        ensures
            r == (self@ == other@),
    {
        bytes_equal(self.0.as_slice(), other.0.as_slice())
    }
}

impl Extensions {
    pub open spec fn view(&self) -> Seq<u8> {
        self.0@
    }

    /// No extension supported.
    pub fn new() -> (r: Extensions)
        ensures
            r@ == Seq::new(8, |i: int| 0u8),
    {
        let r = Extensions([0u8; 8]);
        assert(r@ =~= Seq::new(8, |i: int| 0u8));
        r
    }

    /// The extensions supported by both sides: the bitwise AND of the two fields.
    pub fn intersect(&self, other: &Extensions) -> (r: Extensions)
        ensures
            r@ == and_bytes(self@, other@),
    {
        let mut out = [0u8; 8];
        let mut i: usize = 0;
        while i < 8
            invariant
                i <= 8,
                out@.len() == 8,
                forall|j: int| 0 <= j < i ==> out@[j] == self.0@[j] & other.0@[j],
            decreases 8 - i,
        {
            out[i] = self.0[i] & other.0[i];
            i = i + 1;
        }
        let r = Extensions(out);
        assert(r@ =~= and_bytes(self@, other@));
        r
    }
}

} // verus!
