use vstd::prelude::*;

verus! {

/// A bencode value. Dictionaries keep their entries in insertion order.
#[derive(Debug)]
pub enum Bencode {
    Int(i64),
    Bytes(Vec<u8>),
    List(Vec<Bencode>),
    Dict(Vec<(Vec<u8>, Bencode)>),
}

/// Read access to a bencode value: which kind it is, with its payload.
pub enum BencodeRefKind<'a> {
    Int(i64),
    Bytes(&'a [u8]),
    List(&'a Vec<Bencode>),
    Dict(&'a Vec<(Vec<u8>, Bencode)>),
}

/// Write access to a bencode value: which kind it is, with its payload.
pub enum BencodeMutKind<'a> {
    Int(i64),
    Bytes(&'a [u8]),
    List(&'a mut Vec<Bencode>),
    Dict(&'a mut Vec<(Vec<u8>, Bencode)>),
}

/// Read access to some bencode type.
pub trait BRefAccess: Sized {
    /// The value this node stands for.
    spec fn value(&self) -> Bencode;

    /// The node's kind, with access to its payload.
    fn kind(&self) -> (r: BencodeRefKind<'_>)
        ensures
            match (r, self.value()) {
                (BencodeRefKind::Int(a), Bencode::Int(b)) => a == b,
                (BencodeRefKind::Bytes(a), Bencode::Bytes(b)) => a@ == b@,
                (BencodeRefKind::List(a), Bencode::List(b)) => a@ == b@,
                (BencodeRefKind::Dict(a), Bencode::Dict(b)) => a@ == b@,
                _ => false,
            },
    ;

    /// The bytes read as UTF-8 text, if this is a byte string holding valid UTF-8.
    fn str(&self) -> (r: Option<String>)
        ensures
            !(self.value() is Bytes) ==> r is None,
            self.value() matches Bencode::Bytes(b) ==> (r is Some <==> utf8_text(b@) is Some),
            self.value() matches Bencode::Bytes(b) ==> (r matches Some(t) ==> utf8_text(b@) == Some(t@)),
    ;

    /// The integer, if this is one.
    fn integer(&self) -> (r: Option<i64>)
        ensures
            r == (match self.value() {
                Bencode::Int(n) => Some(n),
                _ => None,
            }),
    ;

    /// The bytes, if this is a byte string.
    fn bytes(&self) -> (r: Option<&[u8]>)
        ensures
            match (r, self.value()) {
                (Some(a), Bencode::Bytes(b)) => a@ == b@,
                (None, Bencode::Bytes(_)) => false,
                (Some(_), _) => false,
                _ => true,
            },
    ;

    /// The items, if this is a list.
    fn list(&self) -> (r: Option<&Vec<Bencode>>)
        ensures
            match (r, self.value()) {
                (Some(a), Bencode::List(b)) => a@ == b@,
                (None, Bencode::List(_)) => false,
                (Some(_), _) => false,
                _ => true,
            },
    ;

    /// The entries, if this is a dictionary.
    fn dict(&self) -> (r: Option<&Vec<(Vec<u8>, Bencode)>>)
        ensures
            match (r, self.value()) {
                (Some(a), Bencode::Dict(b)) => a@ == b@,
                (None, Bencode::Dict(_)) => false,
                (Some(_), _) => false,
                _ => true,
            },
    ;
}

/// Write access to some bencode type.
pub trait BMutAccess: BRefAccess {
    /// The node's kind, with mutable access to a list's or a dictionary's contents.
    fn kind_mut(&mut self) -> (r: BencodeMutKind<'_>)
        ensures
            match (r, old(self).value()) {
                (BencodeMutKind::Int(a), Bencode::Int(b)) => a == b,
                (BencodeMutKind::Bytes(a), Bencode::Bytes(b)) => a@ == b@,
                (BencodeMutKind::List(a), Bencode::List(b)) => a@ == b@,
                (BencodeMutKind::Dict(a), Bencode::Dict(b)) => a@ == b@,
                _ => false,
            },
            r matches BencodeMutKind::List(a) ==> final(self).value() matches Bencode::List(b) && b@ == final(a)@,
            r matches BencodeMutKind::Dict(a) ==> final(self).value() matches Bencode::Dict(b) && b@ == final(a)@,
            (r is Int || r is Bytes) ==> final(self).value() == old(self).value(),
    ;

    /// The items, mutably, if this is a list.
    fn list_mut(&mut self) -> (r: Option<&mut Vec<Bencode>>)
        ensures
            old(self).value() is List <==> r is Some,
            r matches Some(a) ==> old(self).value() matches Bencode::List(b) && a@ == b@,
            r matches Some(a) ==> final(self).value() matches Bencode::List(b) && b@ == final(a)@,
            r is None ==> final(self).value() == old(self).value(),
    ;

    /// The entries, mutably, if this is a dictionary.
    fn dict_mut(&mut self) -> (r: Option<&mut Vec<(Vec<u8>, Bencode)>>)
        ensures
            old(self).value() is Dict <==> r is Some,
            r matches Some(a) ==> old(self).value() matches Bencode::Dict(b) && a@ == b@,
            r matches Some(a) ==> final(self).value() matches Bencode::Dict(b) && b@ == final(a)@,
            r is None ==> final(self).value() == old(self).value(),
    ;
}

/// The characters that a byte sequence decodes to as UTF-8, or `None` where it is
/// not valid UTF-8.
pub uninterp spec fn utf8_text(b: Seq<u8>) -> Option<Seq<char>>;

/// Relies on String::from_utf8: the bytes as text when they are valid UTF-8, an
/// error otherwise; no bytes are valid text.
#[verifier::external_body]
fn text_from_utf8(b: &[u8]) -> (r: Option<String>)
    ensures
        r is Some <==> utf8_text(b@) is Some,
        r matches Some(t) ==> utf8_text(b@) == Some(t@),
        r is None ==> b@.len() > 0,
{
    String::from_utf8(b.to_vec()).ok()
}

impl BRefAccess for Bencode {
    open spec fn value(&self) -> Bencode {
        *self
    }

    fn kind(&self) -> (r: BencodeRefKind<'_>) {
        match self {
            Bencode::Int(n) => BencodeRefKind::Int(*n),
            Bencode::Bytes(b) => BencodeRefKind::Bytes(b.as_slice()),
            Bencode::List(l) => BencodeRefKind::List(l),
            Bencode::Dict(d) => BencodeRefKind::Dict(d),
        }
    }

    fn str(&self) -> (r: Option<String>) {
        match self {
            Bencode::Bytes(b) => text_from_utf8(b.as_slice()),
            _ => None,
        }
    }

    fn integer(&self) -> (r: Option<i64>) {
        match self {
            Bencode::Int(n) => Some(*n),
            _ => None,
        }
    }

    fn bytes(&self) -> (r: Option<&[u8]>) {
        match self {
            Bencode::Bytes(b) => Some(b.as_slice()),
            _ => None,
        }
    }

    fn list(&self) -> (r: Option<&Vec<Bencode>>) {
        match self {
            Bencode::List(l) => Some(l),
            _ => None,
        }
    }

    fn dict(&self) -> (r: Option<&Vec<(Vec<u8>, Bencode)>>) {
        match self {
            Bencode::Dict(d) => Some(d),
            _ => None,
        }
    }
}

impl BMutAccess for Bencode {
    fn kind_mut(&mut self) -> (r: BencodeMutKind<'_>) {
        match self {
            Bencode::Int(n) => BencodeMutKind::Int(*n),
            Bencode::Bytes(b) => BencodeMutKind::Bytes(b.as_slice()),
            Bencode::List(l) => BencodeMutKind::List(l),
            Bencode::Dict(d) => BencodeMutKind::Dict(d),
        }
    }

    fn list_mut(&mut self) -> (r: Option<&mut Vec<Bencode>>) {
        match self {
            Bencode::List(l) => Some(l),
            _ => None,
        }
    }

    fn dict_mut(&mut self) -> (r: Option<&mut Vec<(Vec<u8>, Bencode)>>) {
        match self {
            Bencode::Dict(d) => Some(d),
            _ => None,
        }
    }
}

} // verus!
