use vstd::prelude::*;

use crate::bytes::{InfoHash, PeerId};

verus! {

/// A peer's socket address: an IPv4 address (v6 false, in the low 32 bits of ip) or
/// an IPv6 address, and a port.
#[derive(Clone, Copy, Debug, PartialEq, Eq, Structural)]
pub struct PeerAddr {
    pub v6: bool,
    pub ip: u128,
    pub port: u16,
}

/// What a filter keys on.
#[derive(Clone, Copy, Debug)]
pub enum FilterKey {
    /// Any port at the given address (v6, ip).
    Ip(bool, u128),
    /// One specific socket address.
    Addr(PeerAddr),
    /// The torrent the handshake concerns.
    InfoHash(InfoHash),
    /// The remote side's peer id.
    PeerId(PeerId),
}

/// An `allow` or a `block` entry keyed on one field of a handshake.
#[derive(Clone, Copy, Debug)]
pub struct HandshakeFilter {
    pub allow: bool,
    pub key: FilterKey,
}

/// What is known of a handshake at a checkpoint; `None` marks a field not known yet.
#[derive(Clone, Copy, Debug)]
pub struct Candidate {
    pub addr: PeerAddr,
    pub hash: Option<InfoHash>,
    pub pid: Option<PeerId>,
}

/// Whether two keys name the same thing.
pub open spec fn same_key(a: FilterKey, b: FilterKey) -> bool {
    match (a, b) {
        (FilterKey::Ip(v, x), FilterKey::Ip(w, y)) => v == w && x == y,
        (FilterKey::Addr(x), FilterKey::Addr(y)) => x == y,
        (FilterKey::InfoHash(x), FilterKey::InfoHash(y)) => x@ == y@,
        (FilterKey::PeerId(x), FilterKey::PeerId(y)) => x@ == y@,
        _ => false,
    }
}

/// Whether two filters are equal: same polarity, same key.
pub open spec fn same_filter(a: HandshakeFilter, b: HandshakeFilter) -> bool {
    a.allow == b.allow && same_key(a.key, b.key)
}

/// Whether the field a key looks at is known for the candidate.
pub open spec fn key_known(k: FilterKey, c: Candidate) -> bool {
    match k {
        FilterKey::InfoHash(_) => c.hash is Some,
        FilterKey::PeerId(_) => c.pid is Some,
        _ => true,
    }
}

/// Whether the candidate's known field equals the key.
pub open spec fn key_hits(k: FilterKey, c: Candidate) -> bool {
    match k {
        FilterKey::Ip(v6, ip) => c.addr.v6 == v6 && c.addr.ip == ip,
        FilterKey::Addr(a) => c.addr == a,
        FilterKey::InfoHash(h) => match c.hash {
            Some(x) => x@ == h@,
            None => false,
        },
        FilterKey::PeerId(p) => match c.pid {
            Some(x) => x@ == p@,
            None => false,
        },
    }
}

/// Some block entry hits the candidate.
pub open spec fn blocked(fs: Seq<HandshakeFilter>, c: Candidate) -> bool {
    exists|i: int| 0 <= i < fs.len() && !fs[i].allow && key_hits(fs[i].key, c)
}

/// Some allow entry exists.
pub open spec fn has_allow(fs: Seq<HandshakeFilter>) -> bool {
    exists|i: int| 0 <= i < fs.len() && fs[i].allow
}

/// Some allow entry hits the candidate, or looks at a field not known yet.
pub open spec fn allowed(fs: Seq<HandshakeFilter>, c: Candidate) -> bool {
    exists|i: int|
        0 <= i < fs.len() && fs[i].allow && (!key_known(fs[i].key, c) || key_hits(fs[i].key, c))
}

/// The admission rule: no block entry hits, and either there is no allow entry or
/// one of them lets the candidate through.
pub open spec fn admits(fs: Seq<HandshakeFilter>, c: Candidate) -> bool {
    !blocked(fs, c) && (!has_allow(fs) || allowed(fs, c))
}

/// No two entries share a key (so allow and block entries are disjoint).
pub open spec fn keys_unique(fs: Seq<HandshakeFilter>) -> bool {
    forall|i: int, j: int| 0 <= i < j < fs.len() ==> !same_key(#[trigger] fs[i].key, #[trigger] fs[j].key)
}

impl FilterKey {
    /// Whether two keys name the same thing.
    pub fn same(&self, other: &FilterKey) -> (r: bool)
        ensures
            r == same_key(*self, *other),
    {
        match (self, other) {
            (FilterKey::Ip(v, x), FilterKey::Ip(w, y)) => *v == *w && *x == *y,
            (FilterKey::Addr(x), FilterKey::Addr(y)) => *x == *y,
            (FilterKey::InfoHash(x), FilterKey::InfoHash(y)) => x.same(y),
            (FilterKey::PeerId(x), FilterKey::PeerId(y)) => x.same(y),
            _ => false,
        }
    }

    /// Whether the field this key looks at is known for the candidate.
    pub fn known(&self, c: &Candidate) -> (r: bool)
        ensures
            r == key_known(*self, *c),
    {
        match self {
            FilterKey::InfoHash(_) => c.hash.is_some(),
            FilterKey::PeerId(_) => c.pid.is_some(),
            _ => true,
        }
    }

    /// Whether the candidate's known field equals this key.
    pub fn hits(&self, c: &Candidate) -> (r: bool)
        ensures
            r == key_hits(*self, *c),
    {
        match self {
            FilterKey::Ip(v6, ip) => c.addr.v6 == *v6 && c.addr.ip == *ip,
            FilterKey::Addr(a) => c.addr == *a,
            FilterKey::InfoHash(h) => match &c.hash {
                Some(x) => x.same(h),
                None => false,
            },
            FilterKey::PeerId(p) => match &c.pid {
                Some(x) => x.same(p),
                None => false,
            },
        }
    }
}

/// The ordered set of filters consulted at each checkpoint of a handshake.
pub struct Filters {
    list: Vec<HandshakeFilter>,
}

impl Filters {
    pub closed spec fn view(&self) -> Seq<HandshakeFilter> {
        self.list@
    }

    pub open spec fn wf(&self) -> bool {
        keys_unique(self@)
    }

    /// An empty registry, which admits every candidate.
    pub fn new() -> (r: Filters)
        ensures
            r@ == Seq::<HandshakeFilter>::empty(),
            r.wf(),
    {
        Filters { list: Vec::new() }
    }

    /// Number of entries.
    pub fn len(&self) -> (r: usize)
        ensures
            r == self@.len(),
    {
        self.list.len()
    }

    /// Adds a filter. An entry with the same key is replaced, so a key is never both
    /// allowed and blocked.
    pub fn add_filter(&mut self, filter: HandshakeFilter)
        requires
            old(self).wf(),
        ensures
            final(self).wf(),
            final(self)@ == old(self)@.filter(|f: HandshakeFilter| !same_key(f.key, filter.key)).push(filter),
    {
        let ghost pred = |f: HandshakeFilter| !same_key(f.key, filter.key);
        let mut out: Vec<HandshakeFilter> = Vec::new();
        let mut i: usize = 0;
        while i < self.list.len()
            invariant
                i <= self.list@.len(),
                keys_unique(self.list@),
                out@ == self.list@.subrange(0, i as int).filter(pred),
                pred == (|f: HandshakeFilter| !same_key(f.key, filter.key)),
                forall|k: int| 0 <= k < out@.len() ==> !same_key(#[trigger] out@[k].key, filter.key),
                keys_unique(out@),
                forall|k: int| 0 <= k < out@.len() ==> exists|j: int| 0 <= j < i && #[trigger] out@[k] == self.list@[j],
            decreases self.list@.len() - i,
        {
            let f = self.list[i];
            proof {
                reveal(Seq::filter);
                assert(self.list@.subrange(0, i + 1).drop_last() == self.list@.subrange(0, i as int));
                assert(self.list@.subrange(0, i + 1).last() == f);
            }
            let keep = !f.key.same(&filter.key);
            assert(pred(f) == keep);
            if keep {
                let ghost before = out@;
                out.push(f);
                proof {
                    assert forall|a: int, b: int| 0 <= a < b < out@.len() implies !same_key(#[trigger] out@[a].key, #[trigger] out@[b].key) by {
                        if b == out@.len() - 1 {
                            let j = choose|j: int| 0 <= j < i && #[trigger] before[a] == self.list@[j];
                            assert(out@[a] == self.list@[j]);
                        }
                    }
                    assert forall|k: int| 0 <= k < out@.len() implies exists|j: int| 0 <= j < i + 1 && #[trigger] out@[k] == self.list@[j] by {
                        if k < before.len() {
                            let j = choose|j: int| 0 <= j < i && #[trigger] before[k] == self.list@[j];
                            assert(out@[k] == self.list@[j]);
                        } else {
                            assert(out@[k] == self.list@[i as int]);
                        }
                    }
                }
            }
            i = i + 1;
        }
        proof {
            assert(self.list@.subrange(0, self.list@.len() as int) == self.list@);
        }
        out.push(filter);
        self.list = out;
    }

    /// Removes every entry equal to the given filter.
    pub fn remove_filter(&mut self, filter: HandshakeFilter)
        requires
            old(self).wf(),
        ensures
            final(self).wf(),
            final(self)@ == old(self)@.filter(|f: HandshakeFilter| !same_filter(f, filter)),
    {
        let ghost pred = |f: HandshakeFilter| !same_filter(f, filter);
        let mut out: Vec<HandshakeFilter> = Vec::new();
        let mut i: usize = 0;
        while i < self.list.len()
            invariant
                i <= self.list@.len(),
                keys_unique(self.list@),
                out@ == self.list@.subrange(0, i as int).filter(pred),
                pred == (|f: HandshakeFilter| !same_filter(f, filter)),
                keys_unique(out@),
                forall|k: int| 0 <= k < out@.len() ==> exists|j: int| 0 <= j < i && #[trigger] out@[k] == self.list@[j],
            decreases self.list@.len() - i,
        {
            let f = self.list[i];
            proof {
                reveal(Seq::filter);
                assert(self.list@.subrange(0, i + 1).drop_last() == self.list@.subrange(0, i as int));
                assert(self.list@.subrange(0, i + 1).last() == f);
            }
            let keep = !(f.allow == filter.allow && f.key.same(&filter.key));
            assert(pred(f) == keep);
            if keep {
                let ghost before = out@;
                out.push(f);
                proof {
                    assert forall|a: int, b: int| 0 <= a < b < out@.len() implies !same_key(#[trigger] out@[a].key, #[trigger] out@[b].key) by {
                        if b == out@.len() - 1 {
                            let j = choose|j: int| 0 <= j < i && #[trigger] before[a] == self.list@[j];
                            assert(out@[a] == self.list@[j]);
                        }
                    }
                    assert forall|k: int| 0 <= k < out@.len() implies exists|j: int| 0 <= j < i + 1 && #[trigger] out@[k] == self.list@[j] by {
                        if k < before.len() {
                            let j = choose|j: int| 0 <= j < i && #[trigger] before[k] == self.list@[j];
                            assert(out@[k] == self.list@[j]);
                        } else {
                            assert(out@[k] == self.list@[i as int]);
                        }
                    }
                }
            }
            i = i + 1;
        }
        proof {
            assert(self.list@.subrange(0, self.list@.len() as int) == self.list@);
        }
        self.list = out;
    }

    /// Removes every entry.
    pub fn clear_filters(&mut self)
        ensures
            final(self)@ == Seq::<HandshakeFilter>::empty(),
            final(self).wf(),
    {
        self.list = Vec::new();
    }

    /// Decides whether a candidate may go on: see `admits`.
    pub fn evaluate(&self, c: &Candidate) -> (r: bool)
        ensures
            r == admits(self@, *c),
    {
        let mut any_block = false;
        let mut any_allow = false;
        let mut let_through = false;
        let mut i: usize = 0;
        while i < self.list.len()
            invariant
                i <= self.list@.len(),
                any_block == exists|j: int| 0 <= j < i && !self.list@[j].allow && key_hits(self.list@[j].key, *c),
                any_allow == exists|j: int| 0 <= j < i && self.list@[j].allow,
                let_through == exists|j: int| 0 <= j < i && self.list@[j].allow
                    && (!key_known(self.list@[j].key, *c) || key_hits(self.list@[j].key, *c)),
            decreases self.list@.len() - i,
        {
            let f = &self.list[i];
            if f.allow {
                any_allow = true;
                if !f.key.known(c) || f.key.hits(c) {
                    let_through = true;
                }
            } else if f.key.hits(c) {
                any_block = true;
            }
            i = i + 1;
        }
        !any_block && (!any_allow || let_through)
    }
}

/// Evaluation is a function of the registry's entries and the candidate: evaluated
/// twice on the same entries, with no mutation between, it gives the same decision.
pub proof fn lemma_evaluate_stable(a: Filters, b: Filters, c: Candidate)
    requires
        a@ == b@,
    ensures
        admits(a@, c) == admits(b@, c),
{
}

} // verus!
