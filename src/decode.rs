use vstd::prelude::*;

use crate::bencode::Bencode;
use crate::encode::{
    lemma_encode_first, lemma_encode_injective, lemma_entries_at, lemma_same_dict, lemma_items_at, same_value, digits, encode, encode_bytes, encode_entries, encode_items, int_text, lemma_digits_are_digits,
    lemma_digits_first, lemma_digits_injective, lemma_digits_prefix,
};

verus! {

/// Why a byte string is not the bencode form of a value.
#[derive(Clone, Copy, Debug, PartialEq, Eq, Structural)]
pub enum DecodeError {
    /// The input ended inside a value.
    UnexpectedEnd,
    /// A byte that cannot start or continue a value here.
    InvalidByte,
    /// An integer or a length that is malformed or out of range.
    InvalidNumber,
    /// A dictionary whose keys are not strictly ascending.
    UnorderedKeys,
    /// Bytes left over after the value.
    TrailingBytes,
}

/// `a` sorts strictly before `b`, byte by byte, a proper prefix first.
pub open spec fn lex_lt(a: Seq<u8>, b: Seq<u8>) -> bool {
    exists|k: int|
        0 <= k <= a.len() && k <= b.len() && a.subrange(0, k) == b.subrange(0, k) && ((k == a.len()
            && k < b.len()) || (k < a.len() && k < b.len() && a[k] < b[k]))
}

/// The keys of a dictionary's entries are strictly ascending.
pub open spec fn keys_ascending(s: Seq<(Vec<u8>, Bencode)>) -> bool {
    forall|i: int| 0 <= i < s.len() - 1 ==> lex_lt(#[trigger] s[i].0@, s[i + 1].0@)
}

/// Every dictionary in the value, at any depth, has strictly ascending keys.
pub open spec fn well_ordered(v: Bencode) -> bool
    decreases v,
{
    match v {
        Bencode::List(l) => forall|i: int| 0 <= i < l@.len() ==> well_ordered(#[trigger] l@[i]),
        Bencode::Dict(d) => keys_ascending(d@) && forall|i: int|
            0 <= i < d@.len() ==> well_ordered(#[trigger] d@[i].1),
        _ => true,
    }
}

/// The same value as a well-ordered one is well-ordered.
pub proof fn lemma_same_value_well_ordered(a: Bencode, b: Bencode)
    requires
        same_value(a, b),
        well_ordered(a),
    ensures
        well_ordered(b),
    decreases a,
{
    match (a, b) {
        (Bencode::List(x), Bencode::List(y)) => {
            assert forall|i: int| 0 <= i < y@.len() implies well_ordered(#[trigger] y@[i]) by {
                assert(decreases_to!(a => a->List_0));
                assert(decreases_to!(a->List_0 => x@));
                assert(decreases_to!(x@ => x@[i]));
                lemma_same_value_well_ordered(x@[i], y@[i]);
            }
        },
        (Bencode::Dict(x), Bencode::Dict(y)) => {
            lemma_same_dict(a, b);
            assert forall|i: int| 0 <= i < y@.len() - 1 implies lex_lt(#[trigger] y@[i].0@, y@[i + 1].0@) by {
                assert(x@[i].0@ == y@[i].0@);
                assert(x@[i + 1].0@ == y@[i + 1].0@);
                assert(lex_lt(x@[i].0@, x@[i + 1].0@));
            }
            assert forall|i: int| 0 <= i < y@.len() implies well_ordered(#[trigger] y@[i].1) by {
                assert(decreases_to!(a => a->Dict_0));
                assert(decreases_to!(a->Dict_0 => x@));
                assert(decreases_to!(x@ => x@[i]));
                assert(decreases_to!(x@[i] => x@[i].1));
                assert(same_value(x@[i].1, y@[i].1));
                lemma_same_value_well_ordered(x@[i].1, y@[i].1);
            }
        },
        _ => {},
    }
}

/// Whether `a` sorts strictly before `b`.
pub fn bytes_less(a: &[u8], b: &[u8]) -> (r: bool)
    ensures
        r == lex_lt(a@, b@),
{
    let mut i: usize = 0;
    while i < a.len() && i < b.len()
        invariant
            i <= a@.len(),
            i <= b@.len(),
            a@.subrange(0, i as int) == b@.subrange(0, i as int),
        decreases a@.len() - i,
    {
        if a[i] != b[i] {
            let r = a[i] < b[i];
            proof {
                if !r {
                    assert forall|k: int|
                        0 <= k <= a@.len() && k <= b@.len() && a@.subrange(0, k) == b@.subrange(0, k)
                        implies !((k == a@.len() && k < b@.len()) || (k < a@.len() && k < b@.len()
                        && a@[k] < b@[k])) by {
                        if k > i {
                            assert(a@.subrange(0, k)[i as int] == a@[i as int]);
                            assert(b@.subrange(0, k)[i as int] == b@[i as int]);
                        } else if k < i {
                            assert(a@.subrange(0, i as int)[k] == a@[k]);
                            assert(b@.subrange(0, i as int)[k] == b@[k]);
                        }
                    }
                }
            }
            return r;
        }
        assert(a@.subrange(0, i + 1) == a@.subrange(0, i as int).push(a@[i as int]));
        assert(b@.subrange(0, i + 1) == b@.subrange(0, i as int).push(b@[i as int]));
        i = i + 1;
    }
    let r = i == a.len() && i < b.len();
    proof {
        if !r {
            assert forall|k: int|
                0 <= k <= a@.len() && k <= b@.len() && a@.subrange(0, k) == b@.subrange(0, k)
                implies !((k == a@.len() && k < b@.len()) || (k < a@.len() && k < b@.len() && a@[k]
                < b@[k])) by {
                if k < i {
                    assert(a@.subrange(0, i as int)[k] == a@[k]);
                    assert(b@.subrange(0, i as int)[k] == b@[k]);
                }
            }
        }
    }
    r
}

/// `buf` holds, at `pos`, the decimal text of `n`, followed by a non-digit or by
/// the end of the input.
pub open spec fn digits_at(buf: Seq<u8>, pos: int, n: nat) -> bool {
    &&& n <= u64::MAX
    &&& 0 <= pos
    &&& pos + digits(n).len() <= buf.len()
    &&& buf.subrange(pos, pos + digits(n).len()) == digits(n)
    &&& (pos + digits(n).len() == buf.len() || !(48 <= buf[pos + digits(n).len()] <= 57))
}

/// Reads a run of decimal digits at `pos` without a leading zero (a lone "0"
/// excepted), and the value they spell.
fn parse_digits(buf: &[u8], pos: usize) -> (r: Option<(u64, usize)>)
    ensures
        r matches Some((n, end)) ==> pos < end <= buf@.len() && buf@.subrange(pos as int, end as int)
            == digits(n as nat),
        forall|m: nat| #[trigger] digits_at(buf@, pos as int, m) ==> r == Some(
            (m as u64, (pos + digits(m).len()) as usize),
        ),
{
    if pos >= buf.len() || buf[pos] < 48 || buf[pos] > 57 {
        proof {
            assert forall|m: nat| #[trigger] digits_at(buf@, pos as int, m) implies false by {
                lemma_digits_are_digits(m);
                assert(buf@.subrange(pos as int, pos + digits(m).len())[0] == buf@[pos as int]);
            }
        }
        return None;
    }
    let mut n: u64 = (buf[pos] - 48) as u64;
    let mut i: usize = pos + 1;
    assert(buf@.subrange(pos as int, i as int) =~= digits(n as nat));
    if n == 0 {
        proof {
            assert forall|m: nat| #[trigger] digits_at(buf@, pos as int, m) implies m == 0 && digits(m).len() == 1 by {
                lemma_digits_first(m);
                lemma_digits_are_digits(m);
                assert(buf@.subrange(pos as int, pos + digits(m).len())[0] == buf@[pos as int]);
            }
        }
        return Some((0, i));
    }
    proof {
        assert forall|m: nat| #[trigger] digits_at(buf@, pos as int, m) implies i <= pos + digits(m).len() && n <= m by {
            lemma_digits_are_digits(m);
            assert(buf@.subrange(pos as int, pos + digits(m).len())[0] == buf@[pos as int]);
            lemma_digits_prefix(m, 1);
            let q = choose|q: nat| q <= m && #[trigger] digits(q) == digits(m).subrange(0, 1);
            assert(digits(m).subrange(0, 1) =~= buf@.subrange(pos as int, i as int));
            lemma_digits_injective(q, n as nat);
        }
    }
    while i < buf.len() && buf[i] >= 48 && buf[i] <= 57
        invariant
            pos < i <= buf@.len(),
            n >= 1,
            buf@.subrange(pos as int, i as int) == digits(n as nat),
            forall|m: nat| #[trigger] digits_at(buf@, pos as int, m) ==> i <= pos + digits(m).len() && n <= m,
        decreases buf@.len() - i,
    {
        let d: u64 = (buf[i] - 48) as u64;
        let ghost next: nat = (n * 10 + d) as nat;
        proof {
            assert(next / 10 == n && next % 10 == d) by (nonlinear_arith)
                requires
                    next == n * 10 + d,
                    d < 10,
            ;
            assert(next >= 10) by (nonlinear_arith)
                requires
                    next == n * 10 + d,
                    n >= 1,
            ;
            assert(buf@.subrange(pos as int, i + 1) =~= buf@.subrange(pos as int, i as int).push(buf@[i as int]));
            assert(digits(next) == buf@.subrange(pos as int, i + 1));
            assert forall|m: nat| #[trigger] digits_at(buf@, pos as int, m) implies i + 1 <= pos + digits(m).len() && next <= m by {
                lemma_digits_are_digits(m);
                let k = pos + digits(m).len();
                if i == k {
                    assert(false);
                }
                lemma_digits_prefix(m, i + 1 - pos);
                let q = choose|q: nat| q <= m && #[trigger] digits(q) == digits(m).subrange(0, i + 1 - pos);
                assert(digits(m).subrange(0, i + 1 - pos) =~= buf@.subrange(pos as int, k).subrange(0, i + 1 - pos));
                assert(buf@.subrange(pos as int, k).subrange(0, i + 1 - pos) =~= buf@.subrange(pos as int, i + 1));
                lemma_digits_injective(q, next);
            }
        }
        if n > (u64::MAX - d) / 10 {
            proof {
                assert forall|m: nat| #[trigger] digits_at(buf@, pos as int, m) implies false by {
                    assert(n * 10 + d > u64::MAX) by (nonlinear_arith)
                        requires
                            n > (u64::MAX - d) / 10,
                            d < 10,
                    ;
                }
            }
            return None;
        }
        let m: u64 = n * 10 + d;
        n = m;
        i = i + 1;
    }
    proof {
        assert forall|m: nat| #[trigger] digits_at(buf@, pos as int, m) implies n == m && i == pos + digits(m).len() by {
            lemma_digits_are_digits(m);
            let k = pos + digits(m).len();
            if i < k {
                assert(buf@.subrange(pos as int, k)[i - pos] == buf@[i as int]);
                assert(false);
            }
            assert(digits(m) =~= buf@.subrange(pos as int, i as int));
            lemma_digits_injective(m, n as nat);
        }
    }
    Some((n, i))
}

/// `buf` holds, at `pos`, the wire form of the byte string `b`.
pub open spec fn bytes_at(buf: Seq<u8>, pos: int, b: Seq<u8>) -> bool {
    &&& 0 <= pos
    &&& pos + encode_bytes(b).len() <= buf.len()
    &&& buf.subrange(pos, pos + encode_bytes(b).len()) == encode_bytes(b)
}

/// `buf` holds, at `pos`, the wire form of the integer `n`.
pub open spec fn int_at(buf: Seq<u8>, pos: int, n: i64) -> bool {
    &&& 0 <= pos
    &&& pos + int_text(n as int).len() + 2 <= buf.len()
    &&& buf.subrange(pos, pos + int_text(n as int).len() + 2) == seq![105u8] + int_text(n as int) + seq![101u8]
}

/// Reads a byte string `<len>:<bytes>` at `pos`.
fn parse_bytes(buf: &[u8], pos: usize) -> (r: Result<(Vec<u8>, usize), DecodeError>)
    ensures
        r matches Ok((b, end)) ==> pos < end <= buf@.len() && buf@.subrange(pos as int, end as int)
            == encode_bytes(b@),
        forall|b: Seq<u8>| #[trigger] bytes_at(buf@, pos as int, b) ==> (r matches Ok((v, end)) && v@ == b
            && end == pos + encode_bytes(b).len()),
{
    let len = buf.len();
    proof {
        assert forall|b: Seq<u8>| #[trigger] bytes_at(buf@, pos as int, b) implies digits_at(buf@, pos as int, b.len()) by {
            assert(b.len() <= len);
            assert(encode_bytes(b)[digits(b.len()).len() as int] == 58u8);
            let k = pos + digits(b.len()).len();
            assert(buf@.subrange(pos as int, pos + encode_bytes(b).len()).subrange(0, digits(b.len()).len() as int)
                =~= buf@.subrange(pos as int, k));
            assert(encode_bytes(b).subrange(0, digits(b.len()).len() as int) =~= digits(b.len()));
            assert(buf@.subrange(pos as int, pos + encode_bytes(b).len())[digits(b.len()).len() as int] == buf@[k]);
        }
    }
    let (n, p) = match parse_digits(buf, pos) {
        Some(x) => x,
        None => {
            return Err(DecodeError::InvalidNumber);
        },
    };
    proof {
        assert forall|b: Seq<u8>| #[trigger] bytes_at(buf@, pos as int, b) implies n == b.len() && p == pos + digits(b.len()).len()
            && p < buf@.len() && buf@[p as int] == 58 by {
            assert(digits_at(buf@, pos as int, b.len()));
            assert(buf@.subrange(pos as int, pos + encode_bytes(b).len())[digits(b.len()).len() as int] == buf@[p as int]);
        }
    }
    if p >= buf.len() {
        return Err(DecodeError::UnexpectedEnd);
    }
    if buf[p] != 58 {
        return Err(DecodeError::InvalidByte);
    }
    let start = p + 1;
    if n > (buf.len() - start) as u64 {
        return Err(DecodeError::UnexpectedEnd);
    }
    let end = start + n as usize;
    let mut out: Vec<u8> = Vec::new();
    let mut i: usize = start;
    while i < end
        invariant
            start <= i <= end <= buf@.len(),
            out@ == buf@.subrange(start as int, i as int),
        decreases end - i,
    {
        out.push(buf[i]);
        assert(buf@.subrange(start as int, i + 1) == buf@.subrange(start as int, i as int).push(buf@[i as int]));
        i = i + 1;
    }
    assert(out@.len() == n);
    assert(buf@.subrange(pos as int, end as int) =~= buf@.subrange(pos as int, p as int) + seq![58u8]
        + buf@.subrange(start as int, end as int));
    proof {
        assert forall|b: Seq<u8>| #[trigger] bytes_at(buf@, pos as int, b) implies out@ == b by {
            assert(buf@.subrange(pos as int, pos + encode_bytes(b).len()).subrange(start - pos, end - pos)
                =~= buf@.subrange(start as int, end as int));
            assert(encode_bytes(b).subrange(start - pos, end - pos) =~= b);
        }
    }
    Ok((out, end))
}

/// Reads an integer `i<decimal>e` at `pos`, whose first byte is known to be `i`.
fn parse_int(buf: &[u8], pos: usize) -> (r: Result<(i64, usize), DecodeError>)
    requires
        pos < buf.len(),
        buf@[pos as int] == 105,
    ensures
        r matches Ok((n, end)) ==> pos < end <= buf@.len() && buf@.subrange(pos as int, end as int)
            == seq![105u8] + int_text(n as int) + seq![101u8],
        forall|n: i64| #[trigger] int_at(buf@, pos as int, n) ==> r == Ok::<(i64, usize), DecodeError>(
            (n, (pos + int_text(n as int).len() + 2) as usize),
        ),
{
    let mut p = pos + 1;
    let negative = p < buf.len() && buf[p] == 45;
    proof {
        assert forall|n: i64| #[trigger] int_at(buf@, pos as int, n) implies (n < 0 <==> negative) by {
            let e = seq![105u8] + int_text(n as int) + seq![101u8];
            assert(buf@.subrange(pos as int, pos + e.len())[1] == buf@[pos + 1]);
            if n >= 0 {
                lemma_digits_are_digits(n as nat);
                assert(e[1] == digits(n as nat)[0]);
            }
        }
    }
    if negative {
        p = p + 1;
    }
    proof {
        assert forall|n: i64| #[trigger] int_at(buf@, pos as int, n) implies digits_at(buf@, p as int, if n < 0 { (-n) as nat } else { n as nat }) by {
            let e = seq![105u8] + int_text(n as int) + seq![101u8];
            let m: nat = if n < 0 { (-n) as nat } else { n as nat };
            let k = p + digits(m).len();
            assert(buf@.subrange(pos as int, pos + e.len()).subrange(p - pos, k - pos) =~= buf@.subrange(p as int, k));
            assert(e.subrange(p - pos, k - pos) =~= digits(m));
            assert(buf@.subrange(pos as int, pos + e.len())[k - pos] == buf@[k]);
        }
    }
    let (m, q) = match parse_digits(buf, p) {
        Some(x) => x,
        None => {
            return Err(DecodeError::InvalidNumber);
        },
    };
    proof {
        assert forall|n: i64| #[trigger] int_at(buf@, pos as int, n) implies q < buf@.len() && buf@[q as int] == 101
            && m == (if n < 0 { -n } else { n as int }) by {
            let e = seq![105u8] + int_text(n as int) + seq![101u8];
            let mm: nat = if n < 0 { (-n) as nat } else { n as nat };
            assert(digits_at(buf@, p as int, mm));
            assert(buf@.subrange(pos as int, pos + e.len())[q - pos] == buf@[q as int]);
        }
    }
    if q >= buf.len() {
        return Err(DecodeError::UnexpectedEnd);
    }
    if buf[q] != 101 {
        return Err(DecodeError::InvalidByte);
    }
    let n: i64 = if negative {
        if m == 0 || m > 9223372036854775808u64 {
            return Err(DecodeError::InvalidNumber);
        }
        (-(m as i128)) as i64
    } else {
        if m > 9223372036854775807u64 {
            return Err(DecodeError::InvalidNumber);
        }
        m as i64
    };
    proof {
        if negative {
            assert(buf@.subrange(pos as int, q + 1) =~= seq![105u8] + (seq![45u8] + buf@.subrange(p as int, q as int)) + seq![101u8]);
        } else {
            assert(buf@.subrange(pos as int, q + 1) =~= seq![105u8] + buf@.subrange(p as int, q as int) + seq![101u8]);
        }
    }
    Ok((n, q + 1))
}

/// `buf` holds, at `pos`, the encoding of the well-ordered value `v`.
pub open spec fn value_at(buf: Seq<u8>, pos: int, v: Bencode) -> bool {
    &&& well_ordered(v)
    &&& 0 <= pos
    &&& pos + encode(v).len() <= buf.len()
    &&& buf.subrange(pos, pos + encode(v).len()) == encode(v)
}

/// Where a list's encoding stands at `pos` and its first `k` items end at `p`, the
/// next byte opens item `k`, or closes the list once every item is read.
proof fn lemma_list_step(buf: Seq<u8>, pos: int, v: Bencode, k: int, p: int)
    requires
        value_at(buf, pos, v),
        v is List,
        0 <= k <= v->List_0@.len(),
        p == pos + 1 + encode_items(v->List_0@.subrange(0, k)).len(),
    ensures
        p < pos + encode(v).len(),
        k < v->List_0@.len() ==> encode(v->List_0@[k])[0] != 101 && buf[p] != 101 && value_at(buf, p, v->List_0@[k]),
        k == v->List_0@.len() ==> p == pos + 1 + encode_items(v->List_0@).len() && buf[p] == 101,
{
    let l = v->List_0@;
    let e = encode(v);
    let whole = buf.subrange(pos, pos + e.len());
    assert(e == seq![108u8] + encode_items(l) + seq![101u8]);
    if k < l.len() {
        lemma_items_at(l, k);
        lemma_encode_first(l[k]);
        let a: int = encode_items(l.subrange(0, k)).len() as int;
        let ek = encode(l[k]);
        assert(e.subrange(1 + a, 1 + a + ek.len()) =~= ek);
        assert(whole.subrange(1 + a, 1 + a + ek.len()) =~= buf.subrange(p, p + ek.len()));
        assert(buf.subrange(p, p + ek.len())[0] == buf[p]);
    } else {
        assert(l.subrange(0, k) =~= l);
        assert(whole[e.len() - 1] == buf[p]);
    }
}

/// Where a dictionary's encoding stands at `pos` and its first `k` entries end at
/// `p`, the next byte opens the key of entry `k`, followed by its value, or closes
/// the dictionary once every entry is read.
proof fn lemma_dict_step(buf: Seq<u8>, pos: int, v: Bencode, k: int, p: int)
    requires
        value_at(buf, pos, v),
        v is Dict,
        0 <= k <= v->Dict_0@.len(),
        p == pos + 1 + encode_entries(v->Dict_0@.subrange(0, k)).len(),
    ensures
        p < pos + encode(v).len(),
        k < v->Dict_0@.len() ==> buf[p] != 101 && bytes_at(buf, p, v->Dict_0@[k].0@) && value_at(
            buf,
            p + encode_bytes(v->Dict_0@[k].0@).len(),
            v->Dict_0@[k].1,
        ),
        k == v->Dict_0@.len() ==> p == pos + 1 + encode_entries(v->Dict_0@).len() && buf[p] == 101,
{
    let l = v->Dict_0@;
    let e = encode(v);
    let whole = buf.subrange(pos, pos + e.len());
    assert(e == seq![100u8] + encode_entries(l) + seq![101u8]);
    if k < l.len() {
        lemma_entries_at(l, k);
        lemma_digits_are_digits(l[k].0@.len());
        let a: int = encode_entries(l.subrange(0, k)).len() as int;
        let eb = encode_bytes(l[k].0@);
        let ev = encode(l[k].1);
        assert(e.subrange(1 + a, 1 + a + eb.len()) =~= eb);
        assert(e.subrange(1 + a + eb.len(), 1 + a + eb.len() + ev.len()) =~= ev);
        assert(whole.subrange(1 + a, 1 + a + eb.len()) =~= buf.subrange(p, p + eb.len()));
        assert(whole.subrange(1 + a + eb.len(), 1 + a + eb.len() + ev.len()) =~= buf.subrange(
            p + eb.len(),
            p + eb.len() + ev.len(),
        ));
        assert(buf.subrange(p, p + eb.len())[0] == buf[p]);
        assert(eb[0] == digits(l[k].0@.len())[0]);
    } else {
        assert(l.subrange(0, k) =~= l);
        assert(whole[e.len() - 1] == buf[p]);
    }
}

/// Reads one value at `pos`: what it is and where it ends. Where the input holds
/// there the encoding of a well-ordered value, the read succeeds and ends where that
/// encoding ends.
pub fn decode_at(buf: &[u8], pos: usize) -> (r: Result<(Bencode, usize), DecodeError>)
    ensures
        r matches Ok((v, end)) ==> pos < end <= buf@.len() && buf@.subrange(pos as int, end as int)
            == encode(v) && well_ordered(v),
        forall|v: Bencode| #[trigger] value_at(buf@, pos as int, v) ==> (r matches Ok((w, end)) && end == pos
            + encode(v).len()),
    decreases buf@.len() - pos,
{
    if pos >= buf.len() {
        proof {
            assert forall|v: Bencode| #[trigger] value_at(buf@, pos as int, v) implies false by {
                lemma_encode_first(v);
            }
        }
        return Err(DecodeError::UnexpectedEnd);
    }
    let c = buf[pos];
    proof {
        assert forall|v: Bencode| #[trigger] value_at(buf@, pos as int, v) implies encode(v)[0] == c by {
            lemma_encode_first(v);
            assert(buf@.subrange(pos as int, pos + encode(v).len())[0] == buf@[pos as int]);
        }
    }
    if c == 105 {
        proof {
            assert forall|v: Bencode| #[trigger] value_at(buf@, pos as int, v) implies v is Int && int_at(buf@, pos as int, v->Int_0) by {
                lemma_encode_first(v);
            }
        }
        match parse_int(buf, pos) {
            Ok((n, end)) => Ok((Bencode::Int(n), end)),
            Err(e) => Err(e),
        }
    } else if c >= 48 && c <= 57 {
        proof {
            assert forall|v: Bencode| #[trigger] value_at(buf@, pos as int, v) implies v is Bytes && bytes_at(buf@, pos as int, v->Bytes_0@) by {
                lemma_encode_first(v);
            }
        }
        match parse_bytes(buf, pos) {
            Ok((b, end)) => Ok((Bencode::Bytes(b), end)),
            Err(e) => Err(e),
        }
    } else if c == 108 {
        let mut items: Vec<Bencode> = Vec::new();
        let mut p = pos + 1;
        proof {
            assert forall|v: Bencode| #[trigger] value_at(buf@, pos as int, v) implies v is List && p == pos + 1
                + encode_items(v->List_0@.subrange(0, 0)).len() by {
                lemma_encode_first(v);
                assert(v->List_0@.subrange(0, 0) =~= Seq::<Bencode>::empty());
            }
        }
        loop
            invariant
                pos < p <= buf@.len(),
                buf@.subrange(pos + 1, p as int) == encode_items(items@),
                forall|i: int| 0 <= i < items@.len() ==> well_ordered(#[trigger] items@[i]),
                forall|v: Bencode| #[trigger] value_at(buf@, pos as int, v) ==> v is List && items@.len()
                    <= v->List_0@.len() && p == pos + 1 + encode_items(v->List_0@.subrange(0, items@.len() as int)).len(),
            ensures
                p < buf@.len(),
                buf@[p as int] == 101,
                buf@.subrange(pos + 1, p as int) == encode_items(items@),
                forall|i: int| 0 <= i < items@.len() ==> well_ordered(#[trigger] items@[i]),
                forall|v: Bencode| #[trigger] value_at(buf@, pos as int, v) ==> v is List && p == pos + 1
                    + encode_items(v->List_0@).len(),
            decreases buf@.len() - p,
        {
            let ghost k = items@.len() as int;
            proof {
                assert forall|v: Bencode| #[trigger] value_at(buf@, pos as int, v) implies p < pos + encode(v).len()
                    && (k < v->List_0@.len() ==> encode(v->List_0@[k])[0] != 101 && buf@[p as int] != 101
                        && value_at(buf@, p as int, v->List_0@[k]))
                    && (k == v->List_0@.len() ==> p == pos + 1 + encode_items(v->List_0@).len()) by {
                    lemma_list_step(buf@, pos as int, v, k, p as int);
                }
            }
            if p >= buf.len() {
                return Err(DecodeError::UnexpectedEnd);
            }
            if buf[p] == 101 {
                break;
            }
            proof {
                assert forall|v: Bencode| #[trigger] value_at(buf@, pos as int, v) implies k < v->List_0@.len()
                    && value_at(buf@, p as int, v->List_0@[k]) by {
                    lemma_list_step(buf@, pos as int, v, k, p as int);
                }
            }
            let (v, end) = match decode_at(buf, p) {
                Ok(x) => x,
                Err(e) => {
                    return Err(e);
                },
            };
            let ghost before = items@;
            items.push(v);
            proof {
                assert(items@.drop_last() == before);
                assert(buf@.subrange(pos + 1, end as int) =~= buf@.subrange(pos + 1, p as int) + buf@.subrange(p as int, end as int));
                assert forall|u: Bencode| #[trigger] value_at(buf@, pos as int, u) implies end == pos + 1
                    + encode_items(u->List_0@.subrange(0, k + 1)).len() by {
                    lemma_items_at(u->List_0@, k);
                }
            }
            p = end;
        }
        let v = Bencode::List(items);
        proof {
            assert(buf@.subrange(pos as int, p + 1) =~= seq![108u8] + buf@.subrange(pos + 1, p as int) + seq![101u8]);
        }
        Ok((v, p + 1))
    } else if c == 100 {
        let mut entries: Vec<(Vec<u8>, Bencode)> = Vec::new();
        let mut p = pos + 1;
        proof {
            assert forall|v: Bencode| #[trigger] value_at(buf@, pos as int, v) implies v is Dict && p == pos + 1
                + encode_entries(v->Dict_0@.subrange(0, 0)).len() by {
                lemma_encode_first(v);
                assert(v->Dict_0@.subrange(0, 0) =~= Seq::<(Vec<u8>, Bencode)>::empty());
            }
        }
        loop
            invariant
                pos < p <= buf@.len(),
                buf@.subrange(pos + 1, p as int) == encode_entries(entries@),
                keys_ascending(entries@),
                forall|i: int| 0 <= i < entries@.len() ==> well_ordered(#[trigger] entries@[i].1),
                forall|v: Bencode| #[trigger] value_at(buf@, pos as int, v) ==> v is Dict && entries@.len()
                    <= v->Dict_0@.len() && p == pos + 1 + encode_entries(v->Dict_0@.subrange(0, entries@.len() as int)).len()
                    && forall|j: int| 0 <= j < entries@.len() ==> #[trigger] entries@[j].0@ == v->Dict_0@[j].0@,
            ensures
                p < buf@.len(),
                buf@[p as int] == 101,
                buf@.subrange(pos + 1, p as int) == encode_entries(entries@),
                keys_ascending(entries@),
                forall|i: int| 0 <= i < entries@.len() ==> well_ordered(#[trigger] entries@[i].1),
                forall|v: Bencode| #[trigger] value_at(buf@, pos as int, v) ==> v is Dict && p == pos + 1
                    + encode_entries(v->Dict_0@).len(),
            decreases buf@.len() - p,
        {
            let ghost k = entries@.len() as int;
            proof {
                assert forall|v: Bencode| #[trigger] value_at(buf@, pos as int, v) implies p < pos + encode(v).len()
                    && (k < v->Dict_0@.len() ==> buf@[p as int] != 101 && bytes_at(buf@, p as int, v->Dict_0@[k].0@)
                        && value_at(buf@, p + encode_bytes(v->Dict_0@[k].0@).len(), v->Dict_0@[k].1))
                    && (k == v->Dict_0@.len() ==> p == pos + 1 + encode_entries(v->Dict_0@).len()) by {
                    lemma_dict_step(buf@, pos as int, v, k, p as int);
                }
            }
            if p >= buf.len() {
                return Err(DecodeError::UnexpectedEnd);
            }
            if buf[p] == 101 {
                break;
            }
            proof {
                assert forall|v: Bencode| #[trigger] value_at(buf@, pos as int, v) implies k < v->Dict_0@.len()
                    && bytes_at(buf@, p as int, v->Dict_0@[k].0@)
                    && value_at(buf@, p + encode_bytes(v->Dict_0@[k].0@).len(), v->Dict_0@[k].1) by {
                    lemma_dict_step(buf@, pos as int, v, k, p as int);
                }
            }
            let (key, kend) = match parse_bytes(buf, p) {
                Ok(x) => x,
                Err(e) => {
                    return Err(e);
                },
            };
            let n = entries.len();
            if n > 0 && !bytes_less(entries[n - 1].0.as_slice(), key.as_slice()) {
                proof {
                    assert forall|v: Bencode| #[trigger] value_at(buf@, pos as int, v) implies false by {
                        let l = v->Dict_0@;
                        assert(entries@[k - 1].0@ == l[k - 1].0@);
                        assert(keys_ascending(l));
                        assert(lex_lt(l[k - 1].0@, l[k].0@));
                    }
                }
                return Err(DecodeError::UnorderedKeys);
            }
            let (v, end) = match decode_at(buf, kend) {
                Ok(x) => x,
                Err(e) => {
                    return Err(e);
                },
            };
            let ghost before = entries@;
            entries.push((key, v));
            proof {
                assert(entries@.drop_last() == before);
                assert(buf@.subrange(pos + 1, end as int) =~= buf@.subrange(pos + 1, p as int)
                    + buf@.subrange(p as int, kend as int) + buf@.subrange(kend as int, end as int));
                assert forall|i: int| 0 <= i < entries@.len() - 1 implies lex_lt(#[trigger] entries@[i].0@, entries@[i + 1].0@) by {
                    if i < n - 1 {
                        assert(entries@[i] == before[i] && entries@[i + 1] == before[i + 1]);
                    }
                }
                assert forall|u: Bencode| #[trigger] value_at(buf@, pos as int, u) implies end == pos + 1
                    + encode_entries(u->Dict_0@.subrange(0, k + 1)).len()
                    && forall|j: int| 0 <= j < entries@.len() ==> #[trigger] entries@[j].0@ == u->Dict_0@[j].0@ by {
                    lemma_entries_at(u->Dict_0@, k);
                    assert forall|j: int| 0 <= j < entries@.len() implies #[trigger] entries@[j].0@ == u->Dict_0@[j].0@ by {
                        if j < k {
                            assert(entries@[j] == before[j]);
                        }
                    }
                }
            }
            p = end;
        }
        let v = Bencode::Dict(entries);
        proof {
            assert(buf@.subrange(pos as int, p + 1) =~= seq![100u8] + buf@.subrange(pos + 1, p as int) + seq![101u8]);
        }
        Ok((v, p + 1))
    } else {
        proof {
            assert forall|v: Bencode| #[trigger] value_at(buf@, pos as int, v) implies false by {
                lemma_encode_first(v);
            }
        }
        Err(DecodeError::InvalidByte)
    }
}

/// Reads a whole input as one value. It succeeds exactly on the encodings of
/// values whose dictionaries' keys are strictly ascending (with every integer in
/// range of `i64`); whatever comes back encodes to exactly the input.
pub fn decode(buf: &[u8]) -> (r: Result<Bencode, DecodeError>)
    ensures
        r matches Ok(v) ==> encode(v) == buf@ && well_ordered(v),
        (exists|v: Bencode| well_ordered(v) && encode(v) == buf@) ==> r is Ok,
        forall|x: Bencode| well_ordered(x) && #[trigger] encode(x) == buf@ ==> (r matches Ok(v) && same_value(v, x)),
        forall|x: Bencode| !well_ordered(x) && #[trigger] encode(x) == buf@ ==> r is Err,
{
    let (v, end) = match decode_at(buf, 0) {
        Ok(x) => x,
        Err(e) => {
            proof {
                assert forall|u: Bencode| well_ordered(u) && encode(u) == buf@ implies false by {
                    assert(buf@.subrange(0, encode(u).len() as int) =~= buf@);
                    assert(value_at(buf@, 0, u));
                }
            }
            return Err(e);
        },
    };
    if end != buf.len() {
        proof {
            assert forall|u: Bencode| well_ordered(u) && encode(u) == buf@ implies false by {
                assert(buf@.subrange(0, encode(u).len() as int) =~= buf@);
                assert(value_at(buf@, 0, u));
            }
        }
        return Err(DecodeError::TrailingBytes);
    }
    assert(buf@.subrange(0, end as int) == buf@);
    proof {
        assert forall|x: Bencode| well_ordered(x) && #[trigger] encode(x) == buf@ implies same_value(v, x) by {
            lemma_encode_injective(v, x);
        }
        assert forall|x: Bencode| #[trigger] encode(x) == buf@ implies well_ordered(x) by {
            lemma_encode_injective(v, x);
            lemma_same_value_well_ordered(v, x);
        }
    }
    Ok(v)
}

} // verus!
