use vstd::prelude::*;

use crate::bencode::Bencode;

verus! {

/// The decimal digits of a natural number, most significant first, without
/// leading zeros.
pub open spec fn digits(n: nat) -> Seq<u8>
    decreases n,
{
    if n < 10 {
        seq![(48 + n) as u8]
    } else {
        digits(n / 10).push((48 + n % 10) as u8)
    }
}

/// Every byte of a decimal text is an ASCII digit, and it is never empty.
pub proof fn lemma_digits_are_digits(n: nat)
    ensures
        digits(n).len() >= 1,
        forall|i: int| 0 <= i < digits(n).len() ==> 48 <= #[trigger] digits(n)[i] <= 57,
        n < 10 <==> digits(n).len() == 1,
    decreases n,
{
    if n >= 10 {
        lemma_digits_are_digits(n / 10);
    }
}

/// A decimal text opens with a zero only where it is "0".
pub proof fn lemma_digits_first(n: nat)
    ensures
        n > 0 ==> digits(n)[0] != 48,
    decreases n,
{
    if n >= 10 {
        lemma_digits_first(n / 10);
        lemma_digits_are_digits(n / 10);
    }
}

/// Distinct numbers have distinct decimal texts.
pub proof fn lemma_digits_injective(a: nat, b: nat)
    requires
        digits(a) == digits(b),
    ensures
        a == b,
    decreases a,
{
    lemma_digits_are_digits(a);
    lemma_digits_are_digits(b);
    if a >= 10 && b >= 10 {
        assert(digits(a / 10) == digits(a).drop_last());
        assert(digits(b / 10) == digits(b).drop_last());
        lemma_digits_injective(a / 10, b / 10);
        assert(digits(a).last() == (48 + a % 10) as u8);
        assert(digits(b).last() == (48 + b % 10) as u8);
        assert(a % 10 == b % 10);
        assert(a == b) by (nonlinear_arith)
            requires
                a / 10 == b / 10,
                a % 10 == b % 10,
        ;
    } else if a < 10 && b < 10 {
        assert(digits(a)[0] == (48 + a) as u8);
        assert(digits(b)[0] == (48 + b) as u8);
    }
}

/// Every nonempty prefix of a decimal text is the text of a number no larger.
pub proof fn lemma_digits_prefix(n: nat, j: int)
    requires
        1 <= j <= digits(n).len(),
    ensures
        exists|q: nat| q <= n && #[trigger] digits(q) == digits(n).subrange(0, j),
    decreases n,
{
    if j == digits(n).len() {
        assert(digits(n) == digits(n).subrange(0, j));
    } else {
        lemma_digits_are_digits(n);
        assert(n >= 10);
        assert(digits(n).subrange(0, j) == digits(n / 10).subrange(0, j));
        lemma_digits_prefix(n / 10, j);
        let q = choose|q: nat| q <= n / 10 && #[trigger] digits(q) == digits(n / 10).subrange(0, j);
        assert(q <= n);
    }
}

/// The decimal text of an integer: a minus sign for negatives, never "-0".
pub open spec fn int_text(n: int) -> Seq<u8> {
    if n < 0 {
        seq![45u8] + digits((-n) as nat)
    } else {
        digits(n as nat)
    }
}

/// A byte string on the wire: its length in decimal, a colon, the bytes.
pub open spec fn encode_bytes(b: Seq<u8>) -> Seq<u8> {
    digits(b.len()) + seq![58u8] + b
}

/// The bencode form of a value: `i<decimal>e`, `<len>:<bytes>`, `l<items>e`, or
/// `d<key value ...>e`, with dictionary entries in the order they are held.
pub open spec fn encode(v: Bencode) -> Seq<u8>
    decreases v,
{
    match v {
        Bencode::Int(n) => seq![105u8] + int_text(n as int) + seq![101u8],
        Bencode::Bytes(b) => encode_bytes(b@),
        Bencode::List(l) => seq![108u8] + encode_items(l@) + seq![101u8],
        Bencode::Dict(d) => seq![100u8] + encode_entries(d@) + seq![101u8],
    }
}

/// The items of a list, encoded one after the other.
pub open spec fn encode_items(s: Seq<Bencode>) -> Seq<u8>
    decreases s,
{
    if s.len() == 0 {
        Seq::empty()
    } else {
        encode_items(s.drop_last()) + encode(s[s.len() - 1])
    }
}

/// The entries of a dictionary, each key encoded as a byte string before its value.
pub open spec fn encode_entries(s: Seq<(Vec<u8>, Bencode)>) -> Seq<u8>
    decreases s,
{
    if s.len() == 0 {
        Seq::empty()
    } else {
        encode_entries(s.drop_last()) + encode_bytes(s[s.len() - 1].0@) + encode(s[s.len() - 1].1)
    }
}

/// The first byte of an encoding tells its kind: `i`, a digit, `l` or `d`; never `e`.
pub proof fn lemma_encode_first(v: Bencode)
    ensures
        encode(v).len() >= 2,
        v is Int <==> encode(v)[0] == 105,
        v is Bytes <==> 48 <= encode(v)[0] <= 57,
        v is List <==> encode(v)[0] == 108,
        v is Dict <==> encode(v)[0] == 100,
{
    match v {
        Bencode::Bytes(b) => {
            lemma_digits_are_digits(b@.len());
            assert(encode(v)[0] == digits(b@.len())[0]);
        },
        _ => {},
    }
}

/// Encoding a list's items distributes over concatenation.
pub proof fn lemma_items_append(a: Seq<Bencode>, b: Seq<Bencode>)
    ensures
        encode_items(a + b) == encode_items(a) + encode_items(b),
    decreases b.len(),
{
    if b.len() == 0 {
        assert(a + b =~= a);
        assert(encode_items(a) + encode_items(b) =~= encode_items(a));
    } else {
        assert((a + b).drop_last() =~= a + b.drop_last());
        lemma_items_append(a, b.drop_last());
        assert(encode_items(a + b) =~= encode_items(a) + encode_items(b));
    }
}

/// The encoded items, split around the item at `k`.
pub proof fn lemma_items_at(s: Seq<Bencode>, k: int)
    requires
        0 <= k < s.len(),
    ensures
        encode_items(s) == encode_items(s.subrange(0, k)) + encode(s[k]) + encode_items(s.subrange(k + 1, s.len() as int)),
        encode_items(s.subrange(0, k + 1)) == encode_items(s.subrange(0, k)) + encode(s[k]),
{
    assert(s.subrange(0, k + 1).drop_last() =~= s.subrange(0, k));
    assert(s =~= s.subrange(0, k + 1) + s.subrange(k + 1, s.len() as int));
    lemma_items_append(s.subrange(0, k + 1), s.subrange(k + 1, s.len() as int));
}

/// Encoding a dictionary's entries distributes over concatenation.
pub proof fn lemma_entries_append(a: Seq<(Vec<u8>, Bencode)>, b: Seq<(Vec<u8>, Bencode)>)
    ensures
        encode_entries(a + b) == encode_entries(a) + encode_entries(b),
    decreases b.len(),
{
    if b.len() == 0 {
        assert(a + b =~= a);
        assert(encode_entries(a) + encode_entries(b) =~= encode_entries(a));
    } else {
        assert((a + b).drop_last() =~= a + b.drop_last());
        lemma_entries_append(a, b.drop_last());
        assert(encode_entries(a + b) =~= encode_entries(a) + encode_entries(b));
    }
}

/// The encoded entries, split around the entry at `k`.
pub proof fn lemma_entries_at(s: Seq<(Vec<u8>, Bencode)>, k: int)
    requires
        0 <= k < s.len(),
    ensures
        encode_entries(s) == encode_entries(s.subrange(0, k)) + encode_bytes(s[k].0@) + encode(s[k].1)
            + encode_entries(s.subrange(k + 1, s.len() as int)),
        encode_entries(s.subrange(0, k + 1)) == encode_entries(s.subrange(0, k)) + encode_bytes(s[k].0@)
            + encode(s[k].1),
{
    assert(s.subrange(0, k + 1).drop_last() =~= s.subrange(0, k));
    assert(s =~= s.subrange(0, k + 1) + s.subrange(k + 1, s.len() as int));
    lemma_entries_append(s.subrange(0, k + 1), s.subrange(k + 1, s.len() as int));
}

/// Two values are the same: same kind, and the same integer, bytes, items or
/// entries (keys compared by their bytes).
pub open spec fn same_value(a: Bencode, b: Bencode) -> bool
    decreases a,
{
    match (a, b) {
        (Bencode::Int(x), Bencode::Int(y)) => x == y,
        (Bencode::Bytes(x), Bencode::Bytes(y)) => x@ == y@,
        (Bencode::List(x), Bencode::List(y)) => x@.len() == y@.len() && forall|i: int|
            0 <= i < x@.len() ==> same_value(#[trigger] x@[i], y@[i]),
        (Bencode::Dict(x), Bencode::Dict(y)) => x@.len() == y@.len() && forall|i: int|
            0 <= i < x@.len() ==> x@[i].0@ == y@[i].0@ && same_value(#[trigger] x@[i].1, y@[i].1),
        _ => false,
    }
}

/// Two dictionaries that are the same have entry by entry the same keys and the
/// same values.
pub proof fn lemma_same_dict(a: Bencode, b: Bencode)
    requires
        same_value(a, b),
        a is Dict,
    ensures
        b is Dict,
        a->Dict_0@.len() == b->Dict_0@.len(),
        forall|i: int| 0 <= i < a->Dict_0@.len() ==> #[trigger] a->Dict_0@[i].0@ == b->Dict_0@[i].0@,
        forall|i: int| 0 <= i < a->Dict_0@.len() ==> same_value(#[trigger] a->Dict_0@[i].1, b->Dict_0@[i].1),
{
    assert forall|i: int| 0 <= i < a->Dict_0@.len() implies #[trigger] a->Dict_0@[i].0@ == b->Dict_0@[i].0@ by {
        assert(same_value(a->Dict_0@[i].1, b->Dict_0@[i].1));
    }
}

/// A decimal text followed by a non-digit cannot be a proper prefix of another.
proof fn lemma_digits_prefix_free(m: nat, n: nat, ra: Seq<u8>, rb: Seq<u8>)
    requires
        digits(m) + ra == digits(n) + rb,
        ra.len() > 0 && !(48 <= ra[0] <= 57),
        rb.len() > 0 && !(48 <= rb[0] <= 57),
    ensures
        m == n,
        ra == rb,
{
    lemma_digits_are_digits(m);
    lemma_digits_are_digits(n);
    let x = digits(m) + ra;
    let y = digits(n) + rb;
    if digits(m).len() < digits(n).len() {
        assert(x[digits(m).len() as int] == ra[0]);
        assert(y[digits(m).len() as int] == digits(n)[digits(m).len() as int]);
    } else if digits(m).len() > digits(n).len() {
        assert(y[digits(n).len() as int] == rb[0]);
        assert(x[digits(n).len() as int] == digits(m)[digits(n).len() as int]);
    }
    assert(digits(m) =~= x.subrange(0, digits(m).len() as int));
    assert(digits(n) =~= y.subrange(0, digits(n).len() as int));
    lemma_digits_injective(m, n);
    assert(ra =~= x.subrange(digits(m).len() as int, x.len() as int));
    assert(rb =~= y.subrange(digits(n).len() as int, y.len() as int));
}

/// A byte string's wire form cannot be a proper prefix of another's.
proof fn lemma_bytes_prefix_free(a: Seq<u8>, b: Seq<u8>, ra: Seq<u8>, rb: Seq<u8>)
    requires
        encode_bytes(a) + ra == encode_bytes(b) + rb,
    ensures
        a == b,
        ra == rb,
{
    let sa = seq![58u8] + a + ra;
    let sb = seq![58u8] + b + rb;
    assert(encode_bytes(a) + ra =~= digits(a.len()) + sa);
    assert(encode_bytes(b) + rb =~= digits(b.len()) + sb);
    lemma_digits_prefix_free(a.len(), b.len(), sa, sb);
    assert(a =~= sa.subrange(1, 1 + a.len() as int));
    assert(b =~= sb.subrange(1, 1 + b.len() as int));
    assert(ra =~= sa.subrange(1 + a.len() as int, sa.len() as int));
    assert(rb =~= sb.subrange(1 + b.len() as int, sb.len() as int));
}

/// An integer's wire form cannot be a proper prefix of another's.
proof fn lemma_int_prefix_free(m: i64, n: i64, ra: Seq<u8>, rb: Seq<u8>)
    requires
        encode(Bencode::Int(m)) + ra == encode(Bencode::Int(n)) + rb,
    ensures
        m == n,
        ra == rb,
{
    let x = encode(Bencode::Int(m)) + ra;
    let y = encode(Bencode::Int(n)) + rb;
    let sa = seq![101u8] + ra;
    let sb = seq![101u8] + rb;
    let ta = int_text(m as int) + sa;
    let tb = int_text(n as int) + sb;
    assert(ta =~= x.subrange(1, x.len() as int));
    assert(tb =~= y.subrange(1, y.len() as int));
    if m < 0 {
        lemma_digits_are_digits((-m) as nat);
    } else {
        lemma_digits_are_digits(m as nat);
    }
    if n < 0 {
        lemma_digits_are_digits((-n) as nat);
    } else {
        lemma_digits_are_digits(n as nat);
    }
    if m < 0 && n < 0 {
        assert(digits((-m) as nat) + sa =~= ta.subrange(1, ta.len() as int));
        assert(digits((-n) as nat) + sb =~= tb.subrange(1, tb.len() as int));
        lemma_digits_prefix_free((-m) as nat, (-n) as nat, sa, sb);
    } else if m >= 0 && n >= 0 {
        lemma_digits_prefix_free(m as nat, n as nat, sa, sb);
    } else if m < 0 {
        assert(ta[0] == 45u8);
        assert(tb[0] == digits(n as nat)[0]);
    } else {
        assert(tb[0] == 45u8);
        assert(ta[0] == digits(m as nat)[0]);
    }
    assert(ra =~= sa.subrange(1, sa.len() as int));
    assert(rb =~= sb.subrange(1, sb.len() as int));
}

/// The encoding of a one-item list body is the item's encoding.
proof fn lemma_items_single(x: Bencode)
    ensures
        encode_items(seq![x]) == encode(x),
{
    assert(seq![x].drop_last() =~= Seq::<Bencode>::empty());
    assert(encode_items(Seq::<Bencode>::empty()) == Seq::<u8>::empty());
    assert(encode_items(seq![x]) =~= encode(x));
}

/// The encoding of a one-entry dictionary body is its key's and its value's.
proof fn lemma_entries_single(x: (Vec<u8>, Bencode))
    ensures
        encode_entries(seq![x]) == encode_bytes(x.0@) + encode(x.1),
{
    assert(seq![x].drop_last() =~= Seq::<(Vec<u8>, Bencode)>::empty());
    assert(encode_entries(Seq::<(Vec<u8>, Bencode)>::empty()) == Seq::<u8>::empty());
    assert(encode_entries(seq![x]) =~= encode_bytes(x.0@) + encode(x.1));
}

/// An encoding cannot be a proper prefix of another: where one encoding followed by
/// some bytes equals another followed by some bytes, the two values are the same.
pub proof fn lemma_encode_prefix_free(a: Bencode, b: Bencode, ra: Seq<u8>, rb: Seq<u8>)
    requires
        encode(a) + ra == encode(b) + rb,
    ensures
        same_value(a, b),
        ra == rb,
    decreases a,
{
    lemma_encode_first(a);
    lemma_encode_first(b);
    let x = encode(a) + ra;
    assert(x[0] == encode(a)[0]);
    assert((encode(b) + rb)[0] == encode(b)[0]);
    match (a, b) {
        (Bencode::Int(m), Bencode::Int(n)) => {
            lemma_int_prefix_free(m, n, ra, rb);
        },
        (Bencode::Bytes(p), Bencode::Bytes(q)) => {
            lemma_bytes_prefix_free(p@, q@, ra, rb);
        },
        (Bencode::List(p), Bencode::List(q)) => {
            assert(decreases_to!(a => a->List_0));
            assert(decreases_to!(a->List_0 => p@));
            let sa = seq![101u8] + ra;
            let sb = seq![101u8] + rb;
            assert(x.subrange(1, x.len() as int) =~= encode_items(p@) + sa);
            assert((encode(b) + rb).subrange(1, x.len() as int) =~= encode_items(q@) + sb);
            lemma_items_prefix_free(a, p@, q@, sa, sb);
            assert(ra =~= sa.subrange(1, sa.len() as int));
            assert(rb =~= sb.subrange(1, sb.len() as int));
        },
        (Bencode::Dict(p), Bencode::Dict(q)) => {
            let sa = seq![101u8] + ra;
            let sb = seq![101u8] + rb;
            assert(x.subrange(1, x.len() as int) =~= encode_entries(p@) + sa);
            assert((encode(b) + rb).subrange(1, x.len() as int) =~= encode_entries(q@) + sb);
            lemma_entries_prefix_free(a, p@, q@, sa, sb);
            assert(ra =~= sa.subrange(1, sa.len() as int));
            assert(rb =~= sb.subrange(1, sb.len() as int));
        },
        _ => {},
    }
}

/// Distinct values have distinct encodings: a value is determined by its encoding.
pub proof fn lemma_encode_injective(a: Bencode, b: Bencode)
    requires
        encode(a) == encode(b),
    ensures
        same_value(a, b),
{
    assert(encode(a) + Seq::<u8>::empty() =~= encode(b) + Seq::<u8>::empty());
    lemma_encode_prefix_free(a, b, Seq::empty(), Seq::empty());
}

/// Encoded items followed by `e` determine the items.
proof fn lemma_items_prefix_free(whole: Bencode, p: Seq<Bencode>, q: Seq<Bencode>, sa: Seq<u8>, sb: Seq<u8>)
    requires
        whole is List,
        forall|i: int| 0 <= i < p.len() ==> decreases_to!(whole => #[trigger] p[i]),
        encode_items(p) + sa == encode_items(q) + sb,
        sa.len() > 0 && sa[0] == 101,
        sb.len() > 0 && sb[0] == 101,
    ensures
        p.len() == q.len(),
        forall|i: int| 0 <= i < p.len() ==> same_value(#[trigger] p[i], q[i]),
        sa == sb,
    decreases whole, p.len(),
{
    if p.len() == 0 && q.len() == 0 {
        assert(encode_items(p) + sa =~= sa);
        assert(encode_items(q) + sb =~= sb);
    } else if p.len() == 0 {
        lemma_items_append(seq![q[0]], q.subrange(1, q.len() as int));
        lemma_items_single(q[0]);
        assert(q =~= seq![q[0]] + q.subrange(1, q.len() as int));
        lemma_encode_first(q[0]);
        assert((encode_items(p) + sa)[0] == sa[0]);
        assert((encode_items(q) + sb)[0] == encode(q[0])[0]);
    } else if q.len() == 0 {
        lemma_items_append(seq![p[0]], p.subrange(1, p.len() as int));
        lemma_items_single(p[0]);
        assert(p =~= seq![p[0]] + p.subrange(1, p.len() as int));
        lemma_encode_first(p[0]);
        assert((encode_items(q) + sb)[0] == sb[0]);
        assert((encode_items(p) + sa)[0] == encode(p[0])[0]);
    } else {
        let p_rest = p.subrange(1, p.len() as int);
        let q_rest = q.subrange(1, q.len() as int);
        lemma_items_append(seq![p[0]], p_rest);
        lemma_items_append(seq![q[0]], q_rest);
        lemma_items_single(p[0]);
        lemma_items_single(q[0]);
        assert(p =~= seq![p[0]] + p_rest);
        assert(q =~= seq![q[0]] + q_rest);
        assert(encode(p[0]) + (encode_items(p_rest) + sa) =~= encode_items(p) + sa);
        assert(encode(q[0]) + (encode_items(q_rest) + sb) =~= encode_items(q) + sb);
        assert(decreases_to!(whole => p[0]));
        lemma_encode_prefix_free(p[0], q[0], encode_items(p_rest) + sa, encode_items(q_rest) + sb);
        assert forall|i: int| 0 <= i < p_rest.len() implies decreases_to!(whole => #[trigger] p_rest[i]) by {
            assert(p_rest[i] == p[i + 1]);
        }
        lemma_items_prefix_free(whole, p_rest, q_rest, sa, sb);
        assert forall|i: int| 0 <= i < p.len() implies same_value(#[trigger] p[i], q[i]) by {
            if i > 0 {
                assert(p[i] == p_rest[i - 1] && q[i] == q_rest[i - 1]);
            }
        }
    }
}

/// Encoded entries followed by `e` determine the entries.
#[verifier::rlimit(60)]
proof fn lemma_entries_prefix_free(
    whole: Bencode,
    p: Seq<(Vec<u8>, Bencode)>,
    q: Seq<(Vec<u8>, Bencode)>,
    sa: Seq<u8>,
    sb: Seq<u8>,
)
    requires
        whole is Dict,
        forall|i: int| 0 <= i < p.len() ==> decreases_to!(whole => #[trigger] p[i].1),
        encode_entries(p) + sa == encode_entries(q) + sb,
        sa.len() > 0 && sa[0] == 101,
        sb.len() > 0 && sb[0] == 101,
    ensures
        p.len() == q.len(),
        forall|i: int| 0 <= i < p.len() ==> #[trigger] p[i].0@ == q[i].0@,
        forall|i: int| 0 <= i < p.len() ==> same_value(#[trigger] p[i].1, q[i].1),
        sa == sb,
    decreases whole, p.len(),
{
    if p.len() == 0 && q.len() == 0 {
        assert(encode_entries(p) + sa =~= sa);
        assert(encode_entries(q) + sb =~= sb);
    } else if p.len() == 0 {
        lemma_entries_append(seq![q[0]], q.subrange(1, q.len() as int));
        lemma_entries_single(q[0]);
        assert(q =~= seq![q[0]] + q.subrange(1, q.len() as int));
        lemma_digits_are_digits(q[0].0@.len());
        assert((encode_entries(p) + sa)[0] == sa[0]);
        assert((encode_entries(q) + sb)[0] == digits(q[0].0@.len())[0]);
    } else if q.len() == 0 {
        lemma_entries_append(seq![p[0]], p.subrange(1, p.len() as int));
        lemma_entries_single(p[0]);
        assert(p =~= seq![p[0]] + p.subrange(1, p.len() as int));
        lemma_digits_are_digits(p[0].0@.len());
        assert((encode_entries(q) + sb)[0] == sb[0]);
        assert((encode_entries(p) + sa)[0] == digits(p[0].0@.len())[0]);
    } else {
        let p_rest = p.subrange(1, p.len() as int);
        let q_rest = q.subrange(1, q.len() as int);
        lemma_entries_append(seq![p[0]], p_rest);
        lemma_entries_append(seq![q[0]], q_rest);
        lemma_entries_single(p[0]);
        lemma_entries_single(q[0]);
        assert(p =~= seq![p[0]] + p_rest);
        assert(q =~= seq![q[0]] + q_rest);
        let restp = encode(p[0].1) + (encode_entries(p_rest) + sa);
        let restq = encode(q[0].1) + (encode_entries(q_rest) + sb);
        assert(encode_bytes(p[0].0@) + restp =~= encode_entries(p) + sa);
        assert(encode_bytes(q[0].0@) + restq =~= encode_entries(q) + sb);
        lemma_bytes_prefix_free(p[0].0@, q[0].0@, restp, restq);
        assert(p[0].0@ == q[0].0@);
        assert(decreases_to!(whole => p[0].1));
        lemma_encode_prefix_free(p[0].1, q[0].1, encode_entries(p_rest) + sa, encode_entries(q_rest) + sb);
        assert(same_value(p[0].1, q[0].1));
        assert forall|i: int| 0 <= i < p_rest.len() implies decreases_to!(whole => #[trigger] p_rest[i].1) by {
            assert(p_rest[i] == p[i + 1]);
        }
        lemma_entries_prefix_free(whole, p_rest, q_rest, sa, sb);
        assert forall|i: int| 0 <= i < p.len() implies #[trigger] p[i].0@ == q[i].0@ by {
            if i > 0 {
                assert(p[i] == p_rest[i - 1] && q[i] == q_rest[i - 1]);
                assert(p_rest[i - 1].0@ == q_rest[i - 1].0@);
            }
        }
        assert forall|i: int| 0 <= i < p.len() implies same_value(#[trigger] p[i].1, q[i].1) by {
            if i > 0 {
                assert(p[i] == p_rest[i - 1] && q[i] == q_rest[i - 1]);
                assert(same_value(p_rest[i - 1].1, q_rest[i - 1].1));
            }
        }
    }
}

/// Appends the decimal digits of `n`.
fn write_digits(n: u64, out: &mut Vec<u8>)
    ensures
        final(out)@ == old(out)@ + digits(n as nat),
    decreases n,
{
    if n < 10 {
        out.push((48 + n) as u8);
        assert(final(out)@ =~= old(out)@ + digits(n as nat));
    } else {
        write_digits(n / 10, out);
        out.push((48 + n % 10) as u8);
        assert(final(out)@ =~= old(out)@ + digits(n as nat));
    }
}

/// Appends a byte string in its wire form.
fn write_bytes(b: &[u8], out: &mut Vec<u8>)
    ensures
        final(out)@ == old(out)@ + encode_bytes(b@),
{
    write_digits(b.len() as u64, out);
    out.push(58u8);
    let mut i: usize = 0;
    let ghost start = out@;
    while i < b.len()
        invariant
            i <= b@.len(),
            out@ == start + b@.subrange(0, i as int),
        decreases b@.len() - i,
    {
        out.push(b[i]);
        assert(b@.subrange(0, i + 1) == b@.subrange(0, i as int).push(b@[i as int]));
        i = i + 1;
    }
    assert(b@.subrange(0, b@.len() as int) == b@);
    assert(final(out)@ =~= old(out)@ + encode_bytes(b@));
}

/// Appends the bencode form of `v`.
pub fn encode_into(v: &Bencode, out: &mut Vec<u8>)
    ensures
        final(out)@ == old(out)@ + encode(*v),
    decreases v,
{
    match v {
        Bencode::Int(n) => {
            out.push(105u8);
            if *n < 0 {
                out.push(45u8);
                let m: u64 = (-(*n as i128)) as u64;
                write_digits(m, out);
            } else {
                write_digits(*n as u64, out);
            }
            out.push(101u8);
            assert(final(out)@ =~= old(out)@ + encode(*v));
        },
        Bencode::Bytes(b) => {
            write_bytes(b.as_slice(), out);
        },
        Bencode::List(l) => {
            out.push(108u8);
            let ghost start = out@;
            let mut i: usize = 0;
            while i < l.len()
                invariant
                    i <= l@.len(),
                    out@ == start + encode_items(l@.subrange(0, i as int)),
                    *v is List && (*v)->List_0 == *l,
                decreases l@.len() - i,
            {
                proof {
                    assert(decreases_to!(*v => (*v)->List_0));
                    assert(decreases_to!(*l => l@));
                    assert(decreases_to!(l@ => l@[i as int]));
                }
                encode_into(&l[i], out);
                assert(l@.subrange(0, i + 1).drop_last() == l@.subrange(0, i as int));
                i = i + 1;
            }
            assert(l@.subrange(0, l@.len() as int) == l@);
            out.push(101u8);
            assert(final(out)@ =~= old(out)@ + encode(*v));
        },
        Bencode::Dict(d) => {
            out.push(100u8);
            let ghost start = out@;
            let mut i: usize = 0;
            while i < d.len()
                invariant
                    i <= d@.len(),
                    out@ == start + encode_entries(d@.subrange(0, i as int)),
                    *v is Dict && (*v)->Dict_0 == *d,
                decreases d@.len() - i,
            {
                let entry = &d[i];
                write_bytes(entry.0.as_slice(), out);
                proof {
                    assert(decreases_to!(*v => (*v)->Dict_0));
                    assert(decreases_to!(*d => d@));
                    assert(decreases_to!(d@ => d@[i as int]));
                    assert(decreases_to!(d@[i as int] => d@[i as int].1));
                }
                encode_into(&entry.1, out);
                assert(d@.subrange(0, i + 1).drop_last() == d@.subrange(0, i as int));
                i = i + 1;
            }
            assert(d@.subrange(0, d@.len() as int) == d@);
            out.push(101u8);
            assert(final(out)@ =~= old(out)@ + encode(*v));
        },
    }
}

/// The bencode form of a value.
pub fn to_bytes(v: &Bencode) -> (r: Vec<u8>)
    ensures
        r@ == encode(*v),
{
    let mut out: Vec<u8> = Vec::new();
    encode_into(v, &mut out);
    assert(out@ =~= encode(*v));
    out
}

} // verus!
