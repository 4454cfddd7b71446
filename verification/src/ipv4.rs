//! IPv4 addresses as plain values: parsing from dotted-decimal text and
//! formatting back to its canonical form.
//!
//! The external address sources answer with a text body; the provider's
//! records carry the address the same way. Both sides go through the exact
//! grammar below: four decimal octets, each without leading zeros, joined by
//! single dots, with surrounding ASCII whitespace tolerated on input.

use vstd::prelude::*;

verus! {

/// An IPv4 address as its four octets, most significant first.
#[derive(Clone, Copy, PartialEq, Eq, Structural, Debug)]
pub struct Ipv4 {
    pub a: u8,
    pub b: u8,
    pub c: u8,
    pub d: u8,
}

/// ASCII decimal digit.
pub open spec fn is_digit(c: u8) -> bool {
    48 <= c && c <= 57
}

/// ASCII whitespace: space and the five control forms. Multi-byte Unicode
/// whitespace around an address is deliberately not trimmed — the
/// address-echo services answer in plain ASCII.
pub open spec fn is_ws(c: u8) -> bool {
    c == 32 || (9 <= c && c <= 13)
}

/// Value of a string of decimal digits, most significant first.
pub open spec fn dec_value(s: Seq<u8>) -> nat
    decreases s.len(),
{
    if s.len() == 0 {
        0
    } else {
        dec_value(s.drop_last()) * 10 + ((s.last() - 48) as nat)
    }
}

pub open spec fn all_digits(s: Seq<u8>) -> bool {
    forall|i: int| 0 <= i < s.len() ==> is_digit(s[i])
}

/// A well-formed decimal octet: one to three digits, no leading zero,
/// value at most 255.
pub open spec fn is_octet(s: Seq<u8>) -> bool {
    &&& 1 <= s.len() <= 3
    &&& all_digits(s)
    &&& (s.len() > 1 ==> s[0] != 48)
    &&& dec_value(s) <= 255
}

/// Positions of every dot in `s`, in increasing order.
pub open spec fn dot_idxs(s: Seq<u8>) -> Seq<int>
    decreases s.len(),
{
    if s.len() == 0 {
        Seq::empty()
    } else if s.last() == 46 {
        dot_idxs(s.drop_last()).push(s.len() - 1)
    } else {
        dot_idxs(s.drop_last())
    }
}

/// The dotted-decimal IPv4 grammar: exactly three dots, and the four
/// fields between them are well-formed octets.
pub open spec fn ipv4_parse(s: Seq<u8>) -> Option<Ipv4> {
    let d = dot_idxs(s);
    if d.len() == 3 {
        let p0 = s.subrange(0, d[0]);
        let p1 = s.subrange(d[0] + 1, d[1]);
        let p2 = s.subrange(d[1] + 1, d[2]);
        let p3 = s.subrange(d[2] + 1, s.len() as int);
        if is_octet(p0) && is_octet(p1) && is_octet(p2) && is_octet(p3) {
            Some(
                Ipv4 {
                    a: dec_value(p0) as u8,
                    b: dec_value(p1) as u8,
                    c: dec_value(p2) as u8,
                    d: dec_value(p3) as u8,
                },
            )
        } else {
            None
        }
    } else {
        None
    }
}

pub open spec fn trim_front(s: Seq<u8>) -> Seq<u8>
    decreases s.len(),
{
    if s.len() > 0 && is_ws(s[0]) {
        trim_front(s.drop_first())
    } else {
        s
    }
}

pub open spec fn trim_back(s: Seq<u8>) -> Seq<u8>
    decreases s.len(),
{
    if s.len() > 0 && is_ws(s.last()) {
        trim_back(s.drop_last())
    } else {
        s
    }
}

/// `s` with leading and trailing ASCII whitespace removed.
pub open spec fn trim_ws(s: Seq<u8>) -> Seq<u8> {
    trim_back(trim_front(s))
}

/// Canonical decimal digits of `n`, no leading zeros.
pub open spec fn dec_repr(n: nat) -> Seq<u8>
    decreases n,
{
    if n < 10 {
        seq![(48 + n) as u8]
    } else {
        dec_repr(n / 10).push((48 + n % 10) as u8)
    }
}

/// Canonical dotted-decimal text of an address.
pub open spec fn ipv4_repr(v: Ipv4) -> Seq<u8> {
    dec_repr(v.a as nat) + seq![46u8] + dec_repr(v.b as nat) + seq![46u8] + dec_repr(
        v.c as nat,
    ) + seq![46u8] + dec_repr(v.d as nat)
}

proof fn lemma_dec_value_digit_bound(s: Seq<u8>)
    requires
        all_digits(s),
    ensures
        s.len() == 0 ==> dec_value(s) == 0,
        s.len() == 1 ==> dec_value(s) <= 9,
        s.len() == 2 ==> dec_value(s) <= 99,
        s.len() == 3 ==> dec_value(s) <= 999,
    decreases s.len(),
{
    if s.len() > 0 {
        lemma_dec_value_digit_bound(s.drop_last());
    }
}

/// Copy of `s` with surrounding ASCII whitespace removed.
fn trim(s: &Vec<u8>) -> (r: Vec<u8>)
    ensures
        r@ == trim_ws(s@),
{
    let mut lo: usize = 0;
    proof {
        assert(s@.skip(0) =~= s@);
    }
    while lo < s.len() && (s[lo] == 32 || (s[lo] >= 9 && s[lo] <= 13))
        invariant
            0 <= lo <= s@.len(),
            trim_front(s@) == trim_front(s@.skip(lo as int)),
        decreases s@.len() - lo,
    {
        proof {
            assert(s@.skip(lo as int)[0] == s@[lo as int]);
            assert(s@.skip(lo as int).drop_first() =~= s@.skip(lo as int + 1));
        }
        lo = lo + 1;
    }
    proof {
        if lo < s@.len() {
            assert(!is_ws(s@.skip(lo as int)[0]));
        }
        assert(trim_front(s@) =~= s@.skip(lo as int));
    }
    let mut hi: usize = s.len();
    while hi > lo && (s[hi - 1] == 32 || (s[hi - 1] >= 9 && s[hi - 1] <= 13))
        invariant
            lo <= hi <= s@.len(),
            trim_front(s@) == s@.skip(lo as int),
            trim_back(s@.skip(lo as int)) == trim_back(s@.subrange(lo as int, hi as int)),
        decreases hi,
    {
        proof {
            let w = s@.subrange(lo as int, hi as int);
            assert(w.last() == s@[hi - 1]);
            assert(w.drop_last() =~= s@.subrange(lo as int, hi as int - 1));
        }
        hi = hi - 1;
    }
    proof {
        let w = s@.subrange(lo as int, hi as int);
        if hi > lo {
            assert(w.last() == s@[hi - 1]);
        }
        assert(trim_back(s@.subrange(lo as int, hi as int)) == w);
    }
    let mut out: Vec<u8> = Vec::new();
    let mut i: usize = lo;
    while i < hi
        invariant
            lo <= i <= hi <= s@.len(),
            out@ =~= s@.subrange(lo as int, i as int),
        decreases hi - i,
    {
        out.push(s[i]);
        i = i + 1;
    }
    proof {
        assert(out@ =~= s@.subrange(lo as int, hi as int));
    }
    out
}

/// Parse one decimal octet from `w[lo..hi]`.
fn parse_octet(w: &Vec<u8>, lo: usize, hi: usize) -> (r: Option<u8>)
    requires
        lo <= hi <= w@.len(),
    ensures
        match r {
            Some(x) => is_octet(w@.subrange(lo as int, hi as int)) && x == dec_value(
                w@.subrange(lo as int, hi as int),
            ),
            None => !is_octet(w@.subrange(lo as int, hi as int)),
        },
{
    let ghost win = w@.subrange(lo as int, hi as int);
    if hi - lo == 0 || hi - lo > 3 {
        return None;
    }
    if hi - lo > 1 && w[lo] == 48 {
        return None;
    }
    let mut val: u16 = 0;
    let mut j: usize = lo;
    while j < hi
        invariant
            lo <= j <= hi <= w@.len(),
            hi - lo <= 3,
            win == w@.subrange(lo as int, hi as int),
            all_digits(win.take(j - lo)),
            val == dec_value(win.take(j - lo)),
            val <= 999,
        decreases hi - j,
    {
        let c = w[j];
        if c < 48 || c > 57 {
            proof {
                assert(win[j - lo] == c);
                assert(!is_octet(win));
            }
            return None;
        }
        proof {
            let k = j - lo;
            assert(win.take(k + 1).drop_last() =~= win.take(k));
            assert(win.take(k + 1).last() == win[k]);
            assert(win[k] == c);
            lemma_dec_value_digit_bound(win.take(k));
            assert(forall|t: int| 0 <= t < k + 1 ==> is_digit(#[trigger] win.take(k + 1)[t]));
        }
        val = val * 10 + (c - 48) as u16;
        j = j + 1;
    }
    proof {
        assert(win.take(hi - lo) =~= win);
    }
    if val > 255 {
        return None;
    }
    proof {
        assert(1 <= win.len() <= 3);
        if win.len() > 1 {
            assert(win[0] == w@[lo as int]);
        }
    }
    Some(val as u8)
}

/// Parse a dotted-decimal IPv4 address; the whole of `w` must be the
/// address, with nothing around it.
pub fn parse_ipv4(w: &Vec<u8>) -> (r: Option<Ipv4>)
    ensures
        r == ipv4_parse(w@),
{
    let mut dots: Vec<usize> = Vec::new();
    let mut i: usize = 0;
    proof {
        assert(w@.take(0) =~= Seq::<u8>::empty());
        assert(dots@.map_values(|u: usize| u as int) =~= dot_idxs(w@.take(0)));
    }
    while i < w.len()
        invariant
            0 <= i <= w@.len(),
            dots@.map_values(|u: usize| u as int) =~= dot_idxs(w@.take(i as int)),
            forall|t: int| 0 <= t < dots@.len() ==> #[trigger] dots@[t] < i,
        decreases w@.len() - i,
    {
        proof {
            assert(w@.take(i as int + 1).drop_last() =~= w@.take(i as int));
            assert(w@.take(i as int + 1).last() == w@[i as int]);
        }
        if w[i] == 46 {
            dots.push(i);
            proof {
                assert(dots@.map_values(|u: usize| u as int) =~= dot_idxs(
                    w@.take(i as int + 1),
                ));
            }
        }
        i = i + 1;
    }
    proof {
        assert(w@.take(w@.len() as int) =~= w@);
    }
    let ghost d = dot_idxs(w@);
    if dots.len() != 3 {
        return None;
    }
    let d0 = dots[0];
    let d1 = dots[1];
    let d2 = dots[2];
    proof {
        assert(d[0] == d0 as int && d[1] == d1 as int && d[2] == d2 as int);
    }
    if d1 <= d0 + 1 || d2 <= d1 + 1 || d0 == 0 || d2 + 1 >= w.len() {
        // some field between the dots is empty, hence not an octet
        proof {
            lemma_dot_order(w@);
            if d0 == 0 {
                assert(w@.subrange(0, d[0]).len() == 0);
            } else if d1 <= d0 + 1 {
                assert(w@.subrange(d[0] + 1, d[1]).len() == 0);
            } else if d2 <= d1 + 1 {
                assert(w@.subrange(d[1] + 1, d[2]).len() == 0);
            } else {
                assert(w@.subrange(d[2] + 1, w@.len() as int).len() == 0);
            }
        }
        return None;
    }
    proof {
        lemma_dot_order(w@);
    }
    let p0 = parse_octet(w, 0, d0);
    let p1 = parse_octet(w, d0 + 1, d1);
    let p2 = parse_octet(w, d1 + 1, d2);
    let p3 = parse_octet(w, d2 + 1, w.len());
    match (p0, p1, p2, p3) {
        (Some(a), Some(b), Some(c), Some(dd)) => Some(Ipv4 { a, b, c, d: dd }),
        _ => None,
    }
}

/// Every dot position is in range, marks a dot, they come in increasing
/// order, and every dot in the text is listed.
proof fn lemma_dot_order(s: Seq<u8>)
    ensures
        forall|i: int|
            0 <= i < dot_idxs(s).len() ==> 0 <= #[trigger] dot_idxs(s)[i] < s.len() && s[dot_idxs(
                s,
            )[i]] == 46,
        forall|i: int, j: int| 0 <= i < j < dot_idxs(s).len() ==> dot_idxs(s)[i] < dot_idxs(s)[j],
        forall|p: int| 0 <= p < s.len() && s[p] == 46 ==> dot_idxs(s).contains(p),
    decreases s.len(),
{
    if s.len() > 0 {
        let t = s.drop_last();
        lemma_dot_order(t);
        assert(forall|i: int| 0 <= i < t.len() ==> t[i] == s[i]);
        if s.last() == 46 {
            assert(dot_idxs(s) == dot_idxs(t).push(s.len() - 1));
        } else {
            assert(dot_idxs(s) == dot_idxs(t));
        }
        assert forall|i: int| 0 <= i < dot_idxs(s).len() implies 0 <= #[trigger] dot_idxs(s)[i]
            < s.len() && s[dot_idxs(s)[i]] == 46 by {
            if i < dot_idxs(t).len() {
                assert(dot_idxs(s)[i] == dot_idxs(t)[i]);
            }
        }
        assert forall|i: int, j: int| 0 <= i < j < dot_idxs(s).len() implies dot_idxs(s)[i]
            < dot_idxs(s)[j] by {
            if j < dot_idxs(t).len() {
                assert(dot_idxs(s)[i] == dot_idxs(t)[i]);
                assert(dot_idxs(s)[j] == dot_idxs(t)[j]);
            } else {
                assert(dot_idxs(s)[i] == dot_idxs(t)[i]);
            }
        }
        assert forall|p: int| 0 <= p < s.len() && s[p] == 46 implies dot_idxs(s).contains(p) by {
            if p < t.len() {
                assert(t[p] == 46);
                assert(dot_idxs(t).contains(p));
                let w = choose|w: int| 0 <= w < dot_idxs(t).len() && dot_idxs(t)[w] == p;
                assert(dot_idxs(s)[w] == p);
            } else {
                assert(s.last() == 46);
                assert(dot_idxs(s).last() == p);
            }
        }
    }
}

/// Parse the body an address source answered with: surrounding ASCII
/// whitespace is tolerated, anything else must be a dotted-decimal
/// IPv4 address.
pub fn parse_ipv4_body(body: &Vec<u8>) -> (r: Option<Ipv4>)
    ensures
        r == ipv4_parse(trim_ws(body@)),
{
    let t = trim(body);
    parse_ipv4(&t)
}

fn push_octet_repr(out: &mut Vec<u8>, n: u8)
    ensures
        final(out)@ == old(out)@ + dec_repr(n as nat),
{
    let ghost m = n as nat;
    if n >= 100 {
        proof {
            assert(m / 10 / 10 == m / 100 && (100 <= m <= 255 ==> 10 <= m / 10 <= 25 && 1 <= m
                / 100 <= 2)) by (nonlinear_arith);
            assert(dec_repr(m / 100) =~= seq![(48 + m / 100) as u8]);
            assert(dec_repr(m / 10) =~= seq![(48 + m / 100) as u8, (48 + (m / 10) % 10) as u8]);
            assert(dec_repr(m) =~= seq![
                (48 + m / 100) as u8,
                (48 + (m / 10) % 10) as u8,
                (48 + m % 10) as u8,
            ]);
        }
        out.push(48 + n / 100);
        out.push(48 + (n / 10) % 10);
        out.push(48 + n % 10);
        proof {
            assert(out@ =~= old(out)@ + dec_repr(n as nat));
        }
    } else if n >= 10 {
        proof {
            assert(10 <= m <= 99 ==> 1 <= m / 10 <= 9) by (nonlinear_arith);
            assert(dec_repr(m / 10) =~= seq![(48 + m / 10) as u8]);
            assert(dec_repr(m) =~= seq![(48 + m / 10) as u8, (48 + m % 10) as u8]);
        }
        out.push(48 + n / 10);
        out.push(48 + n % 10);
        proof {
            assert(out@ =~= old(out)@ + dec_repr(n as nat));
        }
    } else {
        out.push(48 + n);
        proof {
            assert(out@ =~= old(out)@ + dec_repr(n as nat));
        }
    }
}

/// The canonical digits of `n`: decimal digits throughout, the exact value
/// back, at most three digits for an octet, and no leading zero.
proof fn lemma_dec_repr_shape(n: nat)
    ensures
        all_digits(dec_repr(n)),
        dec_value(dec_repr(n)) == n,
        dec_repr(n).len() >= 1,
        n < 10 ==> dec_repr(n).len() == 1,
        n < 100 ==> dec_repr(n).len() <= 2,
        n < 1000 ==> dec_repr(n).len() <= 3,
        n >= 10 ==> dec_repr(n).len() >= 2,
        dec_repr(n).len() > 1 ==> dec_repr(n)[0] != 48,
    decreases n,
{
    if n < 10 {
        assert(dec_repr(n) == seq![(48 + n) as u8]);
        assert(dec_repr(n).drop_last() =~= Seq::<u8>::empty());
        assert(dec_value(Seq::<u8>::empty()) == 0);
        assert(dec_value(dec_repr(n)) == n);
    } else {
        lemma_dec_repr_shape(n / 10);
        let t = dec_repr(n / 10);
        let c = (48 + n % 10) as u8;
        assert(dec_repr(n) == t.push(c));
        assert((10 <= n ==> 1 <= n / 10) && (n < 100 ==> n / 10 < 10) && (n < 1000 ==> n / 10
            < 100)) by (nonlinear_arith);
        assert forall|i: int| 0 <= i < dec_repr(n).len() implies is_digit(
            #[trigger] dec_repr(n)[i],
        ) by {
            if i < t.len() {
                assert(dec_repr(n)[i] == t[i]);
            } else {
                assert(dec_repr(n)[i] == c);
            }
        }
        assert(t.push(c).drop_last() =~= t);
        assert(t.push(c).last() == c);
        vstd::arithmetic::div_mod::lemma_fundamental_div_mod(n as int, 10);
        assert(dec_value(dec_repr(n)) == (n / 10) * 10 + n % 10);
        assert(dec_repr(n)[0] == t[0]);
        if t.len() == 1 {
            assert(n / 10 < 10);
            assert(dec_repr(n / 10) == seq![(48 + n / 10) as u8]);
            assert(t[0] != 48);
        }
    }
}

/// Formatting is the inverse of parsing: the canonical text of an address
/// parses back to exactly that address.
pub proof fn lemma_text_parses_back(v: Ipv4)
    ensures
        ipv4_parse(ipv4_repr(v)) == Some(v),
{
    lemma_dec_repr_shape(v.a as nat);
    lemma_dec_repr_shape(v.b as nat);
    lemma_dec_repr_shape(v.c as nat);
    lemma_dec_repr_shape(v.d as nat);
    let d0 = dec_repr(v.a as nat);
    let d1 = dec_repr(v.b as nat);
    let d2 = dec_repr(v.c as nat);
    let d3 = dec_repr(v.d as nat);
    let s = ipv4_repr(v);
    let i = d0.len() as int;
    let j = i + 1 + d1.len();
    let k = j + 1 + d2.len();
    let n = s.len() as int;
    assert(n == k + 1 + d3.len());
    assert(s[i] == 46 && s[j] == 46 && s[k] == 46);
    assert(forall|p: int| 0 <= p < i ==> s[p] == d0[p]);
    assert(forall|p: int| i < p < j ==> s[p] == d1[p - i - 1]);
    assert(forall|p: int| j < p < k ==> s[p] == d2[p - j - 1]);
    assert(forall|p: int| k < p < n ==> s[p] == d3[p - k - 1]);
    assert forall|p: int| 0 <= p < n && s[p] == 46 implies (p == i || p == j || p == k) by {
        if p < i {
            assert(is_digit(d0[p]));
        } else if i < p < j {
            assert(is_digit(d1[p - i - 1]));
        } else if j < p < k {
            assert(is_digit(d2[p - j - 1]));
        } else if k < p < n {
            assert(is_digit(d3[p - k - 1]));
        }
    }
    lemma_dot_order(s);
    let d = dot_idxs(s);
    assert(d.contains(i) && d.contains(j) && d.contains(k));
    let wi = choose|w: int| 0 <= w < d.len() && d[w] == i;
    let wj = choose|w: int| 0 <= w < d.len() && d[w] == j;
    let wk = choose|w: int| 0 <= w < d.len() && d[w] == k;
    assert(d.len() >= 3);
    if d.len() > 3 {
        assert(d[0] == i || d[0] == j || d[0] == k);
        assert(d[1] == i || d[1] == j || d[1] == k);
        assert(d[2] == i || d[2] == j || d[2] == k);
        assert(d[3] == i || d[3] == j || d[3] == k);
        assert(d[0] < d[1] < d[2] < d[3]);
        assert(false);
    }
    assert(wi == 0) by {
        if wi > 0 {
            assert(d[0] < d[wi]);
            assert(d[0] == i || d[0] == j || d[0] == k);
        }
    }
    assert(wj == 1) by {
        if wj == 0 {
            assert(d[wj] == j && d[wi] == i && wi > 0);
            assert(d[wi] > d[0]);
        } else if wj == 2 {
            assert(d[0] < d[1] < d[2]);
            assert(d[1] == i || d[1] == j || d[1] == k);
        }
    }
    assert(wk == 2);
    assert(d =~= seq![i, j, k]);
    assert(s.subrange(0, i) =~= d0);
    assert(s.subrange(i + 1, j) =~= d1);
    assert(s.subrange(j + 1, k) =~= d2);
    assert(s.subrange(k + 1, n) =~= d3);
    assert(is_octet(d0) && is_octet(d1) && is_octet(d2) && is_octet(d3));
    assert(ipv4_parse(s) == Some(v));
}

proof fn lemma_dec_value_positive(t: Seq<u8>)
    requires
        t.len() >= 1,
        all_digits(t),
        t[0] != 48,
    ensures
        dec_value(t) >= 1,
    decreases t.len(),
{
    if t.len() > 1 {
        lemma_dec_value_positive(t.drop_last());
    }
}

/// A digit string without a leading zero is the canonical text of its own
/// value.
proof fn lemma_digits_canonical(t: Seq<u8>)
    requires
        t.len() >= 1,
        all_digits(t),
        t.len() > 1 ==> t[0] != 48,
    ensures
        dec_repr(dec_value(t)) == t,
    decreases t.len(),
{
    if t.len() == 1 {
        assert(t.drop_last() =~= Seq::<u8>::empty());
        assert(dec_value(Seq::<u8>::empty()) == 0);
        assert(dec_value(t) == (t[0] - 48) as nat);
        assert(dec_repr(dec_value(t)) =~= t);
    } else {
        let tp = t.drop_last();
        let c = t.last();
        assert(tp[0] == t[0] && is_digit(t[0]));
        lemma_dec_value_positive(tp);
        lemma_digits_canonical(tp);
        let val = dec_value(t);
        assert(val == dec_value(tp) * 10 + ((c - 48) as nat));
        assert(val >= 10) by (nonlinear_arith)
            requires
                dec_value(tp) >= 1,
                val == dec_value(tp) * 10 + ((c - 48) as nat),
        ;
        vstd::arithmetic::div_mod::lemma_fundamental_div_mod_converse(
            val as int,
            10,
            dec_value(tp) as int,
            (c - 48) as int,
        );
        assert(dec_repr(val) == dec_repr(val / 10).push((48 + val % 10) as u8));
        assert(dec_repr(val) =~= t);
    }
}

/// The parser accepts only canonical text: whatever parses to an address is
/// exactly that address's canonical dotted-decimal form — one text per
/// address, one address per text.
pub proof fn lemma_parse_is_canonical(s: Seq<u8>, v: Ipv4)
    requires
        ipv4_parse(s) == Some(v),
    ensures
        s == ipv4_repr(v),
{
    lemma_dot_order(s);
    let d = dot_idxs(s);
    assert(d.len() == 3);
    assert(d[0] < d[1] < d[2] < s.len());
    let p0 = s.subrange(0, d[0]);
    let p1 = s.subrange(d[0] + 1, d[1]);
    let p2 = s.subrange(d[1] + 1, d[2]);
    let p3 = s.subrange(d[2] + 1, s.len() as int);
    assert(is_octet(p0) && is_octet(p1) && is_octet(p2) && is_octet(p3));
    lemma_digits_canonical(p0);
    lemma_digits_canonical(p1);
    lemma_digits_canonical(p2);
    lemma_digits_canonical(p3);
    assert(v.a as nat == dec_value(p0) && v.b as nat == dec_value(p1) && v.c as nat == dec_value(
        p2,
    ) && v.d as nat == dec_value(p3));
    assert(s =~= p0 + seq![46u8] + p1 + seq![46u8] + p2 + seq![46u8] + p3);
    assert(ipv4_repr(v) == dec_repr(v.a as nat) + seq![46u8] + dec_repr(v.b as nat) + seq![46u8]
        + dec_repr(v.c as nat) + seq![46u8] + dec_repr(v.d as nat));
    assert(s == ipv4_repr(v));
}

/// Canonical dotted-decimal text of `v`, the exact form written into
/// update requests.
pub fn ipv4_text(v: &Ipv4) -> (r: Vec<u8>)
    ensures
        r@ == ipv4_repr(*v),
{
    let mut out: Vec<u8> = Vec::new();
    push_octet_repr(&mut out, v.a);
    out.push(46);
    push_octet_repr(&mut out, v.b);
    out.push(46);
    push_octet_repr(&mut out, v.c);
    out.push(46);
    push_octet_repr(&mut out, v.d);
    proof {
        assert(out@ =~= ipv4_repr(*v));
    }
    out
}

} // verus!
