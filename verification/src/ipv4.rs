//! IPv4 addresses and their dotted-decimal text.
use vstd::prelude::*;

use crate::text::{
    all_digits, chars_of, decimal, digits_value, is_digit, lemma_canonical_digits, lemma_decimal,
    lemma_digits_value_prefix, lemma_digits_value_take, push_char, push_decimal,
};

verus! {

/// An IPv4 address, by its four octets in network order.
#[derive(Clone, Copy, Debug, PartialEq, Eq, Structural)]
pub struct Ipv4Addr {
    pub a: u8,
    pub b: u8,
    pub c: u8,
    pub d: u8,
}

/// The dotted-decimal text of an address, as `Display` writes it.
pub open spec fn ipv4_text(ip: Ipv4Addr) -> Seq<char> {
    decimal(ip.a as nat) + seq!['.'] + decimal(ip.b as nat) + seq!['.'] + decimal(ip.c as nat)
        + seq!['.'] + decimal(ip.d as nat)
}

/// What `str::parse::<Ipv4Addr>` returns: the address whose dotted-decimal
/// text is `s`, if there is one.
pub open spec fn ipv4_from_text(s: Seq<char>) -> Option<Ipv4Addr> {
    if exists|ip: Ipv4Addr| ipv4_text(ip) == s {
        Some(choose|ip: Ipv4Addr| ipv4_text(ip) == s)
    } else {
        None
    }
}

impl Ipv4Addr {
    /// The address with the given octets.
    pub fn new(a: u8, b: u8, c: u8, d: u8) -> (ip: Ipv4Addr)
        ensures
            ip == (Ipv4Addr { a, b, c, d }),
    {
        Ipv4Addr { a, b, c, d }
    }
}

/// Where the four numbers and the three dots of an address's text stand.
pub proof fn lemma_ipv4_layout(ip: Ipv4Addr)
    ensures
        ({
            let t = ipv4_text(ip);
            let o1 = decimal(ip.a as nat).len() as int;
            let o2 = o1 + 1 + decimal(ip.b as nat).len();
            let o3 = o2 + 1 + decimal(ip.c as nat).len();
            &&& t.len() == o3 + 1 + decimal(ip.d as nat).len()
            &&& t.subrange(0, o1) == decimal(ip.a as nat)
            &&& t[o1] == '.'
            &&& t.subrange(o1 + 1, o2) == decimal(ip.b as nat)
            &&& t[o2] == '.'
            &&& t.subrange(o2 + 1, o3) == decimal(ip.c as nat)
            &&& t[o3] == '.'
            &&& t.subrange(o3 + 1, t.len() as int) == decimal(ip.d as nat)
            &&& t.len() <= 15
        }),
{
    lemma_decimal(ip.a as nat);
    lemma_decimal(ip.b as nat);
    lemma_decimal(ip.c as nat);
    lemma_decimal(ip.d as nat);
    let t = ipv4_text(ip);
    let o1 = decimal(ip.a as nat).len() as int;
    let o2 = o1 + 1 + decimal(ip.b as nat).len();
    let o3 = o2 + 1 + decimal(ip.c as nat).len();
    assert(t.subrange(0, o1) =~= decimal(ip.a as nat));
    assert(t.subrange(o1 + 1, o2) =~= decimal(ip.b as nat));
    assert(t.subrange(o2 + 1, o3) =~= decimal(ip.c as nat));
    assert(t.subrange(o3 + 1, t.len() as int) =~= decimal(ip.d as nat));
}

/// Two digit runs that start together and both end at a dot end together.
proof fn lemma_same_run(t: Seq<char>, start: int, e1: int, e2: int)
    requires
        0 <= start <= e1 < t.len(),
        start <= e2 < t.len(),
        all_digits(t.subrange(start, e1)),
        all_digits(t.subrange(start, e2)),
        t[e1] == '.',
        t[e2] == '.',
    ensures
        e1 == e2,
{
    if e1 < e2 {
        assert(t.subrange(start, e2)[e1 - start] == t[e1]);
        assert(is_digit(t.subrange(start, e2)[e1 - start]));
    } else if e2 < e1 {
        assert(t.subrange(start, e1)[e2 - start] == t[e2]);
        assert(is_digit(t.subrange(start, e1)[e2 - start]));
    }
}

/// Different addresses have different texts.
pub proof fn lemma_ipv4_text_injective(x: Ipv4Addr, y: Ipv4Addr)
    requires
        ipv4_text(x) == ipv4_text(y),
    ensures
        x == y,
{
    lemma_ipv4_layout(x);
    lemma_ipv4_layout(y);
    lemma_decimal(x.a as nat);
    lemma_decimal(x.b as nat);
    lemma_decimal(x.c as nat);
    lemma_decimal(x.d as nat);
    lemma_decimal(y.a as nat);
    lemma_decimal(y.b as nat);
    lemma_decimal(y.c as nat);
    lemma_decimal(y.d as nat);
    let t = ipv4_text(x);
    let x1 = decimal(x.a as nat).len() as int;
    let x2 = x1 + 1 + decimal(x.b as nat).len();
    let x3 = x2 + 1 + decimal(x.c as nat).len();
    let y1 = decimal(y.a as nat).len() as int;
    let y2 = y1 + 1 + decimal(y.b as nat).len();
    let y3 = y2 + 1 + decimal(y.c as nat).len();
    lemma_same_run(t, 0, x1, y1);
    lemma_same_run(t, x1 + 1, x2, y2);
    lemma_same_run(t, x2 + 1, x3, y3);
}

/// Parsing the text of an address gives the address back.
pub proof fn law_ipv4_text_round_trip(ip: Ipv4Addr)
    ensures
        ipv4_from_text(ipv4_text(ip)) == Some(ip),
{
    let t = ipv4_text(ip);
    assert(exists|x: Ipv4Addr| ipv4_text(x) == t);
    let y = choose|x: Ipv4Addr| ipv4_text(x) == t;
    lemma_ipv4_text_injective(y, ip);
}

/// The digit run of `v` that starts at `pos` stops at `i`.
spec fn is_run(v: Seq<char>, pos: int, i: int) -> bool {
    &&& 0 <= pos <= i <= v.len()
    &&& all_digits(v.subrange(pos, i))
    &&& (i == v.len() || !is_digit(v[i]) || i - pos == 4)
}

/// `decimal(n)` stands in `v` at `pos` and is not followed by a digit.
pub open spec fn decimal_at(v: Seq<char>, pos: int, n: nat) -> bool {
    let e = pos + decimal(n).len();
    &&& 0 <= pos
    &&& e <= v.len()
    &&& v.subrange(pos, e) == decimal(n)
    &&& (e == v.len() || !is_digit(v[e]))
}

proof fn lemma_run_ends_decimal(v: Seq<char>, pos: int, i: int, n: nat)
    requires
        is_run(v, pos, i),
        decimal_at(v, pos, n),
        n < 1000,
    ensures
        i == pos + decimal(n).len(),
{
    lemma_decimal(n);
    let e = pos + decimal(n).len();
    if e < i {
        assert(v.subrange(pos, i)[e - pos] == v[e]);
        assert(is_digit(v.subrange(pos, i)[e - pos]));
    } else if i < e {
        assert(v.subrange(pos, e)[i - pos] == v[i]);
        assert(is_digit(decimal(n)[i - pos]));
    }
}

/// Reads one octet (one to three digits, no superfluous leading zero, at most
/// 255) at `pos`, as `Ipv4Addr`'s parser does; the digit run must end there.
fn parse_octet(v: &Vec<char>, pos: usize) -> (r: Option<(u8, usize)>)
    requires
        pos <= v.len(),
    ensures
        r matches Some((n, e)) ==> pos < e <= v.len() && e == pos + decimal(n as nat).len()
            && decimal_at(v@, pos as int, n as nat),
        forall|n: u8|
            #![trigger decimal(n as nat)]
            decimal_at(v@, pos as int, n as nat) ==> r == Some(
                (n, (pos + decimal(n as nat).len()) as usize),
            ),
{
    let mut i = pos;
    while i < v.len() && v[i] >= '0' && v[i] <= '9' && i - pos < 4
        invariant
            pos <= i <= v.len(),
            i - pos <= 4,
            all_digits(v@.subrange(pos as int, i as int)),
        decreases v.len() - i,
    {
        proof {
            assert forall|k: int| 0 <= k < i + 1 - pos implies is_digit(
                #[trigger] v@.subrange(pos as int, i + 1)[k],
            ) by {
                if k < i - pos {
                    assert(v@.subrange(pos as int, i + 1)[k] == v@.subrange(pos as int, i as int)[k]);
                }
            }
        }
        i = i + 1;
    }
    let ghost run = v@.subrange(pos as int, i as int);
    assert(is_run(v@, pos as int, i as int));
    let k = i - pos;
    if k == 0 || k > 3 || (k > 1 && v[pos] == '0') {
        proof {
            assert forall|n: u8| #![trigger decimal(n as nat)] !decimal_at(v@, pos as int, n as nat) by {
                if decimal_at(v@, pos as int, n as nat) {
                    lemma_run_ends_decimal(v@, pos as int, i as int, n as nat);
                    lemma_decimal(n as nat);
                    assert(run == decimal(n as nat));
                    if k > 1 {
                        assert(run[0] == v@[pos as int]);
                    }
                }
            }
        }
        return None;
    }
    let mut val: u32 = 0;
    let mut j = pos;
    while j < i
        invariant
            pos <= j <= i <= v.len(),
            i - pos <= 3,
            run == v@.subrange(pos as int, i as int),
            all_digits(run),
            val == digits_value(run.take(j - pos)),
            val < 1000,
        decreases i - j,
    {
        proof {
            lemma_digits_value_take(run, j - pos);
            lemma_digits_value_prefix(run, j - pos + 1);
            assert(run[j - pos] == v@[j as int]);
            assert(is_digit(run[j - pos]));
            assert(digits_value(run) < 1000) by {
                lemma_canonical_digits_bound(run);
            }
        }
        val = val * 10 + (v[j] as u32 - 48);
        j = j + 1;
    }
    assert(run.take(run.len() as int) =~= run);
    proof {
        if k > 1 {
            assert(run[0] == v@[pos as int]);
        }
        lemma_canonical_digits(run);
        lemma_decimal(val as nat);
    }
    if val > 255 {
        proof {
            assert forall|n: u8| #![trigger decimal(n as nat)] !decimal_at(v@, pos as int, n as nat) by {
                if decimal_at(v@, pos as int, n as nat) {
                    lemma_run_ends_decimal(v@, pos as int, i as int, n as nat);
                    lemma_decimal(n as nat);
                    assert(run == decimal(n as nat));
                }
            }
        }
        return None;
    }
    let n = val as u8;
    proof {
        assert forall|m: u8| #![trigger decimal(m as nat)] decimal_at(v@, pos as int, m as nat) implies m
            == n by {
            lemma_run_ends_decimal(v@, pos as int, i as int, m as nat);
            lemma_decimal(m as nat);
            assert(run == decimal(m as nat));
        }
    }
    Some((n, i))
}

proof fn lemma_canonical_digits_bound(t: Seq<char>)
    requires
        all_digits(t),
        t.len() <= 3,
    ensures
        digits_value(t) < 1000,
{
    lemma_digits_len_bound(t);
}

proof fn lemma_digits_len_bound(t: Seq<char>)
    requires
        all_digits(t),
    ensures
        t.len() == 0 ==> digits_value(t) < 1,
        t.len() <= 1 ==> digits_value(t) < 10,
        t.len() <= 2 ==> digits_value(t) < 100,
        t.len() <= 3 ==> digits_value(t) < 1000,
    decreases t.len(),
{
    if t.len() > 0 {
        let p = t.drop_last();
        assert forall|i: int| 0 <= i < p.len() implies is_digit(#[trigger] p[i]) by {
            assert(p[i] == t[i]);
        }
        assert(is_digit(t[t.len() - 1]));
        lemma_digits_len_bound(p);
    }
}

spec fn off1(ip: Ipv4Addr) -> int {
    decimal(ip.a as nat).len() as int
}

spec fn off2(ip: Ipv4Addr) -> int {
    off1(ip) + 1 + decimal(ip.b as nat).len()
}

spec fn off3(ip: Ipv4Addr) -> int {
    off2(ip) + 1 + decimal(ip.c as nat).len()
}

proof fn lemma_text_parts(v: Seq<char>, ip: Ipv4Addr)
    requires
        ipv4_text(ip) == v,
    ensures
        decimal_at(v, 0, ip.a as nat),
        v[off1(ip)] == '.',
        decimal_at(v, off1(ip) + 1, ip.b as nat),
        v[off2(ip)] == '.',
        decimal_at(v, off2(ip) + 1, ip.c as nat),
        v[off3(ip)] == '.',
        decimal_at(v, off3(ip) + 1, ip.d as nat),
        off3(ip) + 1 + decimal(ip.d as nat).len() == v.len(),
{
    lemma_ipv4_layout(ip);
    lemma_decimal(ip.a as nat);
    lemma_decimal(ip.b as nat);
    lemma_decimal(ip.c as nat);
    lemma_decimal(ip.d as nat);
}

proof fn lemma_parts_text(v: Seq<char>, ip: Ipv4Addr, p1: int, p2: int, p3: int)
    requires
        0 <= p1 < p2 < p3 < v.len(),
        v.subrange(0, p1) == decimal(ip.a as nat),
        v[p1] == '.',
        v.subrange(p1 + 1, p2) == decimal(ip.b as nat),
        v[p2] == '.',
        v.subrange(p2 + 1, p3) == decimal(ip.c as nat),
        v[p3] == '.',
        v.subrange(p3 + 1, v.len() as int) == decimal(ip.d as nat),
    ensures
        v == ipv4_text(ip),
{
    assert(v =~= v.subrange(0, p1) + seq!['.'] + v.subrange(p1 + 1, p2) + seq!['.'] + v.subrange(
        p2 + 1,
        p3,
    ) + seq!['.'] + v.subrange(p3 + 1, v.len() as int));
}

/// `str::parse::<Ipv4Addr>` on the characters `v`.
pub fn parse_ipv4_chars(v: &Vec<char>) -> (r: Option<Ipv4Addr>)
    ensures
        r == ipv4_from_text(v@),
{
    let n = v.len();
    let ghost witness_exists = exists|ip: Ipv4Addr| ipv4_text(ip) == v@;
    let ghost w = choose|ip: Ipv4Addr| ipv4_text(ip) == v@;
    proof {
        if witness_exists {
            lemma_text_parts(v@, w);
        }
    }
    let r1 = parse_octet(v, 0);
    let (a, p1) = match r1 {
        Some(x) => x,
        None => {
            return None;
        },
    };
    assert(witness_exists ==> a == w.a && p1 == off1(w));
    if p1 >= n || v[p1] != '.' {
        return None;
    }
    let r2 = parse_octet(v, p1 + 1);
    let (b, p2) = match r2 {
        Some(x) => x,
        None => {
            return None;
        },
    };
    assert(witness_exists ==> b == w.b && p2 == off2(w));
    if p2 >= n || v[p2] != '.' {
        return None;
    }
    let r3 = parse_octet(v, p2 + 1);
    let (c, p3) = match r3 {
        Some(x) => x,
        None => {
            return None;
        },
    };
    assert(witness_exists ==> c == w.c && p3 == off3(w));
    if p3 >= n || v[p3] != '.' {
        return None;
    }
    let r4 = parse_octet(v, p3 + 1);
    let (d, p4) = match r4 {
        Some(x) => x,
        None => {
            return None;
        },
    };
    if p4 != n {
        return None;
    }
    let ip = Ipv4Addr { a, b, c, d };
    proof {
        lemma_parts_text(v@, ip, p1 as int, p2 as int, p3 as int);
        law_ipv4_text_round_trip(ip);
    }
    Some(ip)
}

/// `str::parse::<Ipv4Addr>`.
pub fn parse_ipv4(s: &str) -> (r: Option<Ipv4Addr>)
    ensures
        r == ipv4_from_text(s@),
{
    let v = chars_of(s);
    parse_ipv4_chars(&v)
}

/// Appends the dotted-decimal text of `ip` to `out`.
pub fn push_ipv4(out: &mut String, ip: Ipv4Addr)
    ensures
        final(out)@ == old(out)@ + ipv4_text(ip),
{
    push_decimal(out, ip.a as u32);
    push_char(out, '.');
    push_decimal(out, ip.b as u32);
    push_char(out, '.');
    push_decimal(out, ip.c as u32);
    push_char(out, '.');
    push_decimal(out, ip.d as u32);
    assert(final(out)@ =~= old(out)@ + ipv4_text(ip));
}

/// The dotted-decimal text of `ip` (`Ipv4Addr::to_string`).
pub fn ipv4_to_string(ip: Ipv4Addr) -> (s: String)
    ensures
        s@ == ipv4_text(ip),
{
    let mut s = String::new();
    push_ipv4(&mut s, ip);
    assert(s@ =~= ipv4_text(ip));
    s
}

} // verus!
