//! Character-level helpers: Unicode white space, trimming, decimal numbers.
//!
//! Strings are modelled by their `Seq<char>` view; the functions here are the
//! building blocks that the configuration checks, the iptables argument lists
//! and the parsers of command output are written with.
use vstd::prelude::*;

verus! {

broadcast use vstd::string::group_string_axioms;

/// A character with the Unicode `White_Space` property (what `char::is_whitespace` tests).
pub open spec fn is_white_space(c: char) -> bool {
    let u = c as u32;
    ||| 0x09 <= u <= 0x0d
    ||| u == 0x20
    ||| u == 0x85
    ||| u == 0xa0
    ||| u == 0x1680
    ||| 0x2000 <= u <= 0x200a
    ||| u == 0x2028
    ||| u == 0x2029
    ||| u == 0x202f
    ||| u == 0x205f
    ||| u == 0x3000
}

/// Every character of `s` is white space (so trimming `s` leaves nothing).
pub open spec fn is_blank(s: Seq<char>) -> bool {
    forall|i: int| 0 <= i < s.len() ==> is_white_space(#[trigger] s[i])
}

/// `s` without its leading white space.
pub open spec fn trim_start(s: Seq<char>) -> Seq<char>
    decreases s.len(),
{
    if s.len() > 0 && is_white_space(s[0]) {
        trim_start(s.drop_first())
    } else {
        s
    }
}

/// `s` without its trailing white space.
pub open spec fn trim_end(s: Seq<char>) -> Seq<char>
    decreases s.len(),
{
    if s.len() > 0 && is_white_space(s.last()) {
        trim_end(s.drop_last())
    } else {
        s
    }
}

/// `s` without leading and trailing white space (what `str::trim` returns).
pub open spec fn trimmed(s: Seq<char>) -> Seq<char> {
    trim_end(trim_start(s))
}

/// An ASCII decimal digit.
pub open spec fn is_digit(c: char) -> bool {
    '0' <= c <= '9'
}

/// The value of a decimal digit character.
pub open spec fn digit_value(c: char) -> nat {
    ((c as u32) - ('0' as u32)) as nat
}

/// The digit character for `d < 10`.
pub open spec fn digit_char(d: nat) -> char {
    (('0' as u32) + d) as char
}

/// All characters of `s` are decimal digits.
pub open spec fn all_digits(s: Seq<char>) -> bool {
    forall|i: int| 0 <= i < s.len() ==> is_digit(#[trigger] s[i])
}

/// The number that a string of decimal digits denotes.
pub open spec fn digits_value(s: Seq<char>) -> nat
    decreases s.len(),
{
    if s.len() == 0 {
        0
    } else {
        digits_value(s.drop_last()) * 10 + digit_value(s.last())
    }
}

/// The decimal text of `n`, without sign or leading zeros.
pub open spec fn decimal(n: nat) -> Seq<char>
    decreases n,
{
    if n < 10 {
        seq![digit_char(n)]
    } else {
        decimal(n / 10).push(digit_char(n % 10))
    }
}

/// What `str::parse::<u16>` returns for `s`: an optional `+`, then one or more
/// decimal digits whose value fits in 16 bits.
pub open spec fn u16_from_text(s: Seq<char>) -> Option<u16> {
    let body = if s.len() > 0 && s[0] == '+' {
        s.drop_first()
    } else {
        s
    };
    if body.len() > 0 && all_digits(body) && digits_value(body) <= 65535 {
        Some(digits_value(body) as u16)
    } else {
        None
    }
}

/// Appends one character to a string (`String::push`).
#[verifier::external_body]
pub(crate) fn push_char(s: &mut String, c: char)
    ensures
        final(s)@ == old(s)@.push(c),
{
    s.push(c);
}

/// The characters of `s`, in order.
pub fn chars_of(s: &str) -> (v: Vec<char>)
    ensures
        v@ == s@,
{
    let mut v: Vec<char> = Vec::new();
    for c in it: s.chars()
        invariant
            it.seq() == s@,
            v@ == it.seq().take(it.index() as int),
    {
        v.push(c);
        proof {
            assert(it.seq().take(it.index() + 1) =~= it.seq().take(it.index() as int).push(c));
        }
    }
    assert(v@ =~= s@);
    v
}

/// The string made of `chars[from..to]`.
pub fn string_from_range(chars: &Vec<char>, from: usize, to: usize) -> (s: String)
    requires
        from <= to <= chars.len(),
    ensures
        s@ == chars@.subrange(from as int, to as int),
{
    let mut s = String::new();
    let mut i = from;
    while i < to
        invariant
            from <= i <= to <= chars.len(),
            s@ == chars@.subrange(from as int, i as int),
        decreases to - i,
    {
        push_char(&mut s, chars[i]);
        proof {
            assert(chars@.subrange(from as int, i + 1) =~= chars@.subrange(from as int, i as int).push(chars@[i as int]));
        }
        i = i + 1;
    }
    s
}

/// An owned copy of a string slice.
pub fn owned(s: &str) -> (r: String)
    ensures
        r@ == s@,
{
    s.to_owned()
}

/// Whether two string slices hold the same characters.
pub fn str_eq(a: &str, b: &str) -> (r: bool)
    ensures
        r == (a@ == b@),
{
    let x = a.to_owned();
    let y = b.to_owned();
    x == y
}

/// `char::is_whitespace`: the Unicode `White_Space` property.
pub fn char_is_whitespace(c: char) -> (r: bool)
    ensures
        r == is_white_space(c),
{
    let u = c as u32;
    (0x09 <= u && u <= 0x0d) || u == 0x20 || u == 0x85 || u == 0xa0 || u == 0x1680 || (0x2000
        <= u && u <= 0x200a) || u == 0x2028 || u == 0x2029 || u == 0x202f || u == 0x205f || u
        == 0x3000
}

proof fn lemma_trim_start_skip(s: Seq<char>, i: int)
    requires
        0 <= i <= s.len(),
        forall|k: int| 0 <= k < i ==> is_white_space(#[trigger] s[k]),
    ensures
        trim_start(s) == trim_start(s.subrange(i, s.len() as int)),
    decreases i,
{
    if i > 0 {
        assert(is_white_space(s[0]));
        let t = s.drop_first();
        assert forall|k: int| 0 <= k < i - 1 implies is_white_space(#[trigger] t[k]) by {
            assert(t[k] == s[k + 1]);
        }
        lemma_trim_start_skip(t, i - 1);
        assert(t.subrange(i - 1, t.len() as int) =~= s.subrange(i, s.len() as int));
    } else {
        assert(s.subrange(0, s.len() as int) =~= s);
    }
}

proof fn lemma_trim_end_skip(s: Seq<char>, j: int)
    requires
        0 <= j <= s.len(),
        forall|k: int| j <= k < s.len() ==> is_white_space(#[trigger] s[k]),
    ensures
        trim_end(s) == trim_end(s.subrange(0, j)),
    decreases s.len() - j,
{
    if j < s.len() {
        assert(is_white_space(s.last()));
        let t = s.drop_last();
        lemma_trim_end_skip(t, j);
        assert(t.subrange(0, j) =~= s.subrange(0, j));
    } else {
        assert(s.subrange(0, j) =~= s);
    }
}

/// `s` trimmed of leading and trailing white space (`str::trim`).
pub fn trim(s: &str) -> (r: String)
    ensures
        r@ == trimmed(s@),
{
    let v = chars_of(s);
    let n = v.len();
    let mut i: usize = 0;
    while i < n && char_is_whitespace(v[i])
        invariant
            0 <= i <= n == v@.len(),
            forall|k: int| 0 <= k < i ==> is_white_space(#[trigger] v@[k]),
        decreases n - i,
    {
        i = i + 1;
    }
    proof {
        lemma_trim_start_skip(v@, i as int);
    }
    let ghost rest = v@.subrange(i as int, n as int);
    assert(trim_start(v@) == rest) by {
        if rest.len() > 0 {
            assert(rest[0] == v@[i as int]);
        }
    }
    let mut j: usize = n;
    while j > i && char_is_whitespace(v[j - 1])
        invariant
            0 <= i <= j <= n == v@.len(),
            rest == v@.subrange(i as int, n as int),
            forall|k: int| j <= k < n ==> is_white_space(#[trigger] v@[k]),
        decreases j,
    {
        j = j - 1;
    }
    proof {
        let rj = (j - i) as int;
        assert forall|k: int| rj <= k < rest.len() implies is_white_space(#[trigger] rest[k]) by {
            assert(rest[k] == v@[k + i]);
        }
        lemma_trim_end_skip(rest, rj);
        let front = rest.subrange(0, rj);
        assert(front =~= v@.subrange(i as int, j as int));
        if front.len() > 0 {
            assert(front.last() == v@[j - 1]);
        }
        assert(trim_end(front) == front);
    }
    string_from_range(&v, i, j)
}

/// Whether every character of `s` is white space (`s.trim().is_empty()`).
pub fn is_blank_str(s: &str) -> (r: bool)
    ensures
        r == is_blank(s@),
{
    let v = chars_of(s);
    let mut i: usize = 0;
    while i < v.len()
        invariant
            0 <= i <= v@.len(),
            v@ == s@,
            forall|k: int| 0 <= k < i ==> is_white_space(#[trigger] v@[k]),
        decreases v.len() - i,
    {
        if !char_is_whitespace(v[i]) {
            return false;
        }
        i = i + 1;
    }
    true
}

/// Trimming leaves nothing exactly when the string is all white space, so
/// `is_blank_str` tells what `trim` returning an empty string tells.
pub proof fn law_trim_empty_iff_blank(s: Seq<char>)
    ensures
        (trimmed(s).len() == 0) == is_blank(s),
    decreases s.len(),
{
    if s.len() > 0 && is_white_space(s[0]) {
        let t = s.drop_first();
        law_trim_empty_iff_blank(t);
        if is_blank(t) {
            assert forall|i: int| 0 <= i < s.len() implies is_white_space(#[trigger] s[i]) by {
                if i > 0 {
                    assert(s[i] == t[i - 1]);
                }
            }
        }
        if is_blank(s) {
            assert forall|i: int| 0 <= i < t.len() implies is_white_space(#[trigger] t[i]) by {
                assert(t[i] == s[i + 1]);
            }
        }
    } else if s.len() > 0 {
        lemma_trim_end_keeps_first(s);
    }
}

proof fn lemma_trim_end_keeps_first(s: Seq<char>)
    requires
        s.len() > 0,
        !is_white_space(s[0]),
    ensures
        trim_end(s).len() > 0,
    decreases s.len(),
{
    if is_white_space(s.last()) {
        let t = s.drop_last();
        assert(t.len() > 0);
        assert(t[0] == s[0]);
        lemma_trim_end_keeps_first(t);
    }
}

/// Facts about a single digit character.
pub proof fn lemma_digit_char(d: nat)
    requires
        d < 10,
    ensures
        is_digit(digit_char(d)),
        digit_value(digit_char(d)) == d,
        digit_char(d) == '0' <==> d == 0,
        !is_white_space(digit_char(d)),
        digit_char(d) != '.',
        digit_char(d) != ':',
{
}

/// The decimal text of `n`: digits only, no leading zero, denoting `n`, and
/// at most as long as the bounds on `n` allow.
pub proof fn lemma_decimal(n: nat)
    ensures
        all_digits(decimal(n)),
        decimal(n).len() >= 1,
        digits_value(decimal(n)) == n,
        n >= 1 ==> decimal(n)[0] != '0',
        n < 10 ==> decimal(n).len() == 1,
        n < 100 ==> decimal(n).len() <= 2,
        n < 1000 ==> decimal(n).len() <= 3,
        n < 10000 ==> decimal(n).len() <= 4,
        n < 100000 ==> decimal(n).len() <= 5,
    decreases n,
{
    let t = decimal(n);
    if n < 10 {
        lemma_digit_char(n);
        assert(t.drop_last() =~= Seq::<char>::empty());
        assert(digits_value(Seq::<char>::empty()) == 0);
    } else {
        lemma_decimal(n / 10);
        lemma_digit_char(n % 10);
        assert(t.drop_last() =~= decimal(n / 10));
        assert(t.last() == digit_char(n % 10));
        assert(t[0] == decimal(n / 10)[0]);
        assert(digits_value(t) == digits_value(decimal(n / 10)) * 10 + digit_value(t.last()));
        assert((n / 10) * 10 + n % 10 == n);
    }
}

/// A string of digits without a superfluous leading zero is the decimal text
/// of the number it denotes.
pub proof fn lemma_canonical_digits(t: Seq<char>)
    requires
        all_digits(t),
        t.len() >= 1,
        t.len() > 1 ==> t[0] != '0',
    ensures
        t == decimal(digits_value(t)),
        t.len() > 1 ==> digits_value(t) >= 10,
    decreases t.len(),
{
    let d = digit_value(t.last());
    assert(is_digit(t[t.len() - 1]));
    assert(d < 10);
    if t.len() == 1 {
        assert(t.drop_last() =~= Seq::<char>::empty());
        assert(digits_value(Seq::<char>::empty()) == 0);
        assert(digits_value(t) == digits_value(t.drop_last()) * 10 + d);
        assert(digits_value(t) == d);
        lemma_digit_char(d);
        assert(digit_char(d) == t[0]);
        assert(t =~= seq![digit_char(d)]);
    } else {
        let p = t.drop_last();
        assert forall|i: int| 0 <= i < p.len() implies is_digit(#[trigger] p[i]) by {
            assert(p[i] == t[i]);
        }
        assert(p[0] == t[0]);
        lemma_canonical_digits(p);
        lemma_digits_nonzero_first(p);
        let v = digits_value(p);
        assert(digits_value(t) == v * 10 + d);
        assert((v * 10 + d) / 10 == v);
        assert((v * 10 + d) % 10 == d);
        lemma_digit_char(d);
        assert(digit_char(d) == t.last());
        assert(t =~= p.push(t.last()));
    }
}

proof fn lemma_digits_nonzero_first(t: Seq<char>)
    requires
        all_digits(t),
        t.len() >= 1,
        t[0] != '0',
    ensures
        digits_value(t) >= 1,
    decreases t.len(),
{
    if t.len() == 1 {
        assert(t.drop_last() =~= Seq::<char>::empty());
    } else {
        let p = t.drop_last();
        assert(p[0] == t[0]);
        assert forall|i: int| 0 <= i < p.len() implies is_digit(#[trigger] p[i]) by {
            assert(p[i] == t[i]);
        }
        lemma_digits_nonzero_first(p);
    }
}

/// The value of a digit string grows by one digit at a time.
pub proof fn lemma_digits_value_take(t: Seq<char>, k: int)
    requires
        0 <= k < t.len(),
    ensures
        digits_value(t.take(k + 1)) == digits_value(t.take(k)) * 10 + digit_value(t[k]),
{
    assert(t.take(k + 1).drop_last() =~= t.take(k));
}

/// A prefix of a digit string denotes no more than the whole string.
pub proof fn lemma_digits_value_prefix(t: Seq<char>, k: int)
    requires
        0 <= k <= t.len(),
    ensures
        digits_value(t.take(k)) <= digits_value(t),
    decreases t.len() - k,
{
    if k < t.len() {
        lemma_digits_value_take(t, k);
        lemma_digits_value_prefix(t, k + 1);
    } else {
        assert(t.take(k) =~= t);
    }
}

/// Appends the decimal text of `n` to `out`.
pub fn push_decimal(out: &mut String, n: u32)
    ensures
        final(out)@ == old(out)@ + decimal(n as nat),
    decreases n,
{
    if n >= 10 {
        push_decimal(out, n / 10);
    }
    let d: u32 = n % 10;
    let c = (48u8 + d as u8) as char;
    push_char(out, c);
    proof {
        if n >= 10 {
            assert(decimal(n as nat) == decimal((n / 10) as nat).push(digit_char((n % 10) as nat)));
        }
    }
    assert(final(out)@ =~= old(out)@ + decimal(n as nat)) by {
        assert(c == digit_char(d as nat));
    }
}

/// The decimal text of a 16-bit number (`u16::to_string`).
pub fn u16_text(n: u16) -> (s: String)
    ensures
        s@ == decimal(n as nat),
{
    let mut s = String::new();
    push_decimal(&mut s, n as u32);
    assert(s@ =~= decimal(n as nat));
    s
}

/// `str::parse::<u16>` on `chars[from..to]`.
pub fn parse_u16_range(chars: &Vec<char>, from: usize, to: usize) -> (r: Option<u16>)
    requires
        from <= to <= chars.len(),
    ensures
        r == u16_from_text(chars@.subrange(from as int, to as int)),
{
    let ghost s = chars@.subrange(from as int, to as int);
    let mut i = from;
    if i < to && chars[i] == '+' {
        i = i + 1;
    }
    let ghost body = chars@.subrange(i as int, to as int);
    assert(body =~= (if s.len() > 0 && s[0] == '+' { s.drop_first() } else { s }));
    if i == to {
        return None;
    }
    let start = i;
    let mut val: u32 = 0;
    while i < to
        invariant
            from <= start <= i <= to <= chars.len(),
            body == chars@.subrange(start as int, to as int),
            s == chars@.subrange(from as int, to as int),
            body == (if s.len() > 0 && s[0] == '+' { s.drop_first() } else { s }),
            body.len() > 0,
            val <= 65535,
            val == digits_value(body.take(i - start)),
            all_digits(body.take(i - start)),
        decreases to - i,
    {
        let c = chars[i];
        let ghost k = (i - start) as int;
        assert(body[k] == c);
        if !(c >= '0' && c <= '9') {
            assert(!is_digit(body[k]));
            assert(!all_digits(body));
            return None;
        }
        assert(is_digit(body[k]));
        proof {
            lemma_digits_value_take(body, k);
            assert forall|j: int| 0 <= j < k + 1 implies is_digit(#[trigger] body.take(k + 1)[j]) by {
                if j < k {
                    assert(body.take(k + 1)[j] == body.take(k)[j]);
                }
            }
        }
        val = val * 10 + (c as u32 - 48);
        assert(val == digits_value(body.take(k + 1)));
        if val > 65535 {
            proof {
                if all_digits(body) {
                    lemma_digits_value_prefix(body, k + 1);
                }
            }
            return None;
        }
        i = i + 1;
    }
    assert(body.take(body.len() as int) =~= body);
    Some(val as u16)
}

/// A port written out in decimal reads back as the same port.
pub proof fn law_port_text_round_trip(n: u16)
    ensures
        u16_from_text(decimal(n as nat)) == Some(n),
{
    lemma_decimal(n as nat);
    let t = decimal(n as nat);
    assert(is_digit(t[0]));
}

/// Different numbers have different decimal texts.
pub proof fn lemma_decimal_injective(m: nat, n: nat)
    requires
        decimal(m) == decimal(n),
    ensures
        m == n,
{
    lemma_decimal(m);
    lemma_decimal(n);
}

} // verus!
