//! Reading the DNAT rules that `iptables-save -t nat` reports.
use vstd::prelude::*;

use crate::firewall::PRE;
use crate::text::{
    char_is_whitespace, chars_of, is_white_space, parse_u16_range, string_from_range,
    u16_from_text,
};

verus! {

/// A DNAT rule observed in the live NAT table.
#[derive(Clone, Debug)]
pub struct LiveRule {
    pub chain: String,
    pub protocol: String,
    pub public_port: u16,
    pub destination: String,
    pub managed: bool,
}

/// A live rule, as character sequences.
pub struct LiveRuleView {
    pub chain: Seq<char>,
    pub protocol: Seq<char>,
    pub public_port: u16,
    pub destination: Seq<char>,
    pub managed: bool,
}

impl View for LiveRule {
    type V = LiveRuleView;

    open spec fn view(&self) -> LiveRuleView {
        LiveRuleView {
            chain: self.chain@,
            protocol: self.protocol@,
            public_port: self.public_port,
            destination: self.destination@,
            managed: self.managed,
        }
    }
}

/// The views of a list of live rules.
pub open spec fn rule_views(v: Seq<LiveRule>) -> Seq<LiveRuleView> {
    v.map_values(|r: LiveRule| r@)
}

/// A line of `s` that ends at `e` (a line feed, or the end): without a
/// carriage return that stands before the line feed.
pub open spec fn line_text(s: Seq<char>, start: int, e: int) -> Seq<char> {
    if e < s.len() && e > start && s[e - 1] == '\r' {
        s.subrange(start, e - 1)
    } else {
        s.subrange(start, e)
    }
}

/// The lines of `s` from position `i` on, the current line having begun at
/// `start` (what `str::lines` yields: lines end at `\n`, a `\r` before it is
/// dropped, and no empty line follows a final `\n`).
pub open spec fn lines_from(s: Seq<char>, i: int, start: int) -> Seq<Seq<char>>
    decreases s.len() - i,
{
    if i >= s.len() {
        if start < s.len() {
            seq![line_text(s, start, s.len() as int)]
        } else {
            seq![]
        }
    } else if s[i] == '\n' {
        seq![line_text(s, start, i)] + lines_from(s, i + 1, i + 1)
    } else {
        lines_from(s, i + 1, start)
    }
}

/// The lines of `s` (`str::lines`).
pub open spec fn lines_of(s: Seq<char>) -> Seq<Seq<char>> {
    lines_from(s, 0, 0)
}

/// The white-space separated words of `l` from position `i` on; `start` is
/// where the current word began, or negative between words.
pub open spec fn words_from(l: Seq<char>, i: int, start: int) -> Seq<Seq<char>>
    decreases l.len() - i,
{
    if i >= l.len() {
        if start >= 0 {
            seq![l.subrange(start, l.len() as int)]
        } else {
            seq![]
        }
    } else if is_white_space(l[i]) {
        (if start >= 0 {
            seq![l.subrange(start, i)]
        } else {
            seq![]
        }) + words_from(l, i + 1, -1)
    } else {
        words_from(l, i + 1, if start >= 0 { start } else { i })
    }
}

/// The words of `l` (`str::split_whitespace`).
pub open spec fn words_of(l: Seq<char>) -> Seq<Seq<char>> {
    words_from(l, 0, -1)
}

/// The first position at or after `k` where `w` holds `x`.
pub open spec fn first_index(w: Seq<Seq<char>>, x: Seq<char>, k: int) -> Option<int>
    decreases w.len() - k,
{
    if k >= w.len() {
        None
    } else if w[k] == x {
        Some(k)
    } else {
        first_index(w, x, k + 1)
    }
}

/// The word after the first occurrence of `flag`.
pub open spec fn flag_value(w: Seq<Seq<char>>, flag: Seq<char>) -> Option<Seq<char>> {
    match first_index(w, flag, 0) {
        Some(p) => if p + 1 < w.len() {
            Some(w[p + 1])
        } else {
            None
        },
        None => None,
    }
}

/// The words hold `-j DNAT` one after the other.
pub open spec fn has_dnat_jump(w: Seq<Seq<char>>) -> bool {
    exists|k: int| 0 <= k && k + 1 < w.len() && w[k] == "-j"@ && #[trigger] w[k + 1] == "DNAT"@
}

/// The DNAT rule that a line of words appends, if it is one and names a
/// protocol, a numeric destination port and a destination.
pub open spec fn rule_of_words(w: Seq<Seq<char>>) -> Option<LiveRuleView> {
    if w.len() < 2 || w[0] != "-A"@ || !has_dnat_jump(w) {
        None
    } else {
        match (flag_value(w, "-p"@), flag_value(w, "--dport"@), flag_value(w, "--to-destination"@)) {
            (Some(p), Some(d), Some(t)) => match u16_from_text(d) {
                Some(port) => Some(
                    LiveRuleView {
                        chain: w[1],
                        protocol: p,
                        public_port: port,
                        destination: t,
                        managed: w[1] == PRE@,
                    },
                ),
                None => None,
            },
            _ => None,
        }
    }
}

/// The rule that one line of `iptables-save` output describes.
pub open spec fn rule_of_line(l: Seq<char>) -> Option<LiveRuleView> {
    rule_of_words(words_of(l))
}

/// The rules that `iptables-save` output describes, in order.
pub open spec fn rules_of_output(s: Seq<char>) -> Seq<LiveRuleView> {
    lines_of(s).filter_map(|l: Seq<char>| rule_of_line(l))
}

/// The words of a line, as spans into it.
pub open spec fn spans_text(l: Seq<char>, spans: Seq<(usize, usize)>) -> Seq<Seq<char>> {
    spans.map_values(|p: (usize, usize)| l.subrange(p.0 as int, p.1 as int))
}

/// The spans of the white-space separated words of `l`.
fn word_spans(l: &Vec<char>) -> (spans: Vec<(usize, usize)>)
    ensures
        spans_text(l@, spans@) == words_of(l@),
        forall|k: int| 0 <= k < spans@.len() ==> (#[trigger] spans@[k]).0 <= spans@[k].1 <= l@.len(),
{
    let n = l.len();
    let mut spans: Vec<(usize, usize)> = Vec::new();
    let mut i: usize = 0;
    let mut in_word = false;
    let mut start: usize = 0;
    while i < n
        invariant
            0 <= i <= n == l@.len(),
            in_word ==> start < i,
            words_of(l@) == spans_text(l@, spans@) + words_from(
                l@,
                i as int,
                if in_word { start as int } else { -1 },
            ),
            forall|k: int| 0 <= k < spans@.len() ==> (#[trigger] spans@[k]).0 <= spans@[k].1 <= n,
        decreases n - i,
    {
        let ghost before = spans_text(l@, spans@);
        let ghost s0: int = if in_word { start as int } else { -1 };
        assert(words_of(l@) == before + words_from(l@, i as int, s0));
        if char_is_whitespace(l[i]) {
            if in_word {
                spans.push((start, i));
                assert(spans_text(l@, spans@) =~= before.push(l@.subrange(start as int, i as int)));
            } else {
                assert(spans_text(l@, spans@) =~= before);
            }
            in_word = false;
            assert(words_of(l@) =~= spans_text(l@, spans@) + words_from(l@, i + 1, -1));
        } else {
            if !in_word {
                in_word = true;
                start = i;
            }
            assert(spans_text(l@, spans@) =~= before);
        }
        i = i + 1;
    }
    let ghost before = spans_text(l@, spans@);
    if in_word {
        spans.push((start, n));
        assert(spans_text(l@, spans@) =~= before.push(l@.subrange(start as int, n as int)));
    }
    assert(spans_text(l@, spans@) =~= words_of(l@));
    spans
}

/// Whether the span `sp` of `l` holds exactly the characters `lit`.
fn span_is(l: &Vec<char>, sp: (usize, usize), lit: &Vec<char>) -> (r: bool)
    requires
        sp.0 <= sp.1 <= l@.len(),
    ensures
        r == (l@.subrange(sp.0 as int, sp.1 as int) == lit@),
{
    let (a, b) = sp;
    if b - a != lit.len() {
        assert(l@.subrange(a as int, b as int).len() != lit@.len());
        return false;
    }
    let mut k: usize = 0;
    while k < lit.len()
        invariant
            a == sp.0,
            b == sp.1,
            a <= b <= l@.len(),
            b - a == lit@.len(),
            0 <= k <= lit@.len(),
            forall|m: int| 0 <= m < k ==> l@[a + m] == lit@[m],
        decreases lit.len() - k,
    {
        if l[a + k] != lit[k] {
            assert(l@.subrange(a as int, b as int)[k as int] != lit@[k as int]);
            return false;
        }
        k = k + 1;
    }
    assert(l@.subrange(a as int, b as int) =~= lit@);
    true
}

/// The word `k` of a line, as a span.
proof fn lemma_span_word(l: Seq<char>, spans: Seq<(usize, usize)>, k: int)
    requires
        0 <= k < spans.len(),
    ensures
        spans_text(l, spans)[k] == l.subrange(spans[k].0 as int, spans[k].1 as int),
        spans_text(l, spans).len() == spans.len(),
{
}

/// The first word of the line that is `lit`.
fn find_word(l: &Vec<char>, spans: &Vec<(usize, usize)>, lit: &Vec<char>) -> (r: Option<usize>)
    requires
        forall|k: int| 0 <= k < spans@.len() ==> (#[trigger] spans@[k]).0 <= spans@[k].1 <= l@.len(),
    ensures
        r matches Some(p) ==> p < spans@.len(),
        match r {
            Some(p) => first_index(spans_text(l@, spans@), lit@, 0) == Some(p as int),
            None => first_index(spans_text(l@, spans@), lit@, 0) is None,
        },
{
    let ghost w = spans_text(l@, spans@);
    let mut k: usize = 0;
    while k < spans.len()
        invariant
            0 <= k <= spans@.len(),
            w == spans_text(l@, spans@),
            w.len() == spans@.len(),
            forall|j: int| 0 <= j < spans@.len() ==> (#[trigger] spans@[j]).0 <= spans@[j].1 <= l@.len(),
            first_index(w, lit@, 0) == first_index(w, lit@, k as int),
        decreases spans.len() - k,
    {
        proof {
            lemma_span_word(l@, spans@, k as int);
        }
        if span_is(l, spans[k], lit) {
            return Some(k);
        }
        k = k + 1;
    }
    None
}

/// The word after the first occurrence of `flag`, as a span.
fn flag_span(l: &Vec<char>, spans: &Vec<(usize, usize)>, flag: &Vec<char>) -> (r: Option<(usize, usize)>)
    requires
        forall|k: int| 0 <= k < spans@.len() ==> (#[trigger] spans@[k]).0 <= spans@[k].1 <= l@.len(),
    ensures
        match r {
            Some(sp) => sp.0 <= sp.1 <= l@.len() && flag_value(spans_text(l@, spans@), flag@)
                == Some(l@.subrange(sp.0 as int, sp.1 as int)),
            None => flag_value(spans_text(l@, spans@), flag@) is None,
        },
{
    let found = find_word(l, spans, flag);
    match found {
        Some(p) => {
            assert(p < spans.len());
            if p + 1 < spans.len() {
                proof {
                    lemma_span_word(l@, spans@, p + 1);
                }
                Some(spans[p + 1])
            } else {
                proof {
                    lemma_span_word(l@, spans@, 0);
                }
                None
            }
        },
        None => None,
    }
}

/// Whether the words hold `-j DNAT` one after the other.
fn has_dnat(l: &Vec<char>, spans: &Vec<(usize, usize)>) -> (r: bool)
    requires
        forall|k: int| 0 <= k < spans@.len() ==> (#[trigger] spans@[k]).0 <= spans@[k].1 <= l@.len(),
    ensures
        r == has_dnat_jump(spans_text(l@, spans@)),
{
    let ghost w = spans_text(l@, spans@);
    let jump = chars_of("-j");
    let dnat = chars_of("DNAT");
    let mut k: usize = 0;
    while k < spans.len() && k + 1 < spans.len()
        invariant
            k <= spans@.len(),
            w == spans_text(l@, spans@),
            w.len() == spans@.len(),
            jump@ == "-j"@,
            dnat@ == "DNAT"@,
            forall|j: int| 0 <= j < spans@.len() ==> (#[trigger] spans@[j]).0 <= spans@[j].1 <= l@.len(),
            forall|m: int| 0 <= m < k && m + 1 < w.len() ==> !(w[m] == "-j"@ && #[trigger] w[m + 1] == "DNAT"@),
        decreases spans.len() - k,
    {
        proof {
            lemma_span_word(l@, spans@, k as int);
            lemma_span_word(l@, spans@, k + 1);
        }
        if span_is(l, spans[k], &jump) && span_is(l, spans[k + 1], &dnat) {
            return true;
        }
        k = k + 1;
    }
    proof {
        if spans@.len() > 0 {
            lemma_span_word(l@, spans@, 0);
        }
        assert forall|m: int| 0 <= m && m + 1 < w.len() implies !(w[m] == "-j"@ && #[trigger] w[m
            + 1] == "DNAT"@) by {}
    }
    false
}

/// The rule that one line describes (see `rule_of_line`).
fn rule_of_line_chars(l: &Vec<char>) -> (r: Option<LiveRule>)
    ensures
        match r {
            Some(x) => rule_of_line(l@) == Some(x@),
            None => rule_of_line(l@) is None,
        },
{
    let spans = word_spans(l);
    let ghost w = spans_text(l@, spans@);
    assert(w.len() == spans@.len());
    if spans.len() < 2 {
        return None;
    }
    proof {
        lemma_span_word(l@, spans@, 0);
        lemma_span_word(l@, spans@, 1);
    }
    if !span_is(l, spans[0], &chars_of("-A")) || !has_dnat(l, &spans) {
        return None;
    }
    let p = match flag_span(l, &spans, &chars_of("-p")) {
        Some(sp) => sp,
        None => {
            return None;
        },
    };
    let d = match flag_span(l, &spans, &chars_of("--dport")) {
        Some(sp) => sp,
        None => {
            return None;
        },
    };
    let t = match flag_span(l, &spans, &chars_of("--to-destination")) {
        Some(sp) => sp,
        None => {
            return None;
        },
    };
    let port = match parse_u16_range(l, d.0, d.1) {
        Some(n) => n,
        None => {
            return None;
        },
    };
    let chain = string_from_range(l, spans[0 + 1].0, spans[1].1);
    let managed = span_is(l, spans[1], &chars_of(PRE));
    let rule = LiveRule {
        chain,
        protocol: string_from_range(l, p.0, p.1),
        public_port: port,
        destination: string_from_range(l, t.0, t.1),
        managed,
    };
    Some(rule)
}

/// The DNAT rules that `iptables-save -t nat` output describes, in order:
/// every line that appends (`-A`) a rule jumping to DNAT (`-j DNAT`) and
/// names a protocol (`-p`), a numeric port (`--dport`) and a destination
/// (`--to-destination`). A rule is managed when it is in `TAILNAT_PRE`.
pub fn parse_live_rules(output: &str) -> (rules: Vec<LiveRule>)
    ensures
        rule_views(rules@) == rules_of_output(output@),
{
    let v = chars_of(output);
    let n = v.len();
    let ghost f = |l: Seq<char>| rule_of_line(l);
    let ghost done: Seq<Seq<char>> = seq![];
    let mut rules: Vec<LiveRule> = Vec::new();
    let mut i: usize = 0;
    let mut start: usize = 0;
    while i < n
        invariant
            0 <= start <= i <= n == v@.len(),
            v@ == output@,
            f == (|l: Seq<char>| rule_of_line(l)),
            lines_of(v@) == done + lines_from(v@, i as int, start as int),
            rule_views(rules@) == done.filter_map(f),
        decreases n - i,
    {
        if v[i] == '\n' {
            let e = if i > start && v[i - 1] == '\r' {
                i - 1
            } else {
                i
            };
            let line = string_chars(&v, start, e);
            assert(line@ == line_text(v@, start as int, i as int));
            let ghost before = rules@;
            let ghost done_before = done;
            match rule_of_line_chars(&line) {
                Some(rule) => {
                    rules.push(rule);
                },
                None => {},
            }
            proof {
                done = done.push(line@);
                assert(done.drop_last() =~= done_before);
                assert(rule_views(rules@) =~= done.filter_map(f));
                assert(lines_of(v@) =~= done + lines_from(v@, i + 1, i + 1));
            }
            start = i + 1;
        } else {
            assert(lines_from(v@, i as int, start as int) == lines_from(v@, i + 1, start as int));
        }
        i = i + 1;
    }
    if start < n {
        let line = string_chars(&v, start, n);
        assert(line@ == line_text(v@, start as int, n as int));
        let ghost done_before = done;
        match rule_of_line_chars(&line) {
            Some(rule) => {
                rules.push(rule);
            },
            None => {},
        }
        proof {
            done = done.push(line@);
            assert(done.drop_last() =~= done_before);
            assert(rule_views(rules@) =~= done.filter_map(f));
        }
    }
    assert(lines_of(v@) =~= done);
    rules
}

/// The characters `v[from..to]`.
fn string_chars(v: &Vec<char>, from: usize, to: usize) -> (r: Vec<char>)
    requires
        from <= to <= v@.len(),
    ensures
        r@ == v@.subrange(from as int, to as int),
{
    let mut r: Vec<char> = Vec::new();
    let mut k = from;
    while k < to
        invariant
            from <= k <= to <= v@.len(),
            r@ == v@.subrange(from as int, k as int),
        decreases to - k,
    {
        r.push(v[k]);
        assert(r@ =~= v@.subrange(from as int, k + 1));
        k = k + 1;
    }
    r
}

/// The live DNAT rules, from the outcome of running `iptables-save -t nat`:
/// its output's rules, or the failure to run it.
pub fn live_rules<E>(saved: Result<String, E>) -> (r: Result<Vec<LiveRule>, E>)
    ensures
        match (saved, r) {
            (Ok(out), Ok(rules)) => rule_views(rules@) == rules_of_output(out@),
            (Err(e), Err(f)) => f == e,
            _ => false,
        },
{
    match saved {
        Ok(out) => Ok(parse_live_rules(out.as_str())),
        Err(e) => Err(e),
    }
}

proof fn lemma_lines_shifted(a: Seq<char>, b: Seq<char>, j: int, st: int)
    requires
        0 <= st <= j <= b.len(),
    ensures
        lines_from(a + b, a.len() + j, a.len() + st) == lines_from(b, j, st),
    decreases b.len() - j,
{
    let s = a + b;
    let n = a.len() as int;
    if j >= b.len() {
        if st < b.len() {
            assert(line_text(s, n + st, s.len() as int) =~= line_text(b, st, b.len() as int));
        }
    } else {
        assert(s[n + j] == b[j]);
        if b[j] == '\n' {
            lemma_lines_shifted(a, b, j + 1, j + 1);
            if j > st {
                assert(s[n + j - 1] == b[j - 1]);
            }
            assert(line_text(s, n + st, n + j) =~= line_text(b, st, j));
        } else {
            lemma_lines_shifted(a, b, j + 1, st);
        }
    }
}

proof fn lemma_lines_split(a: Seq<char>, b: Seq<char>, i: int, start: int)
    requires
        0 <= start <= i <= a.len(),
        a.len() == 0 || a.last() == '\n',
        i == a.len() ==> start == i,
    ensures
        lines_from(a + b, i, start) == lines_from(a, i, start) + lines_of(b),
    decreases a.len() - i,
{
    let s = a + b;
    if i == a.len() {
        lemma_lines_shifted(a, b, 0, 0);
        assert(lines_from(a, i, start) =~= Seq::<Seq<char>>::empty());
        assert(lines_from(a, i, start) + lines_of(b) =~= lines_of(b));
    } else {
        assert(s[i] == a[i]);
        if a[i] == '\n' {
            lemma_lines_split(a, b, i + 1, i + 1);
            if i > start {
                assert(s[i - 1] == a[i - 1]);
            }
            assert(line_text(s, start, i) =~= line_text(a, start, i));
            assert(seq![line_text(a, start, i)] + (lines_from(a, i + 1, i + 1) + lines_of(b))
                =~= seq![line_text(a, start, i)] + lines_from(a, i + 1, i + 1) + lines_of(b));
        } else {
            lemma_lines_split(a, b, i + 1, start);
        }
    }
}

proof fn lemma_filter_map_add<A, B>(x: Seq<A>, y: Seq<A>, f: spec_fn(A) -> Option<B>)
    ensures
        (x + y).filter_map(f) == x.filter_map(f) + y.filter_map(f),
    decreases y.len(),
{
    if y.len() == 0 {
        assert(x + y =~= x);
        assert(x.filter_map(f) + y.filter_map(f) =~= x.filter_map(f));
    } else {
        lemma_filter_map_add(x, y.drop_last(), f);
        assert((x + y).drop_last() =~= x + y.drop_last());
        assert((x + y).last() == y.last());
        match f(y.last()) {
            Some(v) => {
                assert(x.filter_map(f) + (y.drop_last().filter_map(f) + seq![v]) =~= x.filter_map(f)
                    + y.drop_last().filter_map(f) + seq![v]);
            },
            None => {},
        }
    }
}

/// `iptables-save` output is read line by line: output `a` that is empty or
/// ends its last line, followed by output `b`, gives the rules of `a` and
/// then those of `b`.
pub proof fn law_rules_read_line_by_line(a: Seq<char>, b: Seq<char>)
    requires
        a.len() == 0 || a.last() == '\n',
    ensures
        rules_of_output(a + b) == rules_of_output(a) + rules_of_output(b),
{
    lemma_lines_split(a, b, 0, 0);
    lemma_filter_map_add(lines_of(a), lines_of(b), |l: Seq<char>| rule_of_line(l));
}

} // verus!
