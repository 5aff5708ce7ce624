//! Traceroute: reading the output of the system `traceroute` (or Windows
//! `tracert`) command into hops. Running the command is left to the program
//! around the library.

pub mod hop;

pub use hop::TraceHop;

use vstd::prelude::*;
use hop::{HopView, opt_view};
use crate::addr::ipv4_display;
use crate::text::{
    decimal, digit_char, chars_of, contains, contains_chars, ends_with, ends_with_chars, is_digit,
    is_ws, lemma_contains_trim, lines,
    parse_millis, parse_millis_chars, parse_unsigned, parse_unsigned_chars, slice_copy,
    split_lines, split_words, starts_with, starts_with_chars, string_of, trim, trim_chars, views,
    words,
};

verus! {

pub open spec fn is_alpha(c: char) -> bool {
    ('A' <= c && c <= 'Z') || ('a' <= c && c <= 'z')
}

/// How many times `c` occurs.
pub open spec fn count_char(s: Seq<char>, c: char) -> nat
    decreases s.len(),
{
    if s.len() == 0 {
        0
    } else {
        count_char(s.drop_last(), c) + if s.last() == c {
            1nat
        } else {
            0nat
        }
    }
}

/// A bare dotted address such as `10.0.0.1`: three dots, digits and dots only.
pub open spec fn dotted_quad(p: Seq<char>) -> bool {
    count_char(p, '.') == 3 && forall|i: int| 0 <= i < p.len() ==> is_digit(#[trigger] p[i])
        || p[i] == '.'
}

/// A host name: a dot and an ASCII letter somewhere.
pub open spec fn hostname_like(p: Seq<char>) -> bool {
    contains(p, seq!['.']) && exists|i: int| 0 <= i < p.len() && is_alpha(#[trigger] p[i])
}

/// An address in brackets, Windows style: `[1.2.3.4]`.
pub open spec fn bracketed(p: Seq<char>) -> bool {
    starts_with(p, seq!['[']) && ends_with(p, seq![']'])
}

/// A bare dotted address in parentheses, as Linux `traceroute` shows it
/// after the host name: `(10.0.0.1)`.
pub open spec fn parenthesized_quad(p: Seq<char>) -> bool {
    p.len() >= 2 && p[0] == '(' && p.last() == ')' && dotted_quad(p.subrange(1, p.len() - 1))
}

pub open spec fn is_bracket(c: char) -> bool {
    c == '[' || c == ']'
}

pub open spec fn strip_leading_brackets(s: Seq<char>) -> Seq<char>
    decreases s.len(),
{
    if s.len() > 0 && is_bracket(s[0]) {
        strip_leading_brackets(s.drop_first())
    } else {
        s
    }
}

pub open spec fn strip_trailing_brackets(s: Seq<char>) -> Seq<char>
    decreases s.len(),
{
    if s.len() > 0 && is_bracket(s.last()) {
        strip_trailing_brackets(s.drop_last())
    } else {
        s
    }
}

/// `str::trim_matches` of `[` and `]`.
pub open spec fn strip_brackets(s: Seq<char>) -> Seq<char> {
    strip_trailing_brackets(strip_leading_brackets(s))
}

/// `str::trim_end_matches("ms")`: every trailing `ms` removed.
pub open spec fn strip_ms(s: Seq<char>) -> Seq<char>
    decreases s.len(),
{
    if ends_with(s, seq!['m', 's']) && s.len() >= 2 {
        strip_ms(s.take(s.len() - 2))
    } else {
        s
    }
}

/// What the parts of a hop line have shown so far: the address and host
/// name that came last, and the first reply time.
pub struct HopFields {
    pub ip: Option<Seq<char>>,
    pub rtt_us: Option<u32>,
    pub hostname: Option<Seq<char>>,
}

/// Reads part `i` of a hop line.
pub open spec fn read_part(f: HopFields, parts: Seq<Seq<char>>, i: int) -> HopFields {
    let p = parts[i];
    let before_ms = i + 1 < parts.len() && parts[i + 1] == seq!['m', 's'];
    if bracketed(p) {
        HopFields { ip: Some(strip_brackets(p)), ..f }
    } else if parenthesized_quad(p) {
        HopFields { ip: Some(p.subrange(1, p.len() - 1)), ..f }
    } else if dotted_quad(p) {
        HopFields { ip: Some(p), ..f }
    } else if ends_with(p, seq!['m', 's']) || before_ms {
        HopFields {
            rtt_us: if f.rtt_us is Some {
                f.rtt_us
            } else {
                parse_millis(strip_ms(p))
            },
            ..f
        }
    } else if parse_millis(p) is Some {
        f
    } else if hostname_like(p) {
        HopFields { hostname: Some(p), ..f }
    } else {
        f
    }
}

/// The fields shown by the first `k` parts of a hop line.
pub open spec fn read_parts(parts: Seq<Seq<char>>, k: int) -> HopFields
    decreases k,
{
    if k <= 0 {
        HopFields { ip: None, rtt_us: None, hostname: None }
    } else {
        read_part(read_parts(parts, k - 1), parts, k - 1)
    }
}

/// A line that only marks a lost probe: every part is `*` or a number.
pub open spec fn silent_parts(parts: Seq<Seq<char>>) -> bool {
    forall|i: int|
        0 <= i < parts.len() ==> #[trigger] parts[i] == seq!['*'] || parse_unsigned(parts[i], 255)
            is Some
}

/// Header and footer lines that carry no hop.
pub open spec fn header_line(t: Seq<char>) -> bool {
    ||| t.len() == 0
    ||| starts_with(t, "Tracing"@)
    ||| starts_with(t, "traceroute"@)
    ||| starts_with(t, "Trace complete"@)
    ||| starts_with(t, "over a maximum"@)
}

/// The hop that one output line shows, if any: a line (trimmed) that is not
/// a header and starts with a TTL. A timed-out probe gives a hop with
/// nothing but its TTL.
pub open spec fn hop_of_line(line: Seq<char>) -> Option<HopView> {
    let t = trim(line);
    let parts = words(t);
    if header_line(t) || parts.len() == 0 {
        None
    } else {
        match parse_unsigned(parts[0], 255) {
            None => None,
            Some(ttl) => if contains(t, "Request timed out"@) || silent_parts(parts) {
                Some(HopView { ttl: ttl as u8, ip: None, rtt_us: None, hostname: None })
            } else {
                let f = read_parts(parts, parts.len() as int);
                Some(HopView { ttl: ttl as u8, ip: f.ip, rtt_us: f.rtt_us, hostname: f.hostname })
            },
        }
    }
}

/// The hops of all lines, in order.
pub open spec fn hops_of_lines(ls: Seq<Seq<char>>) -> Seq<HopView>
    decreases ls.len(),
{
    if ls.len() == 0 {
        seq![]
    } else {
        match hop_of_line(ls.last()) {
            Some(h) => hops_of_lines(ls.drop_last()).push(h),
            None => hops_of_lines(ls.drop_last()),
        }
    }
}

fn count_char_exec(s: &[char], c: char) -> (n: usize)
    ensures
        n == count_char(s@, c),
{
    let mut n: usize = 0;
    for i in 0..s.len()
        invariant
            n == count_char(s@.take(i as int), c),
            n <= i,
    {
        assert(s@.take(i + 1).drop_last() =~= s@.take(i as int));
        if s[i] == c {
            n = n + 1;
        }
    }
    assert(s@.take(s@.len() as int) =~= s@);
    n
}

fn dotted_quad_exec(p: &[char]) -> (b: bool)
    ensures
        b == dotted_quad(p@),
{
    if count_char_exec(p, '.') != 3 {
        return false;
    }
    for i in 0..p.len()
        invariant
            forall|k: int| 0 <= k < i ==> is_digit(#[trigger] p@[k]) || p@[k] == '.',
    {
        if !(('0' <= p[i] && p[i] <= '9') || p[i] == '.') {
            return false;
        }
    }
    true
}

fn hostname_like_exec(p: &[char]) -> (b: bool)
    ensures
        b == hostname_like(p@),
{
    let dot: Vec<char> = vec!['.'];
    assert(dot@ =~= seq!['.']);
    if !contains_chars(p, &dot) {
        return false;
    }
    for i in 0..p.len()
        invariant
            contains(p@, seq!['.']),
            forall|k: int| 0 <= k < i ==> !is_alpha(#[trigger] p@[k]),
    {
        if ('A' <= p[i] && p[i] <= 'Z') || ('a' <= p[i] && p[i] <= 'z') {
            assert(is_alpha(p@[i as int]));
            return true;
        }
    }
    false
}

proof fn lemma_strip_leading(s: Seq<char>, i: int)
    requires
        0 <= i <= s.len(),
        forall|k: int| 0 <= k < i ==> is_bracket(#[trigger] s[k]),
    ensures
        strip_leading_brackets(s) == strip_leading_brackets(s.skip(i)),
    decreases i,
{
    if i > 0 {
        lemma_strip_leading(s.drop_first(), i - 1);
        assert(s.drop_first().skip(i - 1) =~= s.skip(i));
    } else {
        assert(s.skip(0) =~= s);
    }
}

proof fn lemma_strip_trailing(s: Seq<char>, j: int)
    requires
        0 <= j <= s.len(),
        forall|k: int| j <= k < s.len() ==> is_bracket(#[trigger] s[k]),
    ensures
        strip_trailing_brackets(s) == strip_trailing_brackets(s.take(j)),
    decreases s.len() - j,
{
    if j < s.len() {
        lemma_strip_trailing(s.drop_last(), j);
        assert(s.drop_last().take(j) =~= s.take(j));
    } else {
        assert(s.take(j) =~= s);
    }
}

fn strip_brackets_exec(v: &[char]) -> (r: Vec<char>)
    ensures
        r@ == strip_brackets(v@),
{
    let mut i: usize = 0;
    while i < v.len() && (v[i] == '[' || v[i] == ']')
        invariant
            i <= v@.len(),
            forall|k: int| 0 <= k < i ==> is_bracket(#[trigger] v@[k]),
        decreases v.len() - i,
    {
        i = i + 1;
    }
    proof {
        lemma_strip_leading(v@, i as int);
    }
    let ghost rest = v@.skip(i as int);
    assert(strip_leading_brackets(rest) == rest);
    let mut j: usize = v.len();
    while j > i && (v[j - 1] == '[' || v[j - 1] == ']')
        invariant
            i <= j <= v@.len(),
            forall|k: int| j <= k < v@.len() ==> is_bracket(#[trigger] v@[k]),
        decreases j,
    {
        j = j - 1;
    }
    proof {
        lemma_strip_trailing(rest, j - i);
        assert(rest.take(j - i) =~= v@.subrange(i as int, j as int));
        let t = v@.subrange(i as int, j as int);
        if t.len() > 0 {
            assert(t.last() == v@[j - 1]);
        }
    }
    slice_copy(v, i, j)
}

fn strip_ms_exec(v: &[char]) -> (r: Vec<char>)
    ensures
        r@ == strip_ms(v@),
{
    let ms: Vec<char> = vec!['m', 's'];
    assert(ms@ =~= seq!['m', 's']);
    let mut end = v.len();
    assert(v@.take(end as int) =~= v@);
    loop
        invariant
            end <= v@.len(),
            ms@ == seq!['m', 's'],
            strip_ms(v@) == strip_ms(v@.take(end as int)),
        decreases end,
    {
        let cur = slice_copy(v, 0, end);
        assert(cur@ =~= v@.take(end as int));
        if end >= 2 && ends_with_chars(&cur, &ms) {
            assert(v@.take(end as int).take(end - 2) =~= v@.take(end - 2));
            end = end - 2;
        } else {
            return cur;
        }
    }
}

/// The fields of a hop line while its parts are read.
struct Fields {
    ip: Option<Vec<char>>,
    rtt_us: Option<u32>,
    hostname: Option<Vec<char>>,
}

spec fn vec_opt_view(o: Option<Vec<char>>) -> Option<Seq<char>> {
    match o {
        Some(v) => Some(v@),
        None => None,
    }
}

spec fn fields_view(f: Fields) -> HopFields {
    HopFields { ip: vec_opt_view(f.ip), rtt_us: f.rtt_us, hostname: vec_opt_view(f.hostname) }
}

fn read_part_exec(f: Fields, parts: &Vec<Vec<char>>, i: usize) -> (r: Fields)
    requires
        i < parts@.len(),
    ensures
        fields_view(r) == read_part(fields_view(f), views(parts@), i as int),
{
    let ghost ps = views(parts@);
    let p = &parts[i];
    assert(ps[i as int] == p@);
    let open: Vec<char> = vec!['['];
    let close: Vec<char> = vec![']'];
    let ms: Vec<char> = vec!['m', 's'];
    assert(open@ =~= seq!['[']);
    assert(close@ =~= seq![']']);
    assert(ms@ =~= seq!['m', 's']);
    assert(p@.subrange(0, p@.len() as int) =~= p@);
    let before_ms = if i < parts.len() - 1 {
        assert(ps[i + 1] == parts@[i + 1]@);
        parts[i + 1].len() == 2 && parts[i + 1][0] == 'm' && parts[i + 1][1] == 's'
    } else {
        false
    };
    proof {
        if i + 1 < parts@.len() {
            if ps[i + 1] == seq!['m', 's'] {
                assert(ps[i + 1][0] == 'm');
            }
            if before_ms {
                assert(ps[i + 1] =~= seq!['m', 's']);
            }
        }
    }
    let paren_ip: Option<Vec<char>> = if p.len() >= 2 && p[0] == '(' && p[p.len() - 1] == ')' {
        let inner = slice_copy(p, 1, p.len() - 1);
        if dotted_quad_exec(&inner) {
            Some(inner)
        } else {
            None
        }
    } else {
        None
    };
    assert(paren_ip is Some <==> parenthesized_quad(p@));
    if starts_with_chars(p, &open) && ends_with_chars(p, &close) {
        Fields { ip: Some(strip_brackets_exec(p)), ..f }
    } else if paren_ip.is_some() {
        Fields { ip: paren_ip, ..f }
    } else if dotted_quad_exec(p) {
        Fields { ip: Some(slice_copy(p, 0, p.len())), ..f }
    } else if ends_with_chars(p, &ms) || before_ms {
        let rtt_us = if f.rtt_us.is_some() {
            f.rtt_us
        } else {
            parse_millis_chars(&strip_ms_exec(p))
        };
        Fields { rtt_us, ..f }
    } else if parse_millis_chars(p).is_some() {
        f
    } else if hostname_like_exec(p) {
        Fields { hostname: Some(slice_copy(p, 0, p.len())), ..f }
    } else {
        f
    }
}

fn opt_string(o: Option<Vec<char>>) -> (r: Option<String>)
    ensures
        opt_view(r) == vec_opt_view(o),
{
    match o {
        Some(v) => Some(string_of(&v)),
        None => None,
    }
}

/// The hop that one output line shows, as `hop_of_line` describes it.
fn hop_of_line_exec(line: &[char]) -> (r: Option<TraceHop>)
    ensures
        match r {
            Some(h) => hop_of_line(line@) == Some(h@),
            None => hop_of_line(line@) is None,
        },
{
    let t = trim_chars(line);
    let parts = split_words(&t);
    let ghost ps = views(parts@);
    let header = t.len() == 0 || starts_with_chars(&t, &chars_of("Tracing")) || starts_with_chars(
        &t,
        &chars_of("traceroute"),
    ) || starts_with_chars(&t, &chars_of("Trace complete")) || starts_with_chars(
        &t,
        &chars_of("over a maximum"),
    );
    if header || parts.len() == 0 {
        return None;
    }
    assert(ps[0] == parts@[0]@);
    let ttl = match parse_unsigned_chars(&parts[0], 255) {
        Some(n) => n as u8,
        None => return None,
    };
    let mut silent = true;
    for k in 0..parts.len()
        invariant
            ps == views(parts@),
            silent <==> forall|m: int|
                0 <= m < k ==> #[trigger] ps[m] == seq!['*'] || parse_unsigned(ps[m], 255) is Some,
    {
        assert(ps[k as int] == parts@[k as int]@);
        let p = &parts[k];
        let star = p.len() == 1 && p[0] == '*';
        proof {
            if p@ == seq!['*'] {
                assert(p@[0] == '*');
            }
            if star {
                assert(p@ =~= seq!['*']);
            }
        }
        if !(star || parse_unsigned_chars(p, 255).is_some()) {
            silent = false;
        }
    }
    if contains_chars(&t, &chars_of("Request timed out")) || silent {
        return Some(TraceHop { ttl, ip: None, rtt_us: None, hostname: None });
    }
    let mut f = Fields { ip: None, rtt_us: None, hostname: None };
    for k in 0..parts.len()
        invariant
            ps == views(parts@),
            fields_view(f) == read_parts(ps, k as int),
    {
        f = read_part_exec(f, &parts, k);
    }
    Some(TraceHop {
        ttl,
        ip: opt_string(f.ip),
        rtt_us: f.rtt_us,
        hostname: opt_string(f.hostname),
    })
}

/// The hops of a route as `hops_of_lines` describes them.
pub open spec fn trace_hops(output: Seq<char>) -> Seq<HopView> {
    hops_of_lines(lines(output))
}

/// Reads the output of `traceroute` or `tracert` into hops, one per line
/// that starts with a TTL, in the order of the output.
pub fn parse_traceroute_output(output: &str) -> (r: Vec<TraceHop>)
    ensures
        r@.map_values(|h: TraceHop| h@) == trace_hops(output@),
{
    let text = chars_of(output);
    let ls = split_lines(&text);
    let ghost all = views(ls@);
    let mut hops: Vec<TraceHop> = Vec::new();
    for k in 0..ls.len()
        invariant
            all == views(ls@),
            all == lines(output@),
            hops@.map_values(|h: TraceHop| h@) == hops_of_lines(all.take(k as int)),
    {
        assert(all.take(k + 1).drop_last() =~= all.take(k as int));
        assert(all.take(k + 1).last() == ls@[k as int]@);
        let ghost before = hops@;
        match hop_of_line_exec(&ls[k]) {
            Some(h) => {
                hops.push(h);
                assert(hops@.map_values(|h: TraceHop| h@) =~= before.map_values(|h: TraceHop| h@).push(
                    h@,
                ));
            },
            None => {},
        }
    }
    assert(all.take(ls@.len() as int) =~= all);
    hops
}

proof fn lemma_decimal_digits(n: nat)
    ensures
        forall|i: int| 0 <= i < decimal(n).len() ==> is_digit(#[trigger] decimal(n)[i]),
        count_char(decimal(n), '.') == 0,
    decreases n,
{
    reveal_with_fuel(count_char, 2);
    if n >= 10 {
        lemma_decimal_digits(n / 10);
        let d = decimal(n / 10);
        assert(decimal(n) == d.push(digit_char(n % 10)));
        assert(decimal(n).drop_last() =~= d);
    } else {
        assert(decimal(n).drop_last() =~= Seq::<char>::empty());
    }
}

proof fn lemma_count_concat(s: Seq<char>, t: Seq<char>, c: char)
    ensures
        count_char(s + t, c) == count_char(s, c) + count_char(t, c),
    decreases t.len(),
{
    if t.len() > 0 {
        lemma_count_concat(s, t.drop_last(), c);
        assert((s + t).drop_last() =~= s + t.drop_last());
    } else {
        assert(s + t =~= s);
    }
}

/// The text of every IPv4 address is read back by the traceroute reader
/// as a bare address.
pub proof fn law_ipv4_text_is_bare_address(a: u32)
    ensures
        dotted_quad(ipv4_display(a)),
{
    let d1 = decimal((a / 16777216) as nat);
    let d2 = decimal(((a / 65536) % 256) as nat);
    let d3 = decimal(((a / 256) % 256) as nat);
    let d4 = decimal((a % 256) as nat);
    lemma_decimal_digits((a / 16777216) as nat);
    lemma_decimal_digits(((a / 65536) % 256) as nat);
    lemma_decimal_digits(((a / 256) % 256) as nat);
    lemma_decimal_digits((a % 256) as nat);
    let dot = seq!['.'];
    assert(count_char(dot, '.') == 1) by {
        reveal_with_fuel(count_char, 2);
        assert(dot.drop_last() =~= Seq::<char>::empty());
    }
    let t = ipv4_display(a);
    assert(t == d1 + dot + d2 + dot + d3 + dot + d4);
    lemma_count_concat(d1, dot, '.');
    lemma_count_concat(d1 + dot, d2, '.');
    lemma_count_concat(d1 + dot + d2, dot, '.');
    lemma_count_concat(d1 + dot + d2 + dot, d3, '.');
    lemma_count_concat(d1 + dot + d2 + dot + d3, dot, '.');
    lemma_count_concat(d1 + dot + d2 + dot + d3 + dot, d4, '.');
    assert forall|i: int| 0 <= i < t.len() implies is_digit(#[trigger] t[i]) || t[i] == '.' by {
        let l1 = d1.len() as int;
        let l2 = d2.len() as int;
        let l3 = d3.len() as int;
        if i < l1 {
            assert(t[i] == d1[i]);
        } else if i == l1 {
        } else if i < l1 + 1 + l2 {
            assert(t[i] == d2[i - l1 - 1]);
        } else if i == l1 + 1 + l2 {
        } else if i < l1 + 2 + l2 + l3 {
            assert(t[i] == d3[i - l1 - 2 - l2]);
        } else if i == l1 + 2 + l2 + l3 {
        } else {
            assert(t[i] == d4[i - l1 - 3 - l2 - l3]);
        }
    }
}

/// The text of an IPv4 address in parentheses, as Linux `traceroute` prints
/// it, is read back as that address.
pub proof fn law_parenthesized_address_is_read(a: u32)
    ensures
        ({
            let p = seq!['('] + ipv4_display(a) + seq![')'];
            parenthesized_quad(p) && p.subrange(1, p.len() - 1) == ipv4_display(a)
        }),
{
    law_ipv4_text_is_bare_address(a);
    let p = seq!['('] + ipv4_display(a) + seq![')'];
    assert(p.subrange(1, p.len() - 1) =~= ipv4_display(a));
}

/// A hop line that says `Request timed out` (Windows `tracert`) gives a hop
/// with nothing but its TTL: no address, no reply time, no host name.
pub proof fn law_timed_out_hop_is_bare(line: Seq<char>)
    ensures
        contains(line, "Request timed out"@) ==> (hop_of_line(line) matches Some(h) ==> h.ip is None
            && h.rtt_us is None && h.hostname is None),
{
    if contains(line, "Request timed out"@) {
        reveal_strlit("Request timed out");
        let n = "Request timed out"@;
        assert(!is_ws(n[0]) && !is_ws(n.last()));
        lemma_contains_trim(line, n);
    }
}

/// A hop line whose parts after the TTL are all `*` or numbers (a probe
/// that got no answer) gives a hop with nothing but its TTL.
pub proof fn law_silent_hop_is_bare(line: Seq<char>)
    ensures
        silent_parts(words(trim(line))) ==> (hop_of_line(line) matches Some(h) ==> h.ip is None
            && h.rtt_us is None && h.hostname is None),
{
}

/// Each line is read on its own: the hops of two runs of lines one after
/// the other are the hops of the first followed by those of the second.
pub proof fn law_hops_concatenate(a: Seq<Seq<char>>, b: Seq<Seq<char>>)
    ensures
        hops_of_lines(a + b) == hops_of_lines(a) + hops_of_lines(b),
    decreases b.len(),
{
    if b.len() > 0 {
        assert((a + b).drop_last() =~= a + b.drop_last());
        assert((a + b).last() == b.last());
        law_hops_concatenate(a, b.drop_last());
        let h = hops_of_lines(a);
        let g = hops_of_lines(b.drop_last());
        match hop_of_line(b.last()) {
            Some(x) => {
                assert(h + g.push(x) =~= (h + g).push(x));
            },
            None => {},
        }
    } else {
        assert(a + b =~= a);
        assert(hops_of_lines(b) =~= Seq::<HopView>::empty());
        assert(hops_of_lines(a) + hops_of_lines(b) =~= hops_of_lines(a));
    }
}

/// Of the reply times a hop line shows, the first is kept: once the parts
/// read so far have given a time, reading more parts never changes it.
pub proof fn law_first_hop_time_kept(parts: Seq<Seq<char>>, k: int, m: int)
    requires
        0 <= k <= m <= parts.len(),
    ensures
        read_parts(parts, k).rtt_us is Some ==> read_parts(parts, m).rtt_us == read_parts(
            parts,
            k,
        ).rtt_us,
    decreases m - k,
{
    if k < m {
        law_first_hop_time_kept(parts, k, m - 1);
    }
}

/// The trace gives at most one hop per output line.
pub proof fn law_at_most_one_hop_per_line(ls: Seq<Seq<char>>)
    ensures
        hops_of_lines(ls).len() <= ls.len(),
    decreases ls.len(),
{
    if ls.len() > 0 {
        law_at_most_one_hop_per_line(ls.drop_last());
    }
}

} // verus!
