//! Host addresses: IPv4 and IPv6 addresses held as plain integers, and
//! their text.

use vstd::prelude::*;
use crate::text::{decimal, decimal_chars, extend_chars, string_of};
use vstd::arithmetic::div_mod::lemma_div_denominator;

verus! {

/// An IP address: IPv4 as a `u32`, IPv6 as a `u128`, most significant
/// byte first (the order of `u32::from(Ipv4Addr)` and `u128::from(Ipv6Addr)`).
#[derive(Debug, Clone, Copy, PartialEq, Eq, Structural)]
pub enum HostAddr {
    V4(u32),
    V6(u128),
}

/// The dotted-decimal text of an IPv4 address: `192.168.1.1`.
pub open spec fn ipv4_display(a: u32) -> Seq<char> {
    decimal((a / 16777216) as nat) + seq!['.'] + decimal(((a / 65536) % 256) as nat) + seq!['.']
        + decimal(((a / 256) % 256) as nat) + seq!['.'] + decimal((a % 256) as nat)
}

pub open spec fn pow65536(k: nat) -> nat
    decreases k,
{
    if k == 0 {
        1
    } else {
        65536 * pow65536((k - 1) as nat)
    }
}

/// The `i`-th 16-bit group of an IPv6 address, most significant first.
pub open spec fn segment(a: u128, i: int) -> u16 {
    ((a as nat / pow65536((7 - i) as nat)) % 65536) as u16
}

pub open spec fn segments(a: u128) -> Seq<u16> {
    Seq::new(8, |i: int| segment(a, i))
}

pub open spec fn hex_digit(d: nat) -> char {
    if d < 10 {
        ((d + 48) as u8) as char
    } else {
        ((d + 87) as u8) as char
    }
}

/// Lower-case hexadecimal digits of a number, without leading zeros.
pub open spec fn hex(n: nat) -> Seq<char>
    decreases n,
{
    if n < 16 {
        seq![hex_digit(n)]
    } else {
        hex(n / 16).push(hex_digit(n % 16))
    }
}

/// Groups in hexadecimal, separated by colons.
pub open spec fn join_hex(s: Seq<u16>) -> Seq<char>
    decreases s.len(),
{
    if s.len() == 0 {
        seq![]
    } else if s.len() == 1 {
        hex(s[0] as nat)
    } else {
        join_hex(s.drop_last()) + seq![':'] + hex(s.last() as nat)
    }
}

/// A run of zero groups: where it starts and how long it is.
pub struct ZeroRun {
    pub start: nat,
    pub len: nat,
}

/// After the first `k` groups: the first longest run of zero groups so
/// far, and the run that is still open at group `k`.
pub open spec fn zero_runs(s: Seq<u16>, k: nat) -> (ZeroRun, ZeroRun)
    decreases k,
{
    if k == 0 {
        (ZeroRun { start: 0, len: 0 }, ZeroRun { start: 0, len: 0 })
    } else {
        let (longest, cur) = zero_runs(s, (k - 1) as nat);
        let i = (k - 1) as nat;
        if s[i as int] == 0 {
            let next = ZeroRun {
                start: if cur.len == 0 {
                    i
                } else {
                    cur.start
                },
                len: cur.len + 1,
            };
            (if next.len > longest.len {
                next
            } else {
                longest
            }, next)
        } else {
            (longest, ZeroRun { start: 0, len: 0 })
        }
    }
}

/// An IPv4-mapped address `::ffff:a.b.c.d`.
pub open spec fn ipv4_mapped(s: Seq<u16>) -> bool {
    s[0] == 0 && s[1] == 0 && s[2] == 0 && s[3] == 0 && s[4] == 0 && s[5] == 0xffff
}

/// The text of an IPv6 address in the canonical style of RFC 5952, as
/// `Ipv6Addr`'s `Display` writes it: an IPv4-mapped address as
/// `::ffff:a.b.c.d`; otherwise the groups in lower-case hexadecimal, with
/// the first longest run of two or more zero groups written as `::`.
pub open spec fn ipv6_display(a: u128) -> Seq<char> {
    let s = segments(a);
    if ipv4_mapped(s) {
        seq![':', ':', 'f', 'f', 'f', 'f', ':'] + ipv4_display((a % 0x1_0000_0000) as u32)
    } else {
        let z = zero_runs(s, 8).0;
        if z.len > 1 {
            join_hex(s.take(z.start as int)) + seq![':', ':'] + join_hex(s.skip((z.start + z.len) as int))
        } else {
            join_hex(s)
        }
    }
}

pub open spec fn addr_display(a: HostAddr) -> Seq<char> {
    match a {
        HostAddr::V4(v) => ipv4_display(v),
        HostAddr::V6(v) => ipv6_display(v),
    }
}

fn ipv4_chars(a: u32) -> (t: Vec<char>)
    ensures
        t@ == ipv4_display(a),
{
    let mut t = decimal_chars((a / 16777216) as u64);
    t.push('.');
    let b = decimal_chars(((a / 65536) % 256) as u64);
    extend_chars(&mut t, &b);
    t.push('.');
    let c = decimal_chars(((a / 256) % 256) as u64);
    extend_chars(&mut t, &c);
    t.push('.');
    let d = decimal_chars((a % 256) as u64);
    extend_chars(&mut t, &d);
    assert(t@ =~= ipv4_display(a));
    t
}

fn segments_exec(a: u128) -> (v: Vec<u16>)
    ensures
        v@ == segments(a),
{
    let mut v: Vec<u16> = vec![0, 0, 0, 0, 0, 0, 0, 0];
    let mut x = a;
    let mut k: usize = 0;
    assert(pow65536(0) == 1);
    assert(a as nat / 1 == a as nat);
    while k < 8
        invariant
            k <= 8,
            v@.len() == 8,
            x as nat == a as nat / pow65536(k as nat),
            forall|j: int| 8 - k <= j < 8 ==> v@[j] == segment(a, j),
        decreases 8 - k,
    {
        let ghost old_v = v@;
        v.set(7 - k, (x % 65536) as u16);
        proof {
            lemma_pow65536_pos(k as nat);
            lemma_div_denominator(a as int, pow65536(k as nat) as int, 65536);
            assert(pow65536((k + 1) as nat) == 65536 * pow65536(k as nat));
            assert(pow65536(k as nat) * 65536 == pow65536((k + 1) as nat)) by (nonlinear_arith)
                requires
                    pow65536((k + 1) as nat) == 65536 * pow65536(k as nat),
            ;
            assert((7 - (7 - k)) as nat == k as nat);
            lemma_pow65536_pos(k as nat);
        }
        x = x / 65536;
        k = k + 1;
    }
    assert(v@ =~= segments(a));
    v
}

proof fn lemma_pow65536_pos(k: nat)
    ensures
        pow65536(k) > 0,
    decreases k,
{
    if k > 0 {
        lemma_pow65536_pos((k - 1) as nat);
    }
}

fn hex_chars(n: u64) -> (r: Vec<char>)
    ensures
        r@ == hex(n as nat),
    decreases n,
{
    let d = (n % 16) as u8;
    let c = if d < 10 { (d + 48) as char } else { (d + 87) as char };
    if n < 16 {
        vec![c]
    } else {
        let mut r = hex_chars(n / 16);
        r.push(c);
        r
    }
}

fn join_hex_exec(s: &[u16], from: usize, to: usize) -> (r: Vec<char>)
    requires
        from <= to <= s@.len(),
    ensures
        r@ == join_hex(s@.subrange(from as int, to as int)),
{
    let ghost part = s@.subrange(from as int, to as int);
    let mut r: Vec<char> = Vec::new();
    let mut k = from;
    while k < to
        invariant
            from <= k <= to <= s@.len(),
            part == s@.subrange(from as int, to as int),
            r@ == join_hex(part.take(k - from)),
        decreases to - k,
    {
        let h = hex_chars(s[k] as u64);
        let ghost t = part.take(k - from + 1);
        assert(t.drop_last() =~= part.take(k - from));
        assert(t.last() == s@[k as int]);
        if k > from {
            r.push(':');
        }
        extend_chars(&mut r, &h);
        if k == from {
            assert(join_hex(part.take(0)) =~= Seq::<char>::empty());
            assert(r@ =~= hex(s@[k as int] as nat));
        }
        k = k + 1;
    }
    assert(part.take(to - from) =~= part);
    r
}

/// The text of an IPv6 address, as `ipv6_display` describes it.
fn ipv6_text(a: u128) -> (r: String)
    ensures
        r@ == ipv6_display(a),
{
    let segs = segments_exec(a);
    if segs[0] == 0 && segs[1] == 0 && segs[2] == 0 && segs[3] == 0 && segs[4] == 0 && segs[5]
        == 0xffff {
        let mut t: Vec<char> = vec![':', ':', 'f', 'f', 'f', 'f', ':'];
        assert(t@ =~= seq![':', ':', 'f', 'f', 'f', 'f', ':']);
        let v4c = ipv4_chars((a % 0x1_0000_0000) as u32);
        extend_chars(&mut t, &v4c);
        return string_of(&t);
    }
    let mut best_start: usize = 0;
    let mut best_len: usize = 0;
    let mut cur_start: usize = 0;
    let mut cur_len: usize = 0;
    for i in 0..8
        invariant
            segs@ == segments(a),
            zero_runs(segs@, i as nat) == (ZeroRun { start: best_start as nat, len: best_len as nat },
            ZeroRun { start: cur_start as nat, len: cur_len as nat }),
            best_start + best_len <= i,
            cur_start + cur_len <= i,
    {
        if segs[i] == 0 {
            if cur_len == 0 {
                cur_start = i;
            }
            cur_len = cur_len + 1;
            if cur_len > best_len {
                best_start = cur_start;
                best_len = cur_len;
            }
        } else {
            cur_start = 0;
            cur_len = 0;
        }
    }
    assert(segs@.subrange(0, best_start as int) =~= segs@.take(best_start as int));
    assert(segs@.subrange((best_start + best_len) as int, 8) =~= segs@.skip(
        (best_start + best_len) as int,
    ));
    assert(segs@.subrange(0, 8) =~= segs@);
    if best_len > 1 {
        let mut t = join_hex_exec(&segs, 0, best_start);
        t.push(':');
        t.push(':');
        let tail = join_hex_exec(&segs, best_start + best_len, 8);
        extend_chars(&mut t, &tail);
        string_of(&t)
    } else {
        string_of(&join_hex_exec(&segs, 0, 8))
    }
}

impl HostAddr {
    /// The text of the address, as `IpAddr`'s `Display` writes it.
    pub fn to_string(&self) -> (s: String)
        ensures
            s@ == addr_display(*self),
    {
        match *self {
            HostAddr::V4(a) => string_of(&ipv4_chars(a)),
            HostAddr::V6(a) => ipv6_text(a),
        }
    }
}

} // verus!
