//! Subnets: the hosts that a CIDR block holds.

use vstd::prelude::*;
use crate::addr::HostAddr;
use crate::error::MeshpingError;

verus! {

/// What `IpNetwork::from_str` reads from a text: the address written before
/// the `/` and the prefix length; none where the text is not a CIDR block.
pub uninterp spec fn cidr_block(text: Seq<char>) -> Option<(HostAddr, u8)>;

/// `IpNetwork::from_str` of the ipnetwork crate, with the network's `ip()`
/// taken as its integer and its `prefix()`. The texts it accepts are named
/// `cidr_block` and not spelled out. `Ipv4Network::new` and
/// `Ipv6Network::new` refuse a prefix longer than the address, so the
/// prefix is at most 32 for IPv4 and at most 128 for IPv6.
#[verifier::external_body]
fn parse_cidr(text: &str) -> (r: Option<(HostAddr, u8)>)
    ensures
        r == cidr_block(text@),
        r matches Some((HostAddr::V4(_), p)) ==> p <= 32,
        r matches Some((HostAddr::V6(_), p)) ==> p <= 128,
{
    match text.parse::<ipnetwork::IpNetwork>() {
        Ok(ipnetwork::IpNetwork::V4(n)) => Some((HostAddr::V4(u32::from(n.ip())), n.prefix())),
        Ok(ipnetwork::IpNetwork::V6(n)) => Some((HostAddr::V6(u128::from(n.ip())), n.prefix())),
        Err(_) => None,
    }
}

pub open spec fn pow2(k: nat) -> nat
    decreases k,
{
    if k == 0 {
        1
    } else {
        2 * pow2((k - 1) as nat)
    }
}

/// The number of bits of an address of the family.
pub open spec fn width(a: HostAddr) -> nat {
    match a {
        HostAddr::V4(_) => 32,
        HostAddr::V6(_) => 128,
    }
}

pub open spec fn addr_value(a: HostAddr) -> nat {
    match a {
        HostAddr::V4(v) => v as nat,
        HostAddr::V6(v) => v as nat,
    }
}

/// The address of the same family with the given number.
pub open spec fn with_value(a: HostAddr, v: nat) -> HostAddr {
    match a {
        HostAddr::V4(_) => HostAddr::V4(v as u32),
        HostAddr::V6(_) => HostAddr::V6(v as u128),
    }
}

/// Whether a block leaves out its lowest (network) and highest (broadcast)
/// address: every IPv4 block shorter than /31, and every IPv6 block but a
/// single address (/128).
pub open spec fn drops_edges(addr: HostAddr, prefix: u8) -> bool {
    match addr {
        HostAddr::V4(_) => prefix < 31,
        HostAddr::V6(_) => prefix < 128,
    }
}

/// The hosts of the block of `addr` with the given prefix, in increasing
/// order: every address that agrees with `addr` on the first `prefix` bits,
/// without the lowest (network) and highest (broadcast) address where
/// `drops_edges` says so.
pub open spec fn block_hosts(addr: HostAddr, prefix: u8) -> Seq<HostAddr> {
    let size = pow2((width(addr) - prefix) as nat);
    let start = (addr_value(addr) / size) * size;
    let edge: nat = if drops_edges(addr, prefix) {
        1
    } else {
        0
    };
    Seq::new((size - 2 * edge) as nat, |i: int| with_value(addr, (start + edge + i) as nat))
}

pub proof fn lemma_pow2_add(a: nat, b: nat)
    ensures
        pow2(a + b) == pow2(a) * pow2(b),
    decreases a,
{
    if a > 0 {
        let a1 = (a - 1) as nat;
        lemma_pow2_add(a1, b);
        assert(a + b == (a1 + b) + 1);
        assert(pow2(a + b) == 2 * pow2(a1 + b));
        assert(pow2(a) == 2 * pow2(a1));
        let x = pow2(a1);
        let y = pow2(b);
        assert(2 * (x * y) == (2 * x) * y) by (nonlinear_arith);
    } else {
        assert(pow2(0) == 1);
        assert(a + b == b);
    }
}

pub proof fn lemma_pow2_pos(a: nat)
    ensures
        pow2(a) >= 1,
    decreases a,
{
    if a > 0 {
        lemma_pow2_pos((a - 1) as nat);
    }
}

pub proof fn lemma_pow2_mono(a: nat, b: nat)
    requires
        a <= b,
    ensures
        pow2(a) <= pow2(b),
{
    lemma_pow2_add(a, (b - a) as nat);
    lemma_pow2_pos((b - a) as nat);
    lemma_pow2_pos(a);
    assert(pow2(a) * pow2((b - a) as nat) >= pow2(a)) by (nonlinear_arith)
        requires
            pow2((b - a) as nat) >= 1,
            pow2(a) >= 1,
    ;
    assert(a + (b - a) as nat == b);
}

proof fn lemma_pow2_values()
    ensures
        pow2(1) == 2,
        pow2(2) == 4,
        pow2(32) == 0x1_0000_0000,
        pow2(128) == 0x1_0000_0000_0000_0000_0000_0000_0000_0000,
{
    reveal_with_fuel(pow2, 17);
    assert(pow2(16) == 65536);
    lemma_pow2_add(16, 16);
    assert(pow2(32) == 0x1_0000_0000);
    lemma_pow2_add(32, 32);
    assert(pow2(64) == 0x1_0000_0000_0000_0000);
    lemma_pow2_add(64, 64);
    assert(pow2(128) == 0x1_0000_0000_0000_0000 * 0x1_0000_0000_0000_0000);
}

/// `2^k`.
fn pow2_exec(k: u32) -> (r: u128)
    requires
        k < 128,
    ensures
        r == pow2(k as nat),
{
    let mut r: u128 = 1;
    let mut i: u32 = 0;
    while i < k
        invariant
            i <= k < 128,
            r == pow2(i as nat),
        decreases k - i,
    {
        proof {
            lemma_pow2_mono((i + 1) as nat, 127);
            lemma_pow2_values();
            lemma_pow2_add(127, 1);
            assert(pow2(1) == 2);
        }
        r = r * 2;
        i = i + 1;
    }
    r
}

/// The block of `v` with blocks of `size` addresses ends inside the space of
/// `size * count` addresses.
proof fn lemma_block_fits(v: nat, size: nat, count: nat)
    requires
        size >= 1,
        v < size * count,
    ensures
        (v / size) * size + size <= size * count,
        (v / size) * size <= v,
{
    assert((v / size) * size <= v) by (nonlinear_arith)
        requires
            size >= 1,
    ;
    assert(v / size < count) by (nonlinear_arith)
        requires
            size >= 1,
            v < size * count,
    ;
    assert((v / size) * size + size <= size * count) by (nonlinear_arith)
        requires
            v / size < count,
            size >= 1,
    ;
}

/// The hosts of the block of `addr` with the given prefix, as
/// `block_hosts` describes them.
pub fn network_hosts(addr: HostAddr, prefix: u8) -> (r: Vec<HostAddr>)
    requires
        prefix <= width(addr),
    ensures
        r@ == block_hosts(addr, prefix),
{
    let (v, w): (u128, u32) = match addr {
        HostAddr::V4(x) => (x as u128, 32),
        HostAddr::V6(x) => (x, 128),
    };
    let hb: u32 = w - prefix as u32;
    let ghost size = pow2(hb as nat);
    proof {
        lemma_pow2_values();
        lemma_pow2_pos(hb as nat);
        lemma_pow2_add(hb as nat, prefix as nat);
        assert(hb + prefix == w);
        assert(v < pow2(w as nat));
        lemma_block_fits(v as nat, size, pow2(prefix as nat));
        if drops_edges(addr, prefix) {
            lemma_pow2_mono(1, hb as nat);
        }
    }
    let (start, span): (u128, u128) = if hb == 128 {
        assert(prefix == 0);
        assert(pow2(0) == 1);
        assert(size == pow2(128));
        assert((v as nat) < size);
        assert(v as nat / size == 0) by (nonlinear_arith)
            requires
                (v as nat) < size,
        ;
        (0, u128::MAX)
    } else {
        let sz = pow2_exec(hb);
        (v / sz * sz, sz - 1)
    };
    assert(start == (v as nat / size) * size);
    assert(span + 1 == size);
    let drop: bool = match addr {
        HostAddr::V4(_) => prefix < 31,
        HostAddr::V6(_) => prefix < 128,
    };
    let edge: u128 = if drop { 1 } else { 0 };
    let ghost hosts = block_hosts(addr, prefix);
    let mut r: Vec<HostAddr> = Vec::new();
    if edge == 1 && span == 1 {
        assert(hosts.len() == 0);
        assert(r@ =~= hosts);
        return r;
    }
    let first = start + edge;
    let last = start + span - edge;
    let mut cur = first;
    loop
        invariant
            first <= cur <= last,
            first == start + edge,
            last == start + span - edge,
            last as nat + 1 <= pow2(w as nat),
            pow2(32) == 0x1_0000_0000,
            w == width(addr),
            hosts == block_hosts(addr, prefix),
            hosts.len() == last - first + 1,
            forall|i: int| 0 <= i < hosts.len() ==> #[trigger] hosts[i] == with_value(addr, (first + i) as nat),
            r@ == hosts.take(cur - first),
            v as nat == addr_value(addr),
        decreases last - cur,
    {
        let h = match addr {
            HostAddr::V4(_) => HostAddr::V4(cur as u32),
            HostAddr::V6(_) => HostAddr::V6(cur),
        };
        assert(h == hosts[cur - first]);
        r.push(h);
        assert(hosts.take(cur - first + 1) =~= hosts.take(cur - first).push(h));
        if cur == last {
            assert(hosts.take(cur - first + 1) =~= hosts);
            return r;
        }
        cur = cur + 1;
    }
}

/// Parse a CIDR string and return all host IPs (excluding network and
/// broadcast, except for a single-address block, /32 or /128, and for an
/// IPv4 /31).
pub fn cidr_to_hosts(cidr: &str) -> (r: Result<Vec<HostAddr>, MeshpingError>)
    ensures
        match cidr_block(cidr@) {
            None => r matches Err(MeshpingError::InvalidCidr(s)) && s@ == cidr@,
            Some((addr, prefix)) => r matches Ok(hosts) && prefix <= width(addr) && hosts@
                == block_hosts(addr, prefix),
        },
{
    match parse_cidr(cidr) {
        None => Err(MeshpingError::InvalidCidr(cidr.to_owned())),
        Some((addr, prefix)) => Ok(network_hosts(addr, prefix)),
    }
}

/// The hosts of a block all lie in the network of the address, each once,
/// in increasing order; a block that leaves out its edges (`drops_edges`)
/// gives `2^(bits - prefix) - 2` hosts, the others all `2^(bits - prefix)`
/// addresses.
pub proof fn law_block_hosts(addr: HostAddr, prefix: u8)
    requires
        prefix <= width(addr),
    ensures
        ({
            let hosts = block_hosts(addr, prefix);
            let size = pow2((width(addr) - prefix) as nat);
            &&& hosts.len() == if drops_edges(addr, prefix) {
                size - 2
            } else {
                size as int
            }
            &&& forall|i: int|
                0 <= i < hosts.len() ==> addr_value(#[trigger] hosts[i]) / size == addr_value(addr)
                    / size
            &&& forall|i: int, j: int|
                0 <= i < j < hosts.len() ==> addr_value(hosts[i]) < addr_value(hosts[j])
        }),
{
    let hosts = block_hosts(addr, prefix);
    let hb = (width(addr) - prefix) as nat;
    let size = pow2(hb);
    let v = addr_value(addr);
    lemma_pow2_values();
    lemma_pow2_pos(hb);
    lemma_pow2_add(hb, prefix as nat);
    assert(v < pow2(width(addr)));
    lemma_block_fits(v, size, pow2(prefix as nat));
    if drops_edges(addr, prefix) {
        lemma_pow2_mono(1, hb);
    }
    let start = (v / size) * size;
    let edge: nat = if drops_edges(addr, prefix) { 1 } else { 0 };
    assert forall|i: int| 0 <= i < hosts.len() implies addr_value(#[trigger] hosts[i]) == start
        + edge + i by {
        assert(start + edge + i < pow2(width(addr)));
    }
    assert forall|i: int| 0 <= i < hosts.len() implies addr_value(#[trigger] hosts[i]) / size
        == v / size by {
        let x: int = start + edge + i;
        let q: int = (v / size) as int;
        let z: int = size as int;
        assert(x / z == q) by (nonlinear_arith)
            requires
                x == q * z + edge + i,
                0 <= edge + i < z,
                z > 0,
        ;
    }
}

} // verus!
