//! Reply-time statistics over a run of echo requests, to the microsecond.

use vstd::prelude::*;
use super::PingReply;

verus! {

/// The reply times of a run, in order; lost and failed requests have none.
pub open spec fn rtts_of(replies: Seq<PingReply>) -> Seq<u32>
    decreases replies.len(),
{
    if replies.len() == 0 {
        seq![]
    } else {
        match replies.last() {
            PingReply::Reply { rtt_us } => rtts_of(replies.drop_last()).push(rtt_us),
            _ => rtts_of(replies.drop_last()),
        }
    }
}

pub open spec fn sum_of(s: Seq<u32>) -> nat
    decreases s.len(),
{
    if s.len() == 0 {
        0
    } else {
        sum_of(s.drop_last()) + s.last() as nat
    }
}

pub open spec fn sum_sq_of(s: Seq<u32>) -> nat
    decreases s.len(),
{
    if s.len() == 0 {
        0
    } else {
        sum_sq_of(s.drop_last()) + (s.last() as nat) * (s.last() as nat)
    }
}

pub open spec fn min_of(s: Seq<u32>) -> u32
    decreases s.len(),
{
    if s.len() <= 1 {
        if s.len() == 0 {
            0
        } else {
            s[0]
        }
    } else if s.last() < min_of(s.drop_last()) {
        s.last()
    } else {
        min_of(s.drop_last())
    }
}

pub open spec fn max_of(s: Seq<u32>) -> u32
    decreases s.len(),
{
    if s.len() <= 1 {
        if s.len() == 0 {
            0
        } else {
            s[0]
        }
    } else if s.last() > max_of(s.drop_last()) {
        s.last()
    } else {
        max_of(s.drop_last())
    }
}

pub open spec fn abs_diff(a: u32, b: u32) -> nat {
    if a >= b {
        (a - b) as nat
    } else {
        (b - a) as nat
    }
}

/// The sum of the differences between consecutive reply times.
pub open spec fn jitter_sum_of(s: Seq<u32>) -> nat
    decreases s.len(),
{
    if s.len() <= 1 {
        0
    } else {
        jitter_sum_of(s.drop_last()) + abs_diff(s[s.len() - 2], s.last())
    }
}

/// `n` times the sum of squares less the squared sum: `n * n` times the
/// variance of the reply times.
pub open spec fn spread_of(s: Seq<u32>) -> int {
    s.len() * sum_sq_of(s) - sum_of(s) * sum_of(s)
}

/// `d` is the standard deviation of the reply times rounded down:
/// `d <= sqrt(spread) / n < d + 1`.
pub open spec fn is_stddev(s: Seq<u32>, d: nat) -> bool {
    let n = s.len();
    (d * n) * (d * n) <= spread_of(s) && spread_of(s) < ((d + 1) * n) * ((d + 1) * n)
}

proof fn lemma_bounds(s: Seq<u32>)
    ensures
        sum_of(s) <= s.len() * (u32::MAX as nat),
        sum_sq_of(s) <= s.len() * ((u32::MAX as nat) * (u32::MAX as nat)),
        s.len() >= 1 ==> jitter_sum_of(s) <= (s.len() - 1) * (u32::MAX as nat),
        s.len() >= 1 ==> sum_of(s) >= s.len() * min_of(s),
        s.len() >= 1 ==> sum_of(s) <= s.len() * max_of(s),
        s.len() >= 1 ==> min_of(s) <= max_of(s),
        forall|i: int| 0 <= i < s.len() ==> min_of(s) <= #[trigger] s[i] <= max_of(s),
        s.len() >= 1 ==> jitter_sum_of(s) <= (s.len() - 1) * (max_of(s) - min_of(s)),
    decreases s.len(),
{
    if s.len() > 0 {
        let t = s.drop_last();
        lemma_bounds(t);
        let m = u32::MAX as nat;
        let x = s.last();
        assert(x * x <= m * m) by (nonlinear_arith)
            requires
                x <= m,
        ;
        assert(sum_sq_of(s) <= s.len() * (m * m)) by (nonlinear_arith)
            requires
                sum_sq_of(t) <= t.len() * (m * m),
                sum_sq_of(s) == sum_sq_of(t) + x * x,
                x * x <= m * m,
                s.len() == t.len() + 1,
        ;
        assert forall|i: int| 0 <= i < s.len() implies min_of(s) <= #[trigger] s[i] <= max_of(s) by {
            if i < t.len() {
                assert(s[i] == t[i]);
            }
        }
        if s.len() >= 2 {
            assert(sum_of(s) >= s.len() * min_of(s)) by (nonlinear_arith)
                requires
                    sum_of(t) >= t.len() * min_of(t),
                    min_of(s) <= min_of(t),
                    min_of(s) <= x,
                    sum_of(s) == sum_of(t) + x,
                    s.len() == t.len() + 1,
            ;
            assert(sum_of(s) <= s.len() * max_of(s)) by (nonlinear_arith)
                requires
                    sum_of(t) <= t.len() * max_of(t),
                    max_of(s) >= max_of(t),
                    max_of(s) >= x,
                    sum_of(s) == sum_of(t) + x,
                    s.len() == t.len() + 1,
            ;
            let y = s[s.len() - 2];
            assert(y == t.last());
            assert(abs_diff(y, x) <= max_of(s) - min_of(s));
            assert(jitter_sum_of(s) <= (s.len() - 1) * (max_of(s) - min_of(s))) by (nonlinear_arith)
                requires
                    jitter_sum_of(t) <= (t.len() - 1) * (max_of(t) - min_of(t)),
                    max_of(s) - min_of(s) >= max_of(t) - min_of(t),
                    max_of(t) >= min_of(t),
                    jitter_sum_of(s) == jitter_sum_of(t) + abs_diff(y, x),
                    abs_diff(y, x) <= max_of(s) - min_of(s),
                    s.len() == t.len() + 1,
                    t.len() >= 1,
            ;
            assert(abs_diff(y, x) <= m);
        } else {
            assert(s.len() == 1);
            assert(sum_of(t) == 0);
            assert(s.last() == s[0]);
            assert(min_of(s) == s[0] && max_of(s) == s[0]);
            assert(sum_of(s) == s[0] as nat);
            let l = s.len();
            let lo = min_of(s) as nat;
            let hi = max_of(s) as nat;
            assert(l * lo == lo && l * hi == hi) by (nonlinear_arith)
                requires
                    l == 1,
            ;
        }
    }
}

/// `n * sum of squares >= (sum)^2`, so the spread is never negative.
proof fn lemma_spread_nonneg(s: Seq<u32>)
    ensures
        spread_of(s) >= 0,
    decreases s.len(),
{
    if s.len() > 0 {
        let t = s.drop_last();
        lemma_spread_nonneg(t);
        let n = t.len() as int;
        let a = sum_of(t) as int;
        let q = sum_sq_of(t) as int;
        let x = s.last() as int;
        assert((n + 1) * (q + x * x) - (a + x) * (a + x) >= 0) by (nonlinear_arith)
            requires
                n * q - a * a >= 0,
                n >= 0,
                q >= 0,
                n == 0 ==> a == 0 && q == 0,
        {
            if n > 0 {
                assert(n * (q - 2 * a * x + n * x * x) >= (a - n * x) * (a - n * x));
                assert((a - n * x) * (a - n * x) >= 0);
            }
        }
        if n == 0 {
            assert(t.len() == 0);
        }
    }
}

/// The integer square root, rounded down.
pub fn isqrt(a: u128) -> (r: u64)
    ensures
        (r as int) * (r as int) <= a,
        a < (r as int + 1) * (r as int + 1),
{
    let mut lo: u128 = 0;
    let mut hi: u128 = 0x1_0000_0000_0000_0000;
    assert((hi as int) * (hi as int) == 0x1_0000_0000_0000_0000_0000_0000_0000_0000);
    while hi - lo > 1
        invariant
            lo < hi <= 0x1_0000_0000_0000_0000,
            (lo as int) * (lo as int) <= a,
            a < (hi as int) * (hi as int),
        decreases hi - lo,
    {
        let mid = lo + (hi - lo) / 2;
        assert(mid * mid < 0x1_0000_0000_0000_0000_0000_0000_0000_0000) by (nonlinear_arith)
            requires
                mid < 0x1_0000_0000_0000_0000,
        ;
        if mid * mid <= a {
            lo = mid;
        } else {
            hi = mid;
        }
    }
    assert(hi == lo + 1);
    lo as u64
}

/// Reply-time statistics of a run, in microseconds, rounded down.
#[derive(Debug)]
pub struct PingStats {
    pub host: String,
    pub ip: String,
    pub sent: u32,
    pub received: u32,
    pub lost: u32,
    pub min_us: u32,
    pub max_us: u32,
    pub avg_us: u32,
    pub stddev_us: u32,
    pub jitter_us: u32,
}

impl PingStats {
    /// The statistics of a run of replies: counts, the smallest and largest
    /// reply time, the mean, the standard deviation, and the jitter (the
    /// mean difference between consecutive reply times), all zero where no
    /// reply came.
    pub fn from_results(host: &str, ip: &str, replies: &[PingReply]) -> (st: Self)
        requires
            replies@.len() <= u32::MAX,
        ensures
            st.host@ == host@,
            st.ip@ == ip@,
            st.sent == replies@.len(),
            st.received == rtts_of(replies@).len(),
            st.lost == st.sent - st.received,
            rtts_of(replies@).len() == 0 ==> st.min_us == 0 && st.max_us == 0 && st.avg_us == 0
                && st.stddev_us == 0 && st.jitter_us == 0,
            rtts_of(replies@).len() > 0 ==> {
                let s = rtts_of(replies@);
                &&& st.min_us == min_of(s)
                &&& st.max_us == max_of(s)
                &&& st.avg_us == sum_of(s) / s.len()
                &&& is_stddev(s, st.stddev_us as nat)
                &&& st.jitter_us == (if s.len() > 1 {
                    jitter_sum_of(s) / ((s.len() - 1) as nat)
                } else {
                    0
                })
            },
    {
        let ghost all = replies@;
        let mut n: u64 = 0;
        let mut sum: u64 = 0;
        let mut sum_sq: u128 = 0;
        let mut min: u32 = 0;
        let mut max: u32 = 0;
        let mut jitter: u64 = 0;
        let mut prev: u32 = 0;
        for i in 0..replies.len()
            invariant
                all == replies@,
                all.len() <= u32::MAX,
                n == rtts_of(all.take(i as int)).len(),
                n <= i,
                sum == sum_of(rtts_of(all.take(i as int))),
                sum_sq == sum_sq_of(rtts_of(all.take(i as int))),
                min == min_of(rtts_of(all.take(i as int))),
                max == max_of(rtts_of(all.take(i as int))),
                jitter == jitter_sum_of(rtts_of(all.take(i as int))),
                n > 0 ==> prev == rtts_of(all.take(i as int)).last(),
        {
            let ghost before = rtts_of(all.take(i as int));
            assert(all.take(i + 1).drop_last() =~= all.take(i as int));
            proof {
                lemma_bounds(before);
            }
            match &replies[i] {
                PingReply::Reply { rtt_us } => {
                    let x = *rtt_us;
                    let ghost after = before.push(x);
                    assert(after.drop_last() =~= before);
                    proof {
                        lemma_bounds(after);
                        assert(n + 1 <= u32::MAX);
                        assert(sum_of(after) <= after.len() * (u32::MAX as nat));
                        assert(after.len() * (u32::MAX as nat) <= (u32::MAX as nat) * (u32::MAX as nat))
                            by (nonlinear_arith)
                            requires
                                after.len() <= u32::MAX,
                        ;
                        assert(sum_sq_of(after) <= after.len() * ((u32::MAX as nat) * (
                        u32::MAX as nat)));
                        assert(after.len() * ((u32::MAX as nat) * (u32::MAX as nat)) <= (
                        u32::MAX as nat) * ((u32::MAX as nat) * (u32::MAX as nat)))
                            by (nonlinear_arith)
                            requires
                                after.len() <= u32::MAX,
                        ;
                    }
                    if n == 0 {
                        min = x;
                        max = x;
                    } else {
                        if x < min {
                            min = x;
                        }
                        if x > max {
                            max = x;
                        }
                        let d = if x >= prev { x - prev } else { prev - x };
                        jitter = jitter + d as u64;
                    }
                    n = n + 1;
                    sum = sum + x as u64;
                    sum_sq = sum_sq + (x as u128) * (x as u128);
                    prev = x;
                },
                _ => {},
            }
        }
        assert(all.take(all.len() as int) =~= all);
        let sent = replies.len() as u32;
        let received = n as u32;
        if n == 0 {
            return PingStats {
                host: host.to_owned(),
                ip: ip.to_owned(),
                sent,
                received,
                lost: sent - received,
                min_us: 0,
                max_us: 0,
                avg_us: 0,
                stddev_us: 0,
                jitter_us: 0,
            };
        }
        let ghost s = rtts_of(all);
        proof {
            lemma_bounds(s);
            lemma_spread_nonneg(s);
        }
        let avg = sum / n;
        proof {
            assert(avg <= max) by (nonlinear_arith)
                requires
                    avg == sum / n,
                    n > 0,
                    sum <= n * max,
            ;
        }
        let ghost m = u32::MAX as int;
        proof {
            assert((n as int) * (sum_sq as int) <= m * m * m * m) by (nonlinear_arith)
                requires
                    0 <= n <= m,
                    sum_sq <= n * (m * m),
                    m > 0,
            ;
            assert(m * m * m * m < 0x1_0000_0000_0000_0000_0000_0000_0000_0000) by (nonlinear_arith)
                requires
                    m == 0xffff_ffff,
            ;
            assert((sum as int) * (sum as int) <= (n as int) * (sum_sq as int));
        }
        let nq = (n as u128) * sum_sq;
        let ss = (sum as u128) * (sum as u128);
        let a = nq - ss;
        assert(a == spread_of(s));
        let r = isqrt(a);
        let dev = r / n;
        proof {
            let ni = n as int;
            let ri = r as int;
            let di = dev as int;
            assert(di * ni <= ri && ri < (di + 1) * ni) by (nonlinear_arith)
                requires
                    di == ri / ni,
                    ni > 0,
                    ri >= 0,
            ;
            assert((di * ni) * (di * ni) <= ri * ri) by (nonlinear_arith)
                requires
                    0 <= di * ni <= ri,
            ;
            assert((ri + 1) * (ri + 1) <= ((di + 1) * ni) * ((di + 1) * ni)) by (nonlinear_arith)
                requires
                    0 <= ri + 1 <= (di + 1) * ni,
            ;
            assert(is_stddev(s, dev as nat));
            assert(di <= m) by (nonlinear_arith)
                requires
                    (di * ni) * (di * ni) <= a,
                    a <= ni * (sum_sq as int),
                    sum_sq <= ni * (m * m),
                    ni > 0,
                    di >= 0,
                    m > 0,
            {
                if di > m {
                    assert(di * ni > m * ni);
                    assert((di * ni) * (di * ni) > (m * ni) * (m * ni));
                }
            }
        }
        let jit = if n > 1 { jitter / (n - 1) } else { 0 };
        proof {
            if n > 1 {
                assert(jit <= m) by (nonlinear_arith)
                    requires
                        jit as int == (jitter as int) / (n as int - 1),
                        n > 1,
                        jitter <= (n - 1) * m,
                ;
            }
        }
        PingStats {
            host: host.to_owned(),
            ip: ip.to_owned(),
            sent,
            received,
            lost: sent - received,
            min_us: min,
            max_us: max,
            avg_us: avg as u32,
            stddev_us: dev as u32,
            jitter_us: jit as u32,
        }
    }

    /// The share of requests lost, in percent, as an exact fraction
    /// `(numerator, denominator)`: `(lost * 100, sent)`, or `(0, 1)` where
    /// nothing was sent. The loss is zero exactly when nothing was lost.
    pub fn loss_percent(&self) -> (r: (u64, u64))
        ensures
            self.sent == 0 ==> r == (0u64, 1u64),
            self.sent > 0 ==> r.0 == self.lost as nat * 100 && r.1 == self.sent,
            r.1 > 0,
            r.0 == 0 <==> (self.sent == 0 || self.lost == 0),
    {
        if self.sent == 0 {
            (0, 1)
        } else {
            (self.lost as u64 * 100, self.sent as u64)
        }
    }
}

/// A run's loss is zero exactly when every request was answered.
pub proof fn law_no_loss_iff_all_replied(replies: Seq<PingReply>)
    ensures
        rtts_of(replies).len() == replies.len() <==> forall|i: int|
            0 <= i < replies.len() ==> #[trigger] replies[i] is Reply,
    decreases replies.len(),
{
    lemma_rtts_len(replies);
    if replies.len() > 0 {
        let init = replies.drop_last();
        law_no_loss_iff_all_replied(init);
        lemma_rtts_len(init);
        if forall|i: int| 0 <= i < replies.len() ==> #[trigger] replies[i] is Reply {
            assert forall|i: int| 0 <= i < init.len() implies #[trigger] init[i] is Reply by {
                assert(replies[i] is Reply);
            }
            assert(replies[replies.len() - 1] is Reply);
        } else {
            let k = choose|i: int| 0 <= i < replies.len() && !(#[trigger] replies[i] is Reply);
            if k < replies.len() - 1 {
                assert(!(init[k] is Reply));
            }
        }
    }
}

/// Of a non-empty run of reply times, `min_of` is the smallest and
/// `max_of` the largest: each is one of the times, and no time lies outside
/// them.
pub proof fn law_extremes_attained(s: Seq<u32>)
    requires
        s.len() > 0,
    ensures
        exists|i: int| 0 <= i < s.len() && s[i] == min_of(s),
        exists|i: int| 0 <= i < s.len() && s[i] == max_of(s),
        forall|i: int| 0 <= i < s.len() ==> min_of(s) <= #[trigger] s[i] <= max_of(s),
    decreases s.len(),
{
    lemma_bounds(s);
    if s.len() == 1 {
        assert(s[0] == min_of(s) && s[0] == max_of(s));
    } else {
        let t = s.drop_last();
        law_extremes_attained(t);
        let a = choose|i: int| 0 <= i < t.len() && t[i] == min_of(t);
        let b = choose|i: int| 0 <= i < t.len() && t[i] == max_of(t);
        assert(s[a] == t[a] && s[b] == t[b]);
        assert(s[s.len() - 1] == s.last());
        if s.last() < min_of(t) {
            assert(s[s.len() - 1] == min_of(s));
        } else {
            assert(s[a] == min_of(s));
        }
        if s.last() > max_of(t) {
            assert(s[s.len() - 1] == max_of(s));
        } else {
            assert(s[b] == max_of(s));
        }
    }
}

/// The reply times of a run are those of its replies, one by one: a reply
/// gives its time, a lost or failed request none, and two runs one after
/// the other give the times of the first followed by those of the second.
pub proof fn law_reply_times(a: Seq<PingReply>, b: Seq<PingReply>, t: u32, x: PingReply)
    ensures
        rtts_of(a + b) == rtts_of(a) + rtts_of(b),
        rtts_of(seq![PingReply::Reply { rtt_us: t }]) == seq![t],
        !(x is Reply) ==> rtts_of(seq![x]) == Seq::<u32>::empty(),
    decreases b.len(),
{
    let lone = seq![x];
    let reply = seq![PingReply::Reply { rtt_us: t }];
    assert(lone.drop_last() =~= Seq::<PingReply>::empty());
    assert(reply.drop_last() =~= Seq::<PingReply>::empty());
    assert(lone.len() == 1 && lone.last() == x);
    assert(reply.len() == 1 && reply.last() == PingReply::Reply { rtt_us: t });
    assert(rtts_of(Seq::<PingReply>::empty()) == Seq::<u32>::empty());
    assert(seq![t] =~= Seq::<u32>::empty().push(t));
    if b.len() > 0 {
        law_reply_times(a, b.drop_last(), t, x);
        assert((a + b).drop_last() =~= a + b.drop_last());
        assert((a + b).last() == b.last());
        let r = rtts_of(a);
        let q = rtts_of(b.drop_last());
        match b.last() {
            PingReply::Reply { rtt_us } => {
                assert(r + q.push(rtt_us) =~= (r + q).push(rtt_us));
            },
            _ => {},
        }
    } else {
        assert(a + b =~= a);
        assert(rtts_of(a) + rtts_of(b) =~= rtts_of(a));
    }
}

/// The sums over reply times add up over runs one after the other, a single
/// time summing to itself (and its square); the consecutive differences of
/// two runs add up with the one difference where they meet.
pub proof fn law_sums_add_up(a: Seq<u32>, b: Seq<u32>, x: u32)
    ensures
        sum_of(a + b) == sum_of(a) + sum_of(b),
        sum_sq_of(a + b) == sum_sq_of(a) + sum_sq_of(b),
        sum_of(seq![x]) == x,
        sum_sq_of(seq![x]) == x * x,
        jitter_sum_of(seq![x]) == 0,
        a.len() > 0 && b.len() > 0 ==> jitter_sum_of(a + b) == jitter_sum_of(a) + jitter_sum_of(b)
            + abs_diff(a.last(), b[0]),
    decreases b.len(),
{
    let one = seq![x];
    assert(one.drop_last() =~= Seq::<u32>::empty());
    assert(one.len() == 1 && one.last() == x);
    assert(sum_of(one.drop_last()) == 0 && sum_sq_of(one.drop_last()) == 0);
    if b.len() > 0 {
        law_sums_add_up(a, b.drop_last(), x);
        assert((a + b).drop_last() =~= a + b.drop_last());
        assert((a + b).last() == b.last());
        if a.len() > 0 && b.len() > 1 {
            assert((a + b)[(a + b).len() - 2] == b[b.len() - 2]);
            assert(b.drop_last()[0] == b[0]);
        }
        if a.len() > 0 && b.len() == 1 {
            assert((a + b)[(a + b).len() - 2] == a.last());
            assert(a + b.drop_last() =~= a);
        }
    } else {
        assert(a + b =~= a);
    }
}

/// The mean reply time lies between the smallest and the largest.
pub proof fn law_mean_between_extremes(s: Seq<u32>)
    requires
        s.len() > 0,
    ensures
        min_of(s) <= sum_of(s) / s.len() <= max_of(s),
{
    lemma_bounds(s);
    let n = s.len() as int;
    let a = sum_of(s) as int;
    assert(min_of(s) <= a / n <= max_of(s)) by (nonlinear_arith)
        requires
            n > 0,
            a >= n * min_of(s),
            a <= n * max_of(s),
    ;
}

/// The jitter is at most the spread between the smallest and largest
/// reply times: no two consecutive replies differ by more than that.
pub proof fn law_jitter_within_range(s: Seq<u32>)
    requires
        s.len() > 1,
    ensures
        jitter_sum_of(s) / ((s.len() - 1) as nat) <= max_of(s) - min_of(s),
{
    lemma_bounds(s);
    let k = s.len() - 1;
    let j = jitter_sum_of(s) as int;
    let w = max_of(s) - min_of(s);
    assert(j / k <= w) by (nonlinear_arith)
        requires
            k > 0,
            j >= 0,
            j <= k * w,
    ;
}

/// Every reply counts either as received or as lost, and the statistics of
/// a run with replies stay within the smallest and largest reply time.
pub proof fn law_stats_consistent(replies: Seq<PingReply>)
    requires
        replies.len() <= u32::MAX,
    ensures
        rtts_of(replies).len() <= replies.len(),
        forall|i: int|
            0 <= i < rtts_of(replies).len() ==> min_of(rtts_of(replies)) <= #[trigger] rtts_of(
                replies,
            )[i] <= max_of(rtts_of(replies)),
{
    lemma_rtts_len(replies);
    lemma_bounds(rtts_of(replies));
}

proof fn lemma_rtts_len(replies: Seq<PingReply>)
    ensures
        rtts_of(replies).len() <= replies.len(),
    decreases replies.len(),
{
    if replies.len() > 0 {
        lemma_rtts_len(replies.drop_last());
    }
}

} // verus!
