use meshping::ping::stats::{isqrt, PingStats};
use meshping::ping::PingReply;

fn ok(ms: f64) -> PingReply {
    PingReply::Reply { rtt_us: (ms * 1000.0).round() as u32 }
}

fn ms(us: u32) -> f64 {
    us as f64 / 1000.0
}

fn percent(stats: &PingStats) -> f64 {
    let (n, d) = stats.loss_percent();
    n as f64 / d as f64
}

#[test]
fn basic_stats() {
    let replies = vec![ok(10.0), ok(20.0), ok(30.0), ok(40.0)];
    let stats = PingStats::from_results("test", "1.2.3.4", &replies);
    assert_eq!(stats.sent, 4);
    assert_eq!(stats.received, 4);
    assert_eq!(stats.lost, 0);
    assert!((ms(stats.min_us) - 10.0).abs() < 0.01);
    assert!((ms(stats.max_us) - 40.0).abs() < 0.01);
    assert!((ms(stats.avg_us) - 25.0).abs() < 0.01);
    assert!((percent(&stats)).abs() < 0.01);
}

#[test]
fn with_packet_loss() {
    let replies = vec![ok(10.0), PingReply::Timeout, ok(30.0), PingReply::Timeout];
    let stats = PingStats::from_results("test", "1.2.3.4", &replies);
    assert_eq!(stats.sent, 4);
    assert_eq!(stats.received, 2);
    assert_eq!(stats.lost, 2);
    assert!((percent(&stats) - 50.0).abs() < 0.01);
}

#[test]
fn all_timeouts() {
    let replies = vec![PingReply::Timeout, PingReply::Timeout];
    let stats = PingStats::from_results("test", "1.2.3.4", &replies);
    assert_eq!(stats.received, 0);
    assert!((percent(&stats) - 100.0).abs() < 0.01);
    assert_eq!(ms(stats.min_us), 0.0);
}

#[test]
fn empty_results() {
    let replies: Vec<PingReply> = vec![];
    let stats = PingStats::from_results("test", "1.2.3.4", &replies);
    assert_eq!(stats.sent, 0);
    assert!((percent(&stats)).abs() < 0.01);
}

#[test]
fn single_ping() {
    let replies = vec![ok(15.5)];
    let stats = PingStats::from_results("test", "1.2.3.4", &replies);
    assert_eq!(stats.received, 1);
    assert!((ms(stats.min_us) - 15.5).abs() < 0.01);
    assert!((ms(stats.max_us) - 15.5).abs() < 0.01);
    assert!((ms(stats.avg_us) - 15.5).abs() < 0.01);
    assert!((ms(stats.stddev_us)).abs() < 0.01);
    assert!((ms(stats.jitter_us)).abs() < 0.01);
}

#[test]
fn jitter_calculation() {
    let replies = vec![ok(10.0), ok(20.0), ok(15.0), ok(25.0)];
    let stats = PingStats::from_results("test", "1.2.3.4", &replies);
    // Diffs: |20-10|=10, |15-20|=5, |25-15|=10 → avg = 25/3 ≈ 8.33
    assert!((ms(stats.jitter_us) - 8.333).abs() < 0.01);
}

#[test]
fn stddev_calculation() {
    let replies = vec![ok(10.0), ok(10.0), ok(10.0)];
    let stats = PingStats::from_results("test", "1.2.3.4", &replies);
    assert!((ms(stats.stddev_us)).abs() < 0.01); // All same → stddev = 0
}

#[test]
fn exact_statistics_in_microseconds() {
    let replies = vec![ok(10.0), ok(20.0), ok(30.0), ok(40.0)];
    let stats = PingStats::from_results("host", "1.2.3.4", &replies);
    assert_eq!(stats.host, "host");
    assert_eq!(stats.ip, "1.2.3.4");
    assert_eq!((stats.min_us, stats.max_us, stats.avg_us), (10_000, 40_000, 25_000));
    // Population standard deviation: sqrt(125) ms = 11.180339... ms.
    assert_eq!(stats.stddev_us, 11_180);
    assert_eq!(stats.jitter_us, 10_000);
}

#[test]
fn mean_between_extremes_and_jitter_within_range() {
    let replies = vec![ok(3.0), PingReply::Error("x".to_string()), ok(7.0), ok(1.0), ok(9.5)];
    let s = PingStats::from_results("h", "i", &replies);
    assert_eq!(s.received + s.lost, s.sent);
    assert!(s.min_us <= s.avg_us && s.avg_us <= s.max_us);
    assert!(s.jitter_us <= s.max_us - s.min_us);
    assert_eq!(s.loss_percent(), (100, 5));
}

#[test]
fn loss_percent_is_exact() {
    let replies = vec![ok(1.0), ok(1.0), PingReply::Timeout];
    let s = PingStats::from_results("h", "i", &replies);
    assert_eq!(s.loss_percent(), (100, 3));
}

#[test]
fn one_loss_in_many_is_not_zero() {
    let mut replies = vec![ok(1.0); 19_999];
    replies.push(PingReply::Timeout);
    let s = PingStats::from_results("h", "i", &replies);
    assert_eq!(s.loss_percent(), (100, 20_000));
    assert!((percent(&s) - 0.005).abs() < 1e-12);
}

#[test]
fn nothing_sent_has_no_loss() {
    let s = PingStats::from_results("h", "i", &[]);
    assert_eq!(s.loss_percent(), (0, 1));
}

#[test]
fn integer_square_root() {
    assert_eq!(isqrt(0), 0);
    assert_eq!(isqrt(1), 1);
    assert_eq!(isqrt(15), 3);
    assert_eq!(isqrt(16), 4);
    assert_eq!(isqrt(u128::MAX), u64::MAX);
}
