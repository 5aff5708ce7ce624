use meshping::ping::fallback::{interpret_ping_output, parse_rtt};
use meshping::ping::PingReply;

fn ms(us: u32) -> f64 {
    us as f64 / 1000.0
}

#[test]
fn parse_windows_output() {
    let output = "Reply from 142.250.80.46: bytes=32 time=12ms TTL=56";
    match parse_rtt(output) {
        PingReply::Reply { rtt_us } => assert!((ms(rtt_us) - 12.0).abs() < 0.1),
        other => panic!("Expected Ok, got {:?}", other),
    }
}

#[test]
fn parse_windows_sub_1ms() {
    let output = "Reply from 127.0.0.1: bytes=32 time<1ms TTL=128";
    match parse_rtt(output) {
        PingReply::Reply { rtt_us } => assert!(ms(rtt_us) < 1.0),
        other => panic!("Expected Ok, got {:?}", other),
    }
}

#[test]
fn parse_linux_output() {
    let output = "64 bytes from 142.250.80.46: icmp_seq=1 ttl=56 time=12.3 ms";
    match parse_rtt(output) {
        PingReply::Reply { rtt_us } => assert!((ms(rtt_us) - 12.3).abs() < 0.1),
        other => panic!("Expected Ok, got {:?}", other),
    }
}

#[test]
fn parse_timeout_output() {
    let output = "Request timed out.";
    match parse_rtt(output) {
        PingReply::Timeout => {}
        other => panic!("Expected Timeout, got {:?}", other),
    }
}

fn rtt(output: &str) -> Option<u32> {
    match parse_rtt(output) {
        PingReply::Reply { rtt_us } => Some(rtt_us),
        _ => None,
    }
}

#[test]
fn exact_reply_times() {
    assert_eq!(rtt("time=12ms"), Some(12_000));
    assert_eq!(rtt("time<1ms"), Some(500));
    assert_eq!(rtt("x time=0.045 ms"), Some(45));
    assert_eq!(rtt("time=1.23456 ms"), Some(1_234));
    assert_eq!(rtt("time=.5 ms"), Some(500));
    assert_eq!(rtt("time=7. ms"), Some(7_000));
    assert_eq!(rtt("time=99999999 ms"), Some(u32::MAX));
}

#[test]
fn first_line_with_a_time_wins() {
    let out = "PING host (1.2.3.4) 56(84) bytes of data.\r\n64 bytes: time=1.5 ms\r\n64 bytes: time=2.5 ms\r\n";
    assert_eq!(rtt(out), Some(1_500));
}

#[test]
fn unreadable_times_fall_through() {
    // `time=` followed by no number, or by two decimal points, reports nothing.
    assert_eq!(rtt("time=abc\ntime=3 ms"), Some(3_000));
    assert_eq!(rtt("time=1.2.3 ms\nstill here"), Some(0));
    assert_eq!(rtt("time=x time<1ms"), Some(500));
}

#[test]
fn no_time_and_no_loss_is_zero() {
    assert_eq!(rtt("nothing to see"), Some(0));
    assert_eq!(rtt(""), Some(0));
    assert!(matches!(parse_rtt("1 packets transmitted, 0 received, 100% packet loss"), PingReply::Timeout));
}

#[test]
fn failed_runs() {
    assert!(matches!(interpret_ping_output("Request timed out.", false), PingReply::Timeout));
    assert!(matches!(interpret_ping_output("2 packets, 100% loss", false), PingReply::Timeout));
    match interpret_ping_output("ping: unknown host\nping: cannot resolve foo\n", false) {
        PingReply::Error(m) => assert_eq!(m, "ping failed: ping: cannot resolve foo"),
        other => panic!("expected an error, got {:?}", other),
    }
    match interpret_ping_output("", false) {
        PingReply::Error(m) => assert_eq!(m, "ping failed: unknown error"),
        other => panic!("expected an error, got {:?}", other),
    }
    assert_eq!(
        match interpret_ping_output("time=4 ms", true) {
            PingReply::Reply { rtt_us } => rtt_us,
            _ => 0,
        },
        4_000
    );
}
