use meshping::trace::parse_traceroute_output;

#[test]
fn linux_traceroute_output() {
    let out = "traceroute to google.com (142.250.80.46), 30 hops max, 60 byte packets\n\
 1  router.local (192.168.1.1)  1.234 ms  1.100 ms  1.050 ms\n\
 2  10.0.0.1  5.4 ms  5.2 ms  5.3 ms\n\
 3  * * *\n\
 4  nrt12s51-in-f14.1e100.net (142.250.80.46)  12.3 ms  12.1 ms  12.2 ms\n";
    let hops = parse_traceroute_output(out);
    assert_eq!(hops.len(), 4);
    assert_eq!(hops[0].ttl, 1);
    assert_eq!(hops[0].ip.as_deref(), Some("192.168.1.1"));
    assert_eq!(hops[0].rtt_us, Some(1_234));
    assert_eq!(hops[0].hostname.as_deref(), Some("router.local"));
    assert_eq!(hops[1].ip.as_deref(), Some("10.0.0.1"));
    assert_eq!(hops[1].rtt_us, Some(5_400));
    assert_eq!(hops[1].hostname, None);
    assert_eq!((hops[2].ttl, hops[2].ip.clone(), hops[2].rtt_us), (3, None, None));
    assert_eq!(hops[3].ip.as_deref(), Some("142.250.80.46"));
    assert_eq!(hops[3].hostname.as_deref(), Some("nrt12s51-in-f14.1e100.net"));
    assert_eq!(hops[3].rtt_us, Some(12_300));
}

#[test]
fn linux_hop_with_name_and_address() {
    let hops = parse_traceroute_output(" 2  isp-gateway.net (10.0.0.1)  5.4 ms  5.1 ms  5.3 ms");
    assert_eq!(hops.len(), 1);
    assert_eq!(hops[0].ttl, 2);
    assert_eq!(hops[0].ip.as_deref(), Some("10.0.0.1"));
    assert_eq!(hops[0].rtt_us, Some(5_400));
    assert_eq!(hops[0].hostname.as_deref(), Some("isp-gateway.net"));
}

#[test]
fn parentheses_around_a_name_give_no_address() {
    let hops = parse_traceroute_output("3 (gw.example) (1.2.3) () 2 ms");
    assert_eq!(hops[0].ip, None);
    assert_eq!(hops[0].rtt_us, Some(2_000));
}

#[test]
fn windows_tracert_output() {
    let out = "\r\nTracing route to google.com [142.250.80.46]\r\n\
over a maximum of 30 hops:\r\n\r\n\
  1     1 ms    <1 ms     1 ms  router.local [192.168.1.1]\r\n\
  2     *        *        *     Request timed out.\r\n\
  3    12 ms    11 ms    12 ms  142.250.80.46\r\n\r\n\
Trace complete.\r\n";
    let hops = parse_traceroute_output(out);
    assert_eq!(hops.len(), 3);
    assert_eq!(hops[0].ttl, 1);
    assert_eq!(hops[0].ip.as_deref(), Some("192.168.1.1"));
    assert_eq!(hops[0].rtt_us, Some(1_000));
    assert_eq!(hops[0].hostname.as_deref(), Some("router.local"));
    assert_eq!((hops[1].ttl, hops[1].ip.clone(), hops[1].rtt_us), (2, None, None));
    assert_eq!(hops[2].ip.as_deref(), Some("142.250.80.46"));
    assert_eq!(hops[2].rtt_us, Some(12_000));
}

#[test]
fn lines_without_a_ttl_are_skipped() {
    assert!(parse_traceroute_output("").is_empty());
    assert!(parse_traceroute_output("hello world\n  \nx 1 2\n").is_empty());
    let hops = parse_traceroute_output("+7 host.example 3ms\n300 a.b 1 ms\n");
    assert_eq!(hops.len(), 1);
    assert_eq!(hops[0].ttl, 7);
    assert_eq!(hops[0].rtt_us, Some(3_000));
}

#[test]
fn first_time_and_last_address_win() {
    let hops = parse_traceroute_output("5 1.1.1.1 2.2.2.2 a.example b.example 4.5ms 6 ms\n");
    assert_eq!(hops.len(), 1);
    assert_eq!(hops[0].ip.as_deref(), Some("2.2.2.2"));
    assert_eq!(hops[0].hostname.as_deref(), Some("b.example"));
    assert_eq!(hops[0].rtt_us, Some(4_500));
}

#[test]
fn bracketed_address_and_repeated_ms_suffix() {
    let hops = parse_traceroute_output("9 [[10.9.8.7]] 2msms\n");
    assert_eq!(hops[0].ip.as_deref(), Some("10.9.8.7"));
    assert_eq!(hops[0].rtt_us, Some(2_000));
}

#[test]
fn only_stars_and_numbers_is_a_lost_probe() {
    let hops = parse_traceroute_output("12 * 3 *\n");
    assert_eq!(hops.len(), 1);
    assert_eq!((hops[0].ttl, hops[0].ip.clone(), hops[0].rtt_us, hops[0].hostname.clone()), (12, None, None, None));
}
