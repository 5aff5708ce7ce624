use meshping::addr::HostAddr;
use meshping::discover::subnet::{cidr_to_hosts, network_hosts};
use meshping::discover::{host_info, named_host, sort_hosts, HostInfo};
use meshping::ping::PingReply;
use meshping::MeshpingError;

#[test]
fn cidr_24_gives_254_hosts() {
    let hosts = cidr_to_hosts("192.168.1.0/24").unwrap();
    assert_eq!(hosts.len(), 254);
    assert_eq!(hosts[0].to_string(), "192.168.1.1");
    assert_eq!(hosts[253].to_string(), "192.168.1.254");
}

#[test]
fn cidr_32_gives_1_host() {
    let hosts = cidr_to_hosts("10.0.0.1/32").unwrap();
    assert_eq!(hosts.len(), 1);
    assert_eq!(hosts[0].to_string(), "10.0.0.1");
}

#[test]
fn cidr_30_gives_2_hosts() {
    let hosts = cidr_to_hosts("10.0.0.0/30").unwrap();
    assert_eq!(hosts.len(), 2);
}

#[test]
fn invalid_cidr() {
    assert!(cidr_to_hosts("not-a-cidr").is_err());
}

#[test]
fn invalid_cidr_names_the_text() {
    match cidr_to_hosts("10.0.0.0/33") {
        Err(MeshpingError::InvalidCidr(t)) => assert_eq!(t, "10.0.0.0/33"),
        other => panic!("expected InvalidCidr, got {:?}", other),
    }
}

#[test]
fn block_starts_at_network_address() {
    let hosts = cidr_to_hosts("10.1.9.32/16").unwrap();
    assert_eq!(hosts.len(), 65534);
    assert_eq!(hosts[0].to_string(), "10.1.0.1");
    assert_eq!(hosts[65533].to_string(), "10.1.255.254");
}

#[test]
fn cidr_31_keeps_both_addresses() {
    let hosts = cidr_to_hosts("10.0.0.5/31").unwrap();
    assert_eq!(hosts, vec![HostAddr::V4(0x0a00_0004), HostAddr::V4(0x0a00_0005)]);
}

#[test]
fn bare_address_is_a_single_host() {
    let hosts = cidr_to_hosts("172.16.0.9").unwrap();
    assert_eq!(hosts, vec![HostAddr::V4(0xac10_0009)]);
}

#[test]
fn ipv6_blocks() {
    let hosts = cidr_to_hosts("2001:db8::/126").unwrap();
    assert_eq!(hosts.len(), 2);
    assert_eq!(hosts[0].to_string(), "2001:db8::1");
    assert_eq!(hosts[1].to_string(), "2001:db8::2");
    let hosts = network_hosts(HostAddr::V6(0x2001_0db8_0000_0000_0000_0000_0000_0007), 128);
    assert_eq!(hosts, vec![HostAddr::V6(0x2001_0db8_0000_0000_0000_0000_0000_0007)]);
}

#[test]
fn ipv6_127_has_no_hosts() {
    let hosts = cidr_to_hosts("2001:db8::/127").unwrap();
    assert!(hosts.is_empty());
}

#[test]
fn ipv6_120_drops_both_edges() {
    let hosts = cidr_to_hosts("2001:db8::1:0/120").unwrap();
    assert_eq!(hosts.len(), 254);
    assert_eq!(hosts[0].to_string(), "2001:db8::1:1");
    assert_eq!(hosts[253].to_string(), "2001:db8::1:fe");
}

#[test]
fn sweep_finds_answering_hosts_in_address_order() {
    let probes = vec![
        (HostAddr::V6(1), PingReply::Reply { rtt_us: 900 }),
        (HostAddr::V4(0x0a00_0003), PingReply::Reply { rtt_us: 1200 }),
        (HostAddr::V4(0x0a00_0002), PingReply::Timeout),
        (HostAddr::V4(0x0a00_0001), PingReply::Reply { rtt_us: 800 }),
        (HostAddr::V4(0x0a00_0004), PingReply::Error("boom".to_string())),
    ];
    let live: Vec<HostInfo> = probes.iter().filter_map(|(a, r)| host_info(*a, r)).collect();
    assert_eq!(live.len(), 3);
    let sorted = sort_hosts(live);
    let order: Vec<String> = sorted.iter().map(|h| h.ip.to_string()).collect();
    assert_eq!(order, vec!["10.0.0.1", "10.0.0.3", "::1"]);
    assert_eq!(sorted[0].rtt_us, 800);
    assert!(sorted[0].hostname.is_none());
}

#[test]
fn live_host_takes_its_first_ptr_name() {
    let h = host_info(HostAddr::V4(0xc0a8_0101), &PingReply::Reply { rtt_us: 1_200 }).unwrap();
    let names = vec!["router.local.".to_string(), "other.local.".to_string()];
    let h = named_host(h, &names);
    assert_eq!(h.hostname.as_deref(), Some("router.local"));
    assert_eq!(h.ip, HostAddr::V4(0xc0a8_0101));
    assert_eq!(h.rtt_us, 1_200);
}

#[test]
fn live_host_without_ptr_has_no_name() {
    let h = host_info(HostAddr::V4(7), &PingReply::Reply { rtt_us: 5 }).unwrap();
    let h = named_host(h, &[]);
    assert!(h.hostname.is_none());
    let h = named_host(h, &["phone.local".to_string()]);
    assert_eq!(h.hostname.as_deref(), Some("phone.local"));
}
