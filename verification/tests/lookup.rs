use meshping::addr::HostAddr;
use meshping::lookup::resolver::{forward_result, reverse_result};
use meshping::output::table::{RttLevel, TableFormatter};

#[test]
fn forward_result_splits_families() {
    let addrs = vec![
        (HostAddr::V4(0x8efa_502e), 3600),
        (HostAddr::V6(1), 300),
        (HostAddr::V4(0x0808_0808), 60),
    ];
    let mx = vec![("smtp.example.com.".to_string(), 1800)];
    let r = forward_result("google.com", &addrs, &mx, 12);
    assert_eq!(r.query, "google.com");
    let a: Vec<(&str, u32)> = r.a_records.iter().map(|d| (d.value.as_str(), d.ttl)).collect();
    assert_eq!(a, vec![("142.250.80.46", 3600), ("8.8.8.8", 60)]);
    assert_eq!(r.aaaa_records.len(), 1);
    assert_eq!(r.aaaa_records[0].value, "::1");
    assert_eq!(r.aaaa_records[0].ttl, 300);
    assert_eq!(r.mx_records[0].value, "smtp.example.com.");
    assert_eq!(r.mx_records[0].ttl, 1800);
    assert!(r.ptr_records.is_empty());
    assert_eq!(r.elapsed_ms, 12);
}

#[test]
fn forward_result_of_nothing_is_empty() {
    let r = forward_result("nowhere.invalid", &[], &[], 0);
    assert!(r.a_records.is_empty() && r.aaaa_records.is_empty());
    assert!(r.mx_records.is_empty() && r.ptr_records.is_empty());
}

#[test]
fn reverse_result_has_only_ptr_records() {
    let names = vec![("dns.google.".to_string(), 86400), ("other.".to_string(), 5)];
    let r = reverse_result("8.8.8.8", &names, 3);
    assert_eq!(r.query, "8.8.8.8");
    assert!(r.a_records.is_empty() && r.aaaa_records.is_empty() && r.mx_records.is_empty());
    let ptr: Vec<(&str, u32)> = r.ptr_records.iter().map(|d| (d.value.as_str(), d.ttl)).collect();
    assert_eq!(ptr, vec![("dns.google.", 86400), ("other.", 5)]);
    assert_eq!(r.elapsed_ms, 3);
}

#[test]
fn rtt_levels() {
    let t = TableFormatter::new();
    assert_eq!(t.rtt_level(12_400), RttLevel::Normal);
    assert_eq!(t.rtt_level(100_000), RttLevel::Normal);
    assert_eq!(t.rtt_level(100_001), RttLevel::Slow);
    assert_eq!(t.rtt_level(500_000), RttLevel::Slow);
    assert_eq!(t.rtt_level(500_001), RttLevel::Critical);
}
