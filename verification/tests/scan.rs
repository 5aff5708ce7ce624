use meshping::scan::service::clean_banner;
use meshping::scan::tcp_connect::{port_result, sort_port_results};
use meshping::scan::{PortResult, PortState, ScanResult};

#[test]
fn open_port_takes_banner_or_known_service() {
    let r = port_result(22, true, Some("SSH-2.0-OpenSSH".to_string()));
    assert_eq!(r.state, PortState::Open);
    assert_eq!(r.service.as_deref(), Some("SSH-2.0-OpenSSH"));
    let r = port_result(443, true, None);
    assert_eq!(r.service.as_deref(), Some("https"));
    let r = port_result(12345, true, None);
    assert_eq!((r.state, r.service), (PortState::Open, None));
}

#[test]
fn closed_port_has_no_service() {
    let r = port_result(80, false, Some("ignored".to_string()));
    assert_eq!(r.port, 80);
    assert_eq!(r.state, PortState::Closed);
    assert_eq!(r.service, None);
}

#[test]
fn results_sorted_by_port() {
    let results = vec![
        port_result(443, true, None),
        port_result(22, false, None),
        port_result(80, true, None),
        port_result(22, true, None),
    ];
    let sorted = sort_port_results(results);
    let ports: Vec<u16> = sorted.iter().map(|r| r.port).collect();
    assert_eq!(ports, vec![22, 22, 80, 443]);
    assert_eq!(sorted[0].state, PortState::Closed);
    assert_eq!(sorted[1].state, PortState::Open);
}

#[test]
fn open_and_closed_counts() {
    let ports: Vec<PortResult> = vec![
        port_result(22, true, None),
        port_result(23, false, None),
        port_result(80, true, None),
        port_result(81, false, None),
        port_result(82, false, None),
    ];
    let scan = ScanResult { host: "h".to_string(), ip: "1.2.3.4".to_string(), ports, elapsed_ms: 3200 };
    assert_eq!(scan.open_count(), 2);
    assert_eq!(scan.closed_count(), 3);
    assert!(scan.ports[0].is_open());
    assert!(!scan.ports[1].is_open());
}

#[test]
fn banners() {
    assert_eq!(clean_banner(b"SSH-2.0-OpenSSH_9.6\r\n").as_deref(), Some("SSH-2.0-OpenSSH_9.6"));
    assert_eq!(clean_banner(b"  \r\n\t "), None);
    assert_eq!(clean_banner(b""), None);
    assert_eq!(clean_banner(b"\x00\x01ab\xffc\x7f d\x0b"), Some("abc d".to_string()));
    let long = vec![b'x'; 300];
    assert_eq!(clean_banner(&long).unwrap().len(), 64);
    assert_eq!(clean_banner("220 \u{e9}t\u{e9} ready".as_bytes()).as_deref(), Some("220 t ready"));
}

#[test]
fn banner_agrees_with_lossy_decoding() {
    let samples: Vec<&[u8]> = vec![b"\xe2\x82hi\xc3(", b"\xf0\x9f\x98\x80 ok \xed\xa0\x80x", b"abc"];
    for s in samples {
        let lossy = String::from_utf8_lossy(s);
        let expected: String = lossy
            .chars()
            .filter(|c| c.is_ascii_graphic() || c.is_ascii_whitespace())
            .take(64)
            .collect();
        let expected = expected.trim();
        let expected = if expected.is_empty() { None } else { Some(expected.to_string()) };
        assert_eq!(clean_banner(s), expected);
    }
}
