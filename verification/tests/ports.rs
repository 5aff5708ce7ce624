use meshping::scan::ports::{parse_port_range, service_name, top_ports};
use meshping::MeshpingError;

#[test]
fn parse_single_port() {
    let ports = parse_port_range("80").unwrap();
    assert_eq!(ports, vec![80]);
}

#[test]
fn parse_comma_separated() {
    let ports = parse_port_range("80,443,8080").unwrap();
    assert_eq!(ports, vec![80, 443, 8080]);
}

#[test]
fn parse_range() {
    let ports = parse_port_range("1-5").unwrap();
    assert_eq!(ports, vec![1, 2, 3, 4, 5]);
}

#[test]
fn parse_mixed() {
    let ports = parse_port_range("22,80,8000-8002").unwrap();
    assert_eq!(ports, vec![22, 80, 8000, 8001, 8002]);
}

#[test]
fn parse_full_range() {
    let ports = parse_port_range("1-1024").unwrap();
    assert_eq!(ports.len(), 1024);
    assert_eq!(ports[0], 1);
    assert_eq!(ports[1023], 1024);
}

#[test]
fn parse_invalid_range() {
    assert!(parse_port_range("abc").is_err());
}

#[test]
fn parse_reversed_range() {
    assert!(parse_port_range("1024-1").is_err());
}

#[test]
fn service_name_known() {
    assert_eq!(service_name(80), Some("http"));
    assert_eq!(service_name(443), Some("https"));
    assert_eq!(service_name(22), Some("ssh"));
    assert_eq!(service_name(3306), Some("mysql"));
}

#[test]
fn service_name_unknown() {
    assert_eq!(service_name(12345), None);
}

#[test]
fn top_ports_count() {
    let ports = top_ports(10);
    assert_eq!(ports.len(), 10);
}

fn range_error(input: &str) -> String {
    match parse_port_range(input) {
        Err(MeshpingError::InvalidPortRange(m)) => m,
        other => panic!("expected an invalid port range, got {:?}", other),
    }
}

#[test]
fn reversed_range_message_names_both_ends() {
    assert_eq!(range_error("1024-1"), "1024 > 1");
    assert_eq!(range_error("80, 9-3"), "9 > 3");
}

#[test]
fn bad_part_message_is_the_trimmed_part() {
    assert_eq!(range_error("80, abc ,443"), "abc");
    assert_eq!(range_error("1-x"), "1-x");
    assert_eq!(range_error("70000"), "70000");
    assert_eq!(range_error(""), "");
    assert_eq!(range_error("80,"), "");
    assert_eq!(range_error("-5"), "-5");
}

#[test]
fn parts_are_trimmed_and_plus_signs_accepted() {
    assert_eq!(parse_port_range(" 22 ,\t+80 , 8000-8001").unwrap(), vec![22, 80, 8000, 8001]);
    assert_eq!(parse_port_range("65535").unwrap(), vec![65535]);
    assert_eq!(parse_port_range("0").unwrap(), vec![0]);
}

#[test]
fn duplicates_and_order_are_kept() {
    assert_eq!(parse_port_range("443,80,80").unwrap(), vec![443, 80, 80]);
    assert_eq!(parse_port_range("7-7").unwrap(), vec![7]);
}

#[test]
fn comma_joins_port_lists() {
    let a = parse_port_range("22,80").unwrap();
    let b = parse_port_range("8000-8002").unwrap();
    let mut joined = a.clone();
    joined.extend(b);
    assert_eq!(parse_port_range("22,80,8000-8002").unwrap(), joined);
}

#[test]
fn top_ports_are_prefixes_with_known_services() {
    assert_eq!(top_ports(0), Vec::<u16>::new());
    assert_eq!(top_ports(3), vec![21, 22, 23]);
    assert_eq!(top_ports(100).len(), 30);
    assert_eq!(top_ports(100)[29], 27017);
    assert_eq!(top_ports(5), top_ports(8)[..5].to_vec());
    for p in top_ports(30) {
        assert!(service_name(p).is_some(), "port {p} has no service");
    }
}

#[test]
fn all_services() {
    assert_eq!(service_name(20), Some("ftp-data"));
    assert_eq!(service_name(27017), Some("mongodb"));
    assert_eq!(service_name(9200), Some("elasticsearch"));
    assert_eq!(service_name(0), None);
}
