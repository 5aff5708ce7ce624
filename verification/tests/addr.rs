use meshping::addr::HostAddr;

fn v6(segments: [u16; 8]) -> HostAddr {
    let mut v: u128 = 0;
    for s in segments {
        v = (v << 16) | s as u128;
    }
    HostAddr::V6(v)
}

#[test]
fn ipv4_text() {
    assert_eq!(HostAddr::V4(0).to_string(), "0.0.0.0");
    assert_eq!(HostAddr::V4(0xc0a8_0101).to_string(), "192.168.1.1");
    assert_eq!(HostAddr::V4(u32::MAX).to_string(), "255.255.255.255");
    assert_eq!(HostAddr::V4(0x0a00_1000).to_string(), "10.0.16.0");
    assert_eq!(HostAddr::V4(0x7f00_0001).to_string(), "127.0.0.1");
}

#[test]
fn ipv6_text_rfc5952() {
    let cases: [([u16; 8], &str); 11] = [
        ([0, 0, 0, 0, 0, 0, 0, 0], "::"),
        ([0, 0, 0, 0, 0, 0, 0, 1], "::1"),
        ([1, 0, 0, 0, 0, 0, 0, 0], "1::"),
        ([0x2001, 0xdb8, 0, 0, 0, 0, 0, 1], "2001:db8::1"),
        ([0x2001, 0xdb8, 0, 0, 1, 0, 0, 1], "2001:db8::1:0:0:1"),
        ([0x2001, 0, 0, 1, 0, 0, 0, 1], "2001:0:0:1::1"),
        ([1, 0, 3, 4, 5, 6, 7, 8], "1:0:3:4:5:6:7:8"),
        ([0, 0, 0, 0, 0, 0xffff, 0xc0a8, 0x0101], "::ffff:192.168.1.1"),
        ([0, 0, 0, 0, 0, 0, 0x0102, 0x0304], "::102:304"),
        ([0xfe80, 0, 0, 0, 0xabcd, 0xef, 0x1, 0xffff], "fe80::abcd:ef:1:ffff"),
        ([1, 2, 3, 4, 5, 6, 7, 8], "1:2:3:4:5:6:7:8"),
    ];
    for (segments, text) in cases {
        assert_eq!(v6(segments).to_string(), text);
    }
}
