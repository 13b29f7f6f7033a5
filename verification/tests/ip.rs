use tango_bridge::ip::{is_lan_candidate_ip, parse_ip, IpAddress};

#[test]
fn dotted_addresses_are_read() {
    assert_eq!(parse_ip("0.0.0.0"), Some(IpAddress::V4([0, 0, 0, 0])));
    assert_eq!(parse_ip("192.168.1.254"), Some(IpAddress::V4([192, 168, 1, 254])));
    assert_eq!(parse_ip("255.255.255.255"), Some(IpAddress::V4([255, 255, 255, 255])));
    for a in 0..=255u8 {
        let text = format!("{}.{}.{}.{}", a, 255 - a, a / 2, 7);
        assert_eq!(parse_ip(&text), Some(IpAddress::V4([a, 255 - a, a / 2, 7])));
    }
}

#[test]
fn bad_dotted_addresses_are_refused() {
    for text in [
        "", "1", "1.2.3", "1.2.3.4.5", "256.1.1.1", "1.1.1.1000", "01.2.3.4", "1.2.3.00", "1.2.3.4 ", " 1.2.3.4",
        "1..2.3", "a.b.c.d", "+1.2.3.4", "1.2.3.-4", "1.2.3.4:80", "localhost",
    ] {
        assert_eq!(parse_ip(text), None, "{}", text);
    }
}

#[test]
fn groups_are_read() {
    assert_eq!(parse_ip("1:2:3:4:5:6:7:8"), Some(IpAddress::V6([1, 2, 3, 4, 5, 6, 7, 8])));
    assert_eq!(parse_ip("::"), Some(IpAddress::V6([0; 8])));
    assert_eq!(parse_ip("::1"), Some(IpAddress::V6([0, 0, 0, 0, 0, 0, 0, 1])));
    assert_eq!(parse_ip("1::"), Some(IpAddress::V6([1, 0, 0, 0, 0, 0, 0, 0])));
    assert_eq!(parse_ip("FE80::aBcD"), Some(IpAddress::V6([0xfe80, 0, 0, 0, 0, 0, 0, 0xabcd])));
    assert_eq!(parse_ip("1:2:3:4:5:6:7::"), Some(IpAddress::V6([1, 2, 3, 4, 5, 6, 7, 0])));
    assert_eq!(parse_ip("::2:3:4:5:6:7:8"), Some(IpAddress::V6([0, 2, 3, 4, 5, 6, 7, 8])));
    assert_eq!(parse_ip("::ffff:192.168.0.1"), Some(IpAddress::V6([0, 0, 0, 0, 0, 0xffff, 0xc0a8, 1])));
    assert_eq!(parse_ip("1:2:3:4:5:6:1.2.3.4"), Some(IpAddress::V6([1, 2, 3, 4, 5, 6, 0x102, 0x304])));
    assert_eq!(parse_ip("0001:0:0:0:0:0:0:0"), Some(IpAddress::V6([1, 0, 0, 0, 0, 0, 0, 0])));
}

#[test]
fn bad_groups_are_refused() {
    for text in [
        ":", ":::", "1:2:3:4:5:6:7", "1:2:3:4:5:6:7:8:9", "1:2:3:4:5:6:7:8::", "::1:2:3:4:5:6:7:8", "1::2::3",
        "12345::", "g::", "fe80::1%eth0", "[::1]", "1.2.3.4::", "::1.2.3", "::1.2.3.4:5", "1:2:3:4:5:6:7:1.2.3.4",
        ":1:2:3:4:5:6:7:8", "1:2:3:4:5:6:7:8:",
    ] {
        assert_eq!(parse_ip(text), None, "{}", text);
    }
}

#[test]
fn local_networks_are_told_apart() {
    for text in [
        "10.0.0.0", "10.255.255.255", "172.16.0.0", "172.31.255.255", "192.168.0.0", "192.168.255.255", "127.0.0.1",
        "127.255.0.3", "169.254.0.1", "::1", "fe80::", "fe80::1", "febf:ffff::1", "0:0:0:0:0:0:0:1",
    ] {
        assert!(is_lan_candidate_ip(text), "{}", text);
    }
    for text in [
        "9.255.255.255", "11.0.0.0", "172.15.255.255", "172.32.0.0", "192.167.1.1", "192.169.1.1", "126.0.0.1",
        "128.0.0.1", "169.253.1.1", "169.255.1.1", "8.8.8.8", "::", "::2", "fe7f::1", "fec0::1", "fc00::1",
        "::ffff:10.0.0.1", "", "phone.local",
    ] {
        assert!(!is_lan_candidate_ip(text), "{}", text);
    }
}
