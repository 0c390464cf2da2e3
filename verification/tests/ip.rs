use sentrygrid::ip::{parse_ip, IpAddr};

fn shown(s: &str) -> Option<String> {
    parse_ip(s).map(|ip| ip.text())
}

#[test]
fn v4_addresses_are_read_and_shown() {
    assert_eq!(parse_ip("192.168.88.6"), Some(IpAddr::V4([192, 168, 88, 6])));
    assert_eq!(shown("0.0.0.0").as_deref(), Some("0.0.0.0"));
    assert_eq!(shown("255.10.9.100").as_deref(), Some("255.10.9.100"));
}

#[test]
fn malformed_v4_addresses_are_refused() {
    for s in ["1.2.3", "1.2.3.4.5", "1.2.3.256", "01.2.3.4", "1.2.3.", "1..2.3", "+1.2.3.4", "1.2.3.4 ", "1.2.3.0004"] {
        assert_eq!(parse_ip(s), None, "{s}");
    }
}

#[test]
fn v6_addresses_are_read() {
    assert_eq!(parse_ip("1:2:3:4:5:6:7:8"), Some(IpAddr::V6([1, 2, 3, 4, 5, 6, 7, 8])));
    assert_eq!(parse_ip("::"), Some(IpAddr::V6([0; 8])));
    assert_eq!(parse_ip("FE80::aBcD"), Some(IpAddr::V6([0xfe80, 0, 0, 0, 0, 0, 0, 0xabcd])));
    assert_eq!(parse_ip("1:2:3:4:5:6:7::"), Some(IpAddr::V6([1, 2, 3, 4, 5, 6, 7, 0])));
    assert_eq!(parse_ip("::2:3:4:5:6:7:8"), Some(IpAddr::V6([0, 2, 3, 4, 5, 6, 7, 8])));
    assert_eq!(parse_ip("1:2:3:4:5:6:1.2.3.4"), Some(IpAddr::V6([1, 2, 3, 4, 5, 6, 0x102, 0x304])));
    assert_eq!(parse_ip("64:ff9b::10.0.0.1"), Some(IpAddr::V6([0x64, 0xff9b, 0, 0, 0, 0, 0xa00, 1])));
}

#[test]
fn malformed_v6_addresses_are_refused() {
    for s in [
        "", ":", ":::", "1", "1:2:3:4:5:6:7", "1:2:3:4:5:6:7:8:9", "1:2:3:4::5:6:7:8", "1::2::3",
        "12345::", "g::", "::1.2.3", "1.2.3.4::", "1:2:3:4:5:6:7:1.2.3.4", ":1::2", "1::2:", "fe80::1%eth0", "[::1]",
    ] {
        assert_eq!(parse_ip(s), None, "{s}");
    }
}

#[test]
fn v6_addresses_are_shown_with_the_first_longest_zeros_left_out() {
    assert_eq!(shown("0:0:0:0:0:0:0:0").as_deref(), Some("::"));
    assert_eq!(shown("0:0:0:0:0:0:0:1").as_deref(), Some("::1"));
    assert_eq!(shown("1:0:0:0:0:0:0:0").as_deref(), Some("1::"));
    assert_eq!(shown("1:0:0:2:0:0:0:3").as_deref(), Some("1:0:0:2::3"));
    assert_eq!(shown("1:0:0:2:3:0:0:4").as_deref(), Some("1::2:3:0:0:4"));
    assert_eq!(shown("1:0:2:3:4:5:6:7").as_deref(), Some("1:0:2:3:4:5:6:7"));
    assert_eq!(shown("2001:DB8::ABCD:0:0:12").as_deref(), Some("2001:db8::abcd:0:0:12"));
}

#[test]
fn a_v4_address_in_a_v6_address_is_shown_as_one() {
    assert_eq!(shown("::ffff:7f00:1").as_deref(), Some("::ffff:127.0.0.1"));
    assert_eq!(shown("::ffff:192.168.0.255").as_deref(), Some("::ffff:192.168.0.255"));
    assert_eq!(shown("::1.2.3.4").as_deref(), Some("::102:304"));
}

#[test]
fn what_is_shown_reads_as_the_same_address() {
    for s in ["10.0.0.1", "::", "::1", "1::", "fe80::1:0:0:1", "::ffff:1.2.3.4", "1:2:3:4:5:6:7:8", "0:1:0:1:0:1:0:1"] {
        let ip = parse_ip(s).unwrap();
        assert_eq!(parse_ip(&ip.text()), Some(ip), "{s}");
    }
}
