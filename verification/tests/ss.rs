use sentrygrid::ip::{parse_ip, IpAddr};
use sentrygrid::ss::{
    classify, parse_lines, parse_sockets, parse_udp_lines, split_addr_port, BindAddr,
};

// Real `ss -tlnp` output, verbatim.
const REAL_TCP_SAMPLE: &str = "State      Recv-Q Send-Q   Local Address:Port      Peer Address:Port  Process
LISTEN     0      128        127.0.0.1:45636      0.0.0.0:*    users:((\"wraithflow\",pid=405129,fd=12))
LISTEN     0      128          0.0.0.0:22         0.0.0.0:*
LISTEN     0      128                *:80               *:*    users:((\"caddy\",pid=860,fd=9))
LISTEN     0      4096      127.0.0.54:53         0.0.0.0:*
LISTEN     0      4096            [::]:8404          [::]:*    users:((\"docker-proxy\",pid=2612,fd=7))
LISTEN     0      128             [::]:22            [::]:*
";

#[test]
fn parses_loopback_bound_socket() {
    let sockets = parse_lines(REAL_TCP_SAMPLE, "tcp");
    let s = sockets.iter().find(|s| s.port == 45636).expect("port 45636 present");
    assert_eq!(s.addr, BindAddr::Loopback);
    assert_eq!(s.process.as_deref(), Some("wraithflow"));
    assert_eq!(s.pid, Some(405129));
}

#[test]
fn parses_explicit_v4_wildcard() {
    let sockets = parse_lines(REAL_TCP_SAMPLE, "tcp");
    let s = sockets.iter().find(|s| s.port == 22 && s.addr == BindAddr::Wildcard);
    assert!(s.is_some(), "0.0.0.0:22 should classify as Wildcard");
}

#[test]
fn parses_star_shorthand_wildcard() {
    let sockets = parse_lines(REAL_TCP_SAMPLE, "tcp");
    let s = sockets.iter().find(|s| s.port == 80).expect("port 80 present");
    assert_eq!(s.addr, BindAddr::Wildcard);
    assert_eq!(s.process.as_deref(), Some("caddy"));
}

#[test]
fn classifies_127_range_not_just_exact_localhost() {
    let sockets = parse_lines(REAL_TCP_SAMPLE, "tcp");
    let s = sockets.iter().find(|s| s.port == 53).expect("port 53 present");
    assert_eq!(s.addr, BindAddr::Loopback, "127.0.0.54 is loopback range, not just 127.0.0.1");
}

#[test]
fn parses_bracketed_ipv6_wildcard_with_process() {
    let sockets = parse_lines(REAL_TCP_SAMPLE, "tcp");
    let s = sockets.iter().find(|s| s.port == 8404).expect("port 8404 present");
    assert_eq!(s.addr, BindAddr::Wildcard);
    assert_eq!(s.process.as_deref(), Some("docker-proxy"));
}

#[test]
fn ignores_header_row() {
    let sockets = parse_lines(REAL_TCP_SAMPLE, "tcp");
    // 6 LISTEN lines in the sample -> exactly 6 parsed, header not counted
    assert_eq!(sockets.len(), 6);
}

#[test]
fn an_endpoint_splits_with_and_without_brackets() {
    assert_eq!(split_addr_port("[::]:8404"), Some(("::", "8404")));
    assert_eq!(split_addr_port("[fe80::1]:*"), Some(("fe80::1", "*")));
    assert_eq!(split_addr_port("127.0.0.1:45636"), Some(("127.0.0.1", "45636")));
    assert_eq!(split_addr_port("*:80"), Some(("*", "80")));
    assert_eq!(split_addr_port("::1:80"), Some(("::1", "80")));
    assert_eq!(split_addr_port(":80"), Some(("", "80")));
    assert_eq!(split_addr_port("[]:80"), Some(("", "80")));
}

#[test]
fn an_endpoint_without_its_marks_does_not_split() {
    assert_eq!(split_addr_port(""), None);
    assert_eq!(split_addr_port("80"), None);
    assert_eq!(split_addr_port("[::1"), None);
    assert_eq!(split_addr_port("[::1]"), None);
    assert_eq!(split_addr_port("[::1]80"), None);
    assert_eq!(split_addr_port("["), None);
}

#[test]
fn addresses_bind_as_themselves() {
    assert_eq!(classify("*"), BindAddr::Wildcard);
    assert_eq!(classify("0.0.0.0"), BindAddr::Wildcard);
    assert_eq!(classify("::"), BindAddr::Wildcard);
    assert_eq!(classify("127.255.255.254"), BindAddr::Loopback);
    assert_eq!(classify("::1"), BindAddr::Loopback);
    assert_eq!(classify("0:0:0:0:0:0:0:1"), BindAddr::Loopback);
    assert_eq!(classify("128.0.0.1"), BindAddr::Specific(IpAddr::V4([128, 0, 0, 1])));
    assert_eq!(classify("fe80::1"), BindAddr::Specific(IpAddr::V6([0xfe80, 0, 0, 0, 0, 0, 0, 1])));
}

#[test]
fn only_the_usual_spellings_of_every_interface_count() {
    assert_eq!(classify("0:0:0:0:0:0:0:0"), BindAddr::Specific(IpAddr::V6([0; 8])));
    assert_eq!(
        classify("::ffff:127.0.0.1"),
        BindAddr::Specific(IpAddr::V6([0, 0, 0, 0, 0, 0xffff, 0x7f00, 1]))
    );
}

#[test]
fn an_address_that_is_not_recognized_is_flagged_as_wide() {
    assert_eq!(classify("127.0.0.53%lo"), BindAddr::Wildcard);
    assert_eq!(classify("localhost"), BindAddr::Wildcard);
    assert_eq!(classify(""), BindAddr::Wildcard);
    assert_eq!(classify("127.0.0.01"), BindAddr::Wildcard);
}

#[test]
fn a_line_needs_its_state_four_words_and_a_port() {
    assert!(parse_lines("ESTAB 0 0 1.2.3.4:80 *:*\n", "tcp").is_empty());
    assert!(parse_lines("LISTEN 0 128\n", "tcp").is_empty());
    assert!(parse_lines("LISTEN 0 128 nowhere *:*\n", "tcp").is_empty());
    assert!(parse_lines("LISTEN 0 128 1.2.3.4:http *:*\n", "tcp").is_empty());
    assert!(parse_lines("LISTEN 0 128 1.2.3.4:65536 *:*\n", "tcp").is_empty());
    assert!(parse_lines("LISTEN 0 128 1.2.3.4: *:*\n", "tcp").is_empty());
    let sockets = parse_lines("  LISTENING\t0 128 1.2.3.4:+65535", "tcp");
    assert_eq!(sockets.len(), 1);
    assert_eq!(sockets[0].port, 65535);
}

#[test]
fn a_process_is_the_first_one_that_the_line_names() {
    let line = "LISTEN 0 1 *:1 *:* users:((\"\",pid=1),(\"a b\",pid=2,fd=3)) users:((\"c\",pid=4))";
    let s = &parse_lines(line, "tcp")[0];
    assert_eq!(s.process.as_deref(), Some("c"));
    assert_eq!(s.pid, Some(4));
    let none = &parse_lines("LISTEN 0 1 *:1 *:* users:((\"x\",fd=3))", "tcp")[0];
    assert_eq!(none.process, None);
    assert_eq!(none.pid, None);
}

#[test]
fn a_process_number_out_of_range_is_left_out() {
    let fits = &parse_lines("LISTEN 0 1 *:1 *:* users:((\"x\",pid=4294967295))", "tcp")[0];
    assert_eq!(fits.pid, Some(4294967295));
    let large = &parse_lines("LISTEN 0 1 *:1 *:* users:((\"x\",pid=4294967296))", "tcp")[0];
    assert_eq!(large.process.as_deref(), Some("x"));
    assert_eq!(large.pid, None);
    let foreign = &parse_lines("LISTEN 0 1 *:1 *:* users:((\"x\",pid=\u{0663}))", "tcp")[0];
    assert_eq!(foreign.process.as_deref(), Some("x"));
    assert_eq!(foreign.pid, None);
}

#[test]
fn datagram_sockets_are_the_unconnected_ones() {
    let text = "State  Recv-Q Send-Q Local Address:Port Peer Address:Port Process
UNCONN 0      0      127.0.0.53%lo:53   0.0.0.0:*
UNCONN 0      0      [fe80::2]:546      [::]:*    users:((\"networkd\",pid=7,fd=1))
LISTEN 0      0      0.0.0.0:99         0.0.0.0:*
";
    let sockets = parse_udp_lines(text);
    assert_eq!(sockets.len(), 2);
    assert_eq!(sockets[0].proto, "udp");
    assert_eq!(sockets[0].addr, BindAddr::Wildcard);
    assert_eq!(sockets[0].port, 53);
    assert_eq!(sockets[1].addr, BindAddr::Specific(parse_ip("fe80::2").unwrap()));
    assert_eq!(sockets[1].process.as_deref(), Some("networkd"));
    assert_eq!(sockets[1].pid, Some(7));
}

#[test]
fn stream_sockets_come_before_datagram_sockets() {
    let sockets = parse_sockets("LISTEN 0 1 *:80 *:*\r\n", "UNCONN 0 0 *:53 *:*\nLISTEN 0 1 *:81 *:*\n");
    let listed: Vec<(&str, u16)> = sockets.iter().map(|s| (s.proto, s.port)).collect();
    assert_eq!(listed, vec![("tcp", 80), ("udp", 53)]);
}

#[test]
fn an_output_in_two_parts_has_the_sockets_of_both() {
    let first = "LISTEN 0 1 *:80 *:*\n";
    let second = "LISTEN 0 1 [::1]:443 *:*\n";
    let both = parse_lines(&format!("{first}{second}"), "tcp");
    let ports: Vec<u16> = both.iter().map(|s| s.port).collect();
    assert_eq!(ports, vec![80, 443]);
    assert_eq!(parse_lines(first, "tcp")[0].port, 80);
    assert_eq!(parse_lines(second, "tcp")[0].port, 443);
}
