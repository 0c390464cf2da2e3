use sentrygrid::docker::{parse_ports_field, parse_published};

#[test]
fn parses_single_v4_and_v6_mapping() {
    let ports = parse_ports_field("vault", "0.0.0.0:8200->8200/tcp, [::]:8200->8200/tcp");
    assert_eq!(ports.len(), 2);
    assert_eq!(ports[0].host_bind, "0.0.0.0");
    assert_eq!(ports[0].host_port, 8200);
    assert_eq!(ports[1].host_bind, "::");
}

#[test]
fn parses_multiple_distinct_ports() {
    let ports = parse_ports_field("haproxy", "0.0.0.0:8081->8081/tcp, [::]:8081->8081/tcp, 0.0.0.0:8404->8404/tcp, [::]:8404->8404/tcp");
    let host_ports: Vec<u16> = ports.iter().map(|p| p.host_port).collect();
    assert!(host_ports.contains(&8081));
    assert!(host_ports.contains(&8404));
}

#[test]
fn ignores_unpublished_internal_ports() {
    // real deploy-caddy-1 line: internal-only entries mixed with one real publish
    let ports = parse_ports_field("deploy-caddy-1", "443/tcp, 2019/tcp, 443/udp, 127.0.0.1:8880->80/tcp");
    assert_eq!(ports.len(), 1);
    assert_eq!(ports[0].host_bind, "127.0.0.1");
    assert_eq!(ports[0].host_port, 8880);
}

#[test]
fn loopback_bound_container_port_parses_correctly() {
    let ports = parse_ports_field("dev_postgres", "127.0.0.1:5433->5432/tcp");
    assert_eq!(ports[0].host_bind, "127.0.0.1");
    assert_eq!(ports[0].host_port, 5433);
}

#[test]
fn every_publication_carries_its_container_and_protocol() {
    let ports = parse_ports_field("dns", " 10.0.0.1:53->5353/udp ,[fe80::A]:1053->53/tcp");
    assert_eq!(ports.len(), 2);
    assert_eq!(ports[0].container, "dns");
    assert_eq!(ports[0].proto, "udp");
    assert_eq!(ports[0].host_bind, "10.0.0.1");
    assert_eq!(ports[0].host_port, 53);
    assert_eq!(ports[1].container, "dns");
    assert_eq!(ports[1].proto, "tcp");
    assert_eq!(ports[1].host_bind, "fe80::A");
    assert_eq!(ports[1].host_port, 1053);
}

#[test]
fn entries_of_another_form_are_left_out() {
    assert!(parse_ports_field("x", "").is_empty());
    assert!(parse_ports_field("x", "0.0.0.0:80->80/sctp").is_empty());
    assert!(parse_ports_field("x", "0.0.0.0:80-81->80-81/tcp").is_empty());
    assert!(parse_ports_field("x", "[]:80->80/tcp").is_empty());
    assert!(parse_ports_field("x", "80->80/tcp").is_empty());
}

#[test]
fn a_publication_is_read_where_it_first_can_be() {
    let ports = parse_ports_field("x", "host 1.2.3.4:80->80/tcp 5.6.7.8:90->90/udp");
    assert_eq!(ports.len(), 1);
    assert_eq!(ports[0].host_bind, "1.2.3.4");
    assert_eq!(ports[0].host_port, 80);
    assert_eq!(ports[0].proto, "tcp");
}

#[test]
fn a_host_port_that_is_no_number_of_its_range_counts_as_zero() {
    assert_eq!(parse_ports_field("x", "1.2.3.4:65535->80/tcp")[0].host_port, 65535);
    assert_eq!(parse_ports_field("x", "1.2.3.4:65536->80/tcp")[0].host_port, 0);
    assert_eq!(parse_ports_field("x", "1.2.3.4:\u{0668}\u{0660}->80/tcp")[0].host_port, 0);
}

#[test]
fn each_line_names_its_container_before_the_tab() {
    let text = "web\t0.0.0.0:80->80/tcp, 443/tcp\nidle\t\nno tab 0.0.0.0:1->1/tcp\r\ndb\t127.0.0.1:5432->5432/tcp\t[::1]:1->1/udp\r\n";
    let ports = parse_published(text);
    let listed: Vec<(&str, &str, u16)> =
        ports.iter().map(|p| (p.container.as_str(), p.host_bind.as_str(), p.host_port)).collect();
    assert_eq!(listed, vec![("web", "0.0.0.0", 80), ("db", "127.0.0.1", 5432)]);
    assert!(parse_published("").is_empty());
}

#[test]
fn an_output_in_two_parts_has_the_publications_of_both() {
    let first = "a\t1.1.1.1:1->1/tcp\n";
    let second = "b\t2.2.2.2:2->2/udp\n";
    let both = parse_published(&format!("{first}{second}"));
    let names: Vec<&str> = both.iter().map(|p| p.container.as_str()).collect();
    assert_eq!(names, vec!["a", "b"]);
    assert_eq!(parse_published(first).len(), 1);
    assert_eq!(parse_published(second).len(), 1);
}
