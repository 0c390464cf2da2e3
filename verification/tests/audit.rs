use sentrygrid::audit::{any_exposed, bind_warnings, correlate, Finding, Severity};
use sentrygrid::docker::DockerPort;
use sentrygrid::ip::parse_ip;
use sentrygrid::ss::{BindAddr, Socket};
use sentrygrid::ufw::{parse, UfwState};

fn socket(proto: &'static str, addr: BindAddr, port: u16, process: Option<&str>) -> Socket {
    Socket { proto, addr, port, process: process.map(String::from), pid: None }
}

fn published(container: &str, host_bind: &str, host_port: u16, proto: &str) -> DockerPort {
    DockerPort {
        container: container.to_string(),
        host_bind: host_bind.to_string(),
        host_port,
        proto: proto.to_string(),
    }
}

fn lan(port: u16) -> Socket {
    socket("tcp", BindAddr::Specific(parse_ip("192.168.88.6").unwrap()), port, None)
}

#[test]
fn loopback_is_always_safe_regardless_of_ufw_or_docker() {
    let sockets = vec![socket("tcp", BindAddr::Loopback, 8765, Some("cyberdesk"))];
    let ufw = UfwState::default(); // inactive, nothing allowed
    let findings = correlate(sockets, &ufw, &[]);
    assert_eq!(findings[0].severity, Severity::Safe);
}

#[test]
fn wide_bound_with_no_ufw_rule_is_blocked() {
    let sockets = vec![socket("tcp", BindAddr::Wildcard, 9999, Some("something"))];
    let ufw = parse("Status: active\n");
    let findings = correlate(sockets, &ufw, &[]);
    assert_eq!(findings[0].severity, Severity::Blocked);
}

#[test]
fn wide_bound_with_ufw_allow_is_exposed_allowed() {
    let sockets = vec![socket("tcp", BindAddr::Wildcard, 22, Some("sshd"))];
    let ufw = parse("Status: active\n22/tcp ALLOW IN Anywhere\n");
    let findings = correlate(sockets, &ufw, &[]);
    assert_eq!(findings[0].severity, Severity::ExposedAllowed);
}

#[test]
fn scoped_ufw_rule_is_restricted_not_fully_exposed() {
    // systemd-resolved bound 53/udp to the wildcard address, and the only
    // matching ufw rule (Docker's own DNS rule) is scoped to a specific
    // destination + source, not "open to anywhere."
    let sockets = vec![socket("udp", BindAddr::Wildcard, 53, Some("systemd-resolve"))];
    let ufw = parse(
        "Status: active\n172.17.0.1 53/udp ALLOW IN 172.16.0.0/12 # allow-docker-dns\n172.17.0.1 53/udp ALLOW IN 192.168.0.0/16 # allow-docker-dns\n",
    );
    let findings = correlate(sockets, &ufw, &[]);
    assert_eq!(findings[0].severity, Severity::ExposedRestricted);
    assert!(findings[0].scope_note.as_ref().unwrap().contains("172.17.0.1"));
}

#[test]
fn docker_managed_port_is_exposed_regardless_of_ufw_state() {
    let sockets = vec![socket("tcp", BindAddr::Wildcard, 8200, None)];
    let ufw = UfwState::default(); // inactive
    let docker_ports =
        vec![DockerPort { container: "vault".to_string(), host_bind: "0.0.0.0".to_string(), host_port: 8200, proto: "tcp".to_string() }];
    let findings = correlate(sockets, &ufw, &docker_ports);
    assert_eq!(findings[0].severity, Severity::ExposedDocker);
    assert_eq!(findings[0].docker_container.as_deref(), Some("vault"));
}

#[test]
fn specific_non_loopback_bind_is_treated_like_wildcard() {
    // Binding directly to a LAN interface IP is just as reachable from
    // that network as 0.0.0.0 — shouldn't be silently treated as safe.
    let lan_ip = parse_ip("192.168.88.6").unwrap();
    let sockets = vec![socket("tcp", BindAddr::Specific(lan_ip), 4444, None)];
    let ufw = UfwState::default();
    let findings = correlate(sockets, &ufw, &[]);
    assert_eq!(findings[0].severity, Severity::Blocked); // still correlated, not skipped
}

#[test]
fn loopback_stays_safe_where_the_port_is_open_and_published() {
    let ufw = parse("Status: active\n80/tcp ALLOW IN Anywhere\n");
    let ports = vec![published("web", "0.0.0.0", 80, "tcp")];
    let findings = correlate(vec![socket("tcp", BindAddr::Loopback, 80, None)], &ufw, &ports);
    assert_eq!(findings[0].severity, Severity::Safe);
    assert_eq!(findings[0].docker_container, None);
    assert_eq!(findings[0].scope_note, None);
}

#[test]
fn the_firewall_does_not_change_a_published_finding() {
    let ports = vec![published("web", "0.0.0.0", 80, "tcp")];
    let off = correlate(vec![lan(80)], &UfwState::default(), &ports);
    let on = correlate(vec![lan(80)], &parse("Status: active\n80/tcp ALLOW IN 10.0.0.0/8\n"), &ports);
    for findings in [off, on] {
        assert_eq!(findings[0].severity, Severity::ExposedDocker);
        assert_eq!(findings[0].docker_container.as_deref(), Some("web"));
        assert_eq!(findings[0].scope_note, None);
    }
}

#[test]
fn the_first_publication_of_port_and_protocol_names_the_container() {
    let ports = vec![
        published("other-port", "0.0.0.0", 81, "tcp"),
        published("other-proto", "0.0.0.0", 80, "udp"),
        published("first", "0.0.0.0", 80, "tcp"),
        published("second", "0.0.0.0", 80, "tcp"),
    ];
    let findings = correlate(vec![lan(80), lan(82)], &UfwState::default(), &ports);
    assert_eq!(findings[0].docker_container.as_deref(), Some("first"));
    assert_eq!(findings[1].docker_container, None);
    assert_eq!(findings[1].severity, Severity::Blocked);
}

#[test]
fn findings_are_the_same_whether_the_firewall_is_on_or_off() {
    let on = parse("Status: active\n22/tcp ALLOW IN Anywhere\n");
    let off = parse("Status: inactive\n22/tcp ALLOW IN Anywhere\n");
    assert!(on.active && !off.active);
    assert_eq!(correlate(vec![lan(22)], &on, &[])[0].severity, Severity::ExposedAllowed);
    assert_eq!(correlate(vec![lan(22)], &off, &[])[0].severity, Severity::ExposedAllowed);
}

#[test]
fn a_scope_names_every_source_and_the_first_destination() {
    let ufw = parse(
        "53/udp ALLOW IN 10.0.0.0/8\n172.17.0.1 53/udp ALLOW IN 172.16.0.0/12\n172.17.0.2 53/udp ALLOW IN Anywhere\n",
    );
    let findings = correlate(vec![socket("udp", BindAddr::Wildcard, 53, None)], &ufw, &[]);
    assert_eq!(
        findings[0].scope_note.as_deref(),
        Some("from 10.0.0.0/8, 172.16.0.0/12, Anywhere -> 172.17.0.1 only")
    );
}

#[test]
fn a_scope_without_destination_is_this_host() {
    let ufw = parse("22/tcp ALLOW IN 10.0.0.0/8\n");
    let findings = correlate(vec![lan(22)], &ufw, &[]);
    assert_eq!(findings[0].severity, Severity::ExposedRestricted);
    assert_eq!(findings[0].scope_note.as_deref(), Some("from 10.0.0.0/8 -> this host only"));
}

#[test]
fn one_open_rule_outweighs_scoped_ones() {
    let ufw = parse("22/tcp ALLOW IN 10.0.0.0/8\n22/tcp ALLOW IN Anywhere (v6)\n");
    let findings = correlate(vec![lan(22)], &ufw, &[]);
    assert_eq!(findings[0].severity, Severity::ExposedAllowed);
    assert_eq!(findings[0].scope_note, None);
}

#[test]
fn an_inbound_rule_counts_whatever_its_comment_says() {
    let open = parse("22/tcp ALLOW IN Anywhere # OUTSIDE ssh\n");
    assert_eq!(correlate(vec![lan(22)], &open, &[])[0].severity, Severity::ExposedAllowed);
    let forwarded = parse("22/tcp ALLOW FWD Anywhere\n");
    assert_eq!(correlate(vec![lan(22)], &forwarded, &[])[0].severity, Severity::Blocked);
}

#[test]
fn a_rule_without_a_direction_exposes_its_port_to_a_scope() {
    let ufw = parse("Status: active\n29/tcp ALLOW Anywhere\n");
    let findings = correlate(vec![lan(29)], &ufw, &[]);
    assert_eq!(findings[0].severity, Severity::ExposedRestricted);
    assert_eq!(findings[0].scope_note.as_deref(), Some("from  -> this host only"));
}

#[test]
fn findings_keep_the_sockets_in_order() {
    let sockets = vec![lan(3), socket("udp", BindAddr::Loopback, 1, Some("p")), lan(2)];
    let findings = correlate(sockets, &UfwState::default(), &[]);
    let ports: Vec<u16> = findings.iter().map(|f| f.socket.port).collect();
    assert_eq!(ports, vec![3, 1, 2]);
    assert_eq!(findings[1].socket.process.as_deref(), Some("p"));
    assert!(correlate(vec![], &UfwState::default(), &[]).is_empty());
}

#[test]
fn labels_are_as_documented() {
    assert_eq!(Severity::Safe.label(), "SAFE");
    assert_eq!(Severity::Blocked.label(), "BLOCKED");
    assert_eq!(Severity::ExposedAllowed.label(), "EXPOSED (ufw-allowed)");
    assert_eq!(Severity::ExposedRestricted.label(), "EXPOSED (ufw-scoped)");
    assert_eq!(Severity::ExposedDocker.label(), "EXPOSED (docker bypasses ufw)");
}

#[test]
fn a_bind_mismatch_is_worth_a_warning() {
    let ports = vec![
        published("a", "0.0.0.0", 80, "tcp"),
        published("b", "127.0.0.1", 81, "tcp"),
        published("c", "::", 82, "tcp"),
    ];
    let sockets = vec![
        lan(80),
        socket("tcp", BindAddr::Wildcard, 81, None),
        socket("tcp", BindAddr::Wildcard, 82, None),
        socket("tcp", BindAddr::Loopback, 80, None),
        lan(81),
        lan(99),
    ];
    assert_eq!(
        bind_warnings(&sockets, &ports),
        vec![
            "sentrygrid: warning: port 80 bind mismatch — ss reports Specific(192.168.88.6), docker reports 0.0.0.0",
            "sentrygrid: warning: port 81 bind mismatch — ss reports Wildcard, docker reports 127.0.0.1",
        ]
    );
}

fn with_severity(severity: Severity) -> Finding {
    Finding { socket: lan(1), severity, docker_container: None, scope_note: None }
}

#[test]
fn exposed_is_neither_safe_nor_blocked() {
    assert!(!any_exposed(&[]));
    assert!(!any_exposed(&[with_severity(Severity::Safe), with_severity(Severity::Blocked)]));
    for severity in [Severity::ExposedAllowed, Severity::ExposedRestricted, Severity::ExposedDocker] {
        assert!(any_exposed(&[with_severity(Severity::Safe), with_severity(severity)]));
    }
}
