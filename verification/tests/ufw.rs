use sentrygrid::ufw::{parse, Rule, UfwState};

// Real `ufw status verbose` output, verbatim.
const REAL_SAMPLE: &str = "Status: active
Logging: on (low)
Default: deny (incoming), allow (outgoing), deny (routed)
New profiles: skip

To                         Action      From
--                         ------      ----
53317/udp                  ALLOW IN    Anywhere
53317/tcp                  ALLOW IN    Anywhere
172.17.0.1 53/udp          ALLOW IN    172.16.0.0/12              # allow-docker-dns
172.17.0.1 53/udp          ALLOW IN    192.168.0.0/16             # allow-docker-dns
22/tcp                     ALLOW IN    Anywhere                   # ssh - key-only auth enforced
53317/udp (v6)              ALLOW IN    Anywhere (v6)
53317/tcp (v6)              ALLOW IN    Anywhere (v6)
22/tcp (v6)                ALLOW IN    Anywhere (v6)              # ssh - key-only auth enforced
";

#[test]
fn detects_active_status() {
    assert!(parse(REAL_SAMPLE).active);
}

#[test]
fn detects_inactive_status() {
    assert!(!parse("Status: inactive\n").active);
}

#[test]
fn ssh_port_is_fully_open() {
    let state = parse(REAL_SAMPLE);
    assert!(state.allows(22, "tcp"));
}

#[test]
fn docker_dns_rule_is_restricted_not_fully_open() {
    // This rule matches port 53/udp, but it's scoped to a specific
    // destination and specific sources: it must not be reported as "port
    // 53/udp is open to anywhere."
    let state = parse(REAL_SAMPLE);
    assert!(!state.allows(53, "udp"), "docker-dns rule is scoped, must not count as fully open");
    let restricted = state.restricted(53, "udp");
    assert_eq!(restricted.len(), 2, "both the /12 and /16 docker-dns rules should show up as restricted matches");
    assert!(restricted.iter().all(|r| r.dest.as_deref() == Some("172.17.0.1")));
}

#[test]
fn unlisted_port_is_not_allowed() {
    let state = parse(REAL_SAMPLE);
    assert!(!state.allows(9999, "tcp"));
    assert!(state.restricted(9999, "tcp").is_empty());
}

#[test]
fn every_rule_of_the_sample_is_read_in_order() {
    let state = parse(REAL_SAMPLE);
    let ports: Vec<u16> = state.rules.iter().map(|r| r.port).collect();
    assert_eq!(ports, vec![53317, 53317, 53, 53, 22, 53317, 53317, 22]);
    let protos: Vec<&str> = state.rules.iter().map(|r| r.proto).collect();
    assert_eq!(protos, vec!["udp", "tcp", "udp", "udp", "tcp", "udp", "tcp", "tcp"]);
    let sources: Vec<&str> = state.rules.iter().map(|r| r.source.as_str()).collect();
    assert_eq!(
        sources,
        vec![
            "Anywhere",
            "Anywhere",
            "172.16.0.0/12",
            "192.168.0.0/16",
            "Anywhere",
            "Anywhere (v6)",
            "Anywhere (v6)",
            "Anywhere (v6)",
        ]
    );
    assert_eq!(state.rules[2].dest.as_deref(), Some("172.17.0.1"));
    assert_eq!(state.rules[4].dest, None);
}

#[test]
fn a_v6_destination_is_kept() {
    let state = parse("fe80::1\t 443/tcp ALLOW IN 10.0.0.0/8");
    assert_eq!(state.rules.len(), 1);
    assert_eq!(state.rules[0].dest.as_deref(), Some("fe80::1"));
    assert_eq!(state.rules[0].port, 443);
    assert_eq!(state.rules[0].source, "10.0.0.0/8");
}

#[test]
fn only_lines_that_allow_inbound_traffic_are_rules() {
    let state = parse(
        "25/tcp ALLOW OUT Anywhere\n26/tcp DENY IN Anywhere\n28/tcp ALLOW FWD Anywhere\n29/tcp ALLOW OUT 10.0.0.1 ALLOW IN\n30/tcp DENY IN Anywhere # was ALLOW IN\n31/tcp ALLOW OUT Anywhere # not ALLOW IN\n",
    );
    assert!(state.rules.is_empty());
}

#[test]
fn a_rule_without_a_direction_has_no_source() {
    let state = parse(
        "29/tcp ALLOW Anywhere\n23/tcp ALLOW 10.0.0.3 # OUTSIDE\n10.0.0.1 24/udp ALLOW\n25/tcp ALLOW  OUT Anywhere\n26/tcp DENY Anywhere # ALLOW\n",
    );
    let rules: Vec<(u16, &str, Option<&str>, &str)> =
        state.rules.iter().map(|r| (r.port, r.proto, r.dest.as_deref(), r.source.as_str())).collect();
    assert_eq!(
        rules,
        vec![(29, "tcp", None, ""), (23, "tcp", None, ""), (24, "udp", Some("10.0.0.1"), "")]
    );
    assert!(!state.allows(29, "tcp"));
    assert_eq!(state.restricted(29, "tcp").len(), 1);
}

#[test]
fn an_inbound_rule_may_name_anything_else() {
    let state = parse("22/tcp on OUT0 ALLOW IN Anywhere on OUT1\n");
    assert_eq!(state.rules.len(), 1);
    assert_eq!(state.rules[0].source, "Anywhere on OUT1");
}

#[test]
fn a_comment_is_no_part_of_a_rule() {
    let state = parse(
        "22/tcp ALLOW IN Anywhere # OUTSIDE ssh\n27/tcp ALLOW IN Anywhere # OUTER\n28/udp ALLOW IN 10.0.0.0/8#ALLOW IN\n",
    );
    let rules: Vec<(u16, &str, &str)> =
        state.rules.iter().map(|r| (r.port, r.proto, r.source.as_str())).collect();
    assert_eq!(
        rules,
        vec![(22, "tcp", "Anywhere"), (27, "tcp", "Anywhere"), (28, "udp", "10.0.0.0/8")]
    );
    assert!(state.rules.iter().all(|r| r.dest.is_none()));
    assert!(state.allows(22, "tcp"));
}

#[test]
fn a_port_out_of_range_is_no_rule() {
    let state = parse("65535/tcp ALLOW IN Anywhere\n65536/tcp ALLOW IN Anywhere\n");
    assert_eq!(state.rules.len(), 1);
    assert_eq!(state.rules[0].port, 65535);
}

#[test]
fn digits_of_another_script_are_no_port() {
    let state = parse("\u{0662}\u{0662}/tcp ALLOW IN Anywhere\n");
    assert!(state.rules.is_empty());
}

#[test]
fn a_rule_must_begin_the_line() {
    let state = parse("x 22/tcp ALLOW IN Anywhere\n  22/udp ALLOW IN Anywhere\r\n");
    assert_eq!(state.rules.len(), 1);
    assert_eq!(state.rules[0].proto, "udp");
    assert_eq!(state.rules[0].source, "Anywhere");
}

#[test]
fn the_source_ends_at_a_second_allow_in_or_a_comment() {
    let state = parse("22/tcp ALLOW IN 10.0.0.1 ALLOW IN 10.0.0.2\n24/tcp ALLOW IN #all\n");
    let sources: Vec<&str> = state.rules.iter().map(|r| r.source.as_str()).collect();
    assert_eq!(sources, vec!["10.0.0.1", ""]);
}

#[test]
fn the_last_status_line_decides() {
    assert!(!parse("Status: active\nStatus: inactive\n").active);
    assert!(parse("Status: inactive\nStatus:   active  \n").active);
    assert!(!parse("").active);
}

#[test]
fn a_firewall_starts_off_and_without_rules() {
    let state = UfwState::default();
    assert!(!state.active);
    assert!(state.rules.is_empty());
    assert!(!state.allows(22, "tcp"));
}

#[test]
fn an_unknown_protocol_is_looked_up_as_tcp() {
    let state = parse("22/tcp ALLOW IN Anywhere\n");
    assert!(state.allows(22, "sctp"));
    assert!(!state.allows(22, "udp"));
    assert_eq!(state.matching(22, "tcp").len(), 1);
}

#[test]
fn a_rule_is_fully_open_only_without_destination_and_from_anywhere() {
    let open = Rule { port: 22, proto: "tcp", dest: None, source: "Anywhere (v6)".to_string() };
    assert!(open.is_source_anywhere());
    assert!(open.is_fully_open());
    let scoped = Rule { port: 22, proto: "tcp", dest: Some("10.0.0.1".to_string()), source: "Anywhere".to_string() };
    assert!(scoped.is_source_anywhere());
    assert!(!scoped.is_fully_open());
    let narrow = Rule { port: 22, proto: "tcp", dest: None, source: "10.0.0.0/8".to_string() };
    assert!(!narrow.is_fully_open());
}

#[test]
fn matching_rules_split_into_open_and_restricted() {
    let state = parse("22/tcp ALLOW IN Anywhere\n22/tcp ALLOW IN 10.0.0.0/8\n22/udp ALLOW IN Anywhere\n");
    assert_eq!(state.matching(22, "tcp").len(), 2);
    assert!(state.allows(22, "tcp"));
    assert_eq!(state.restricted(22, "tcp").len(), 1);
    assert_eq!(state.restricted(22, "tcp")[0].source, "10.0.0.0/8");
}

#[test]
fn an_output_in_two_parts_has_the_rules_of_both() {
    let first = "Status: active\n22/tcp ALLOW IN Anywhere\n";
    let second = "172.17.0.1 53/udp ALLOW IN 172.16.0.0/12\n";
    let both = parse(&format!("{first}{second}"));
    assert!(both.active);
    let ports: Vec<u16> = both.rules.iter().map(|r| r.port).collect();
    assert_eq!(ports, vec![22, 53]);
    assert!(!parse(&format!("{first}Status: inactive\n")).active);
}

#[test]
fn a_scoped_rule_leaves_what_is_open_as_it_is() {
    let mut state = parse("22/tcp ALLOW IN Anywhere\n");
    state.rules.push(Rule { port: 80, proto: "tcp", dest: None, source: "10.0.0.0/8".to_string() });
    state.rules.push(Rule { port: 81, proto: "tcp", dest: Some("10.0.0.1".to_string()), source: "Anywhere".to_string() });
    assert!(state.allows(22, "tcp"));
    assert!(!state.allows(80, "tcp"));
    assert!(!state.allows(81, "tcp"));
}
