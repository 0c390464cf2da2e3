use sentrygrid::audit::{Finding, Severity};
use sentrygrid::format::{or_empty, record, render_json, render_report, render_report_in};
use sentrygrid::ip::parse_ip;
use sentrygrid::palette::{palette_of, Palette};
use sentrygrid::ss::{BindAddr, Socket};

fn finding(
    proto: &'static str,
    addr: BindAddr,
    port: u16,
    process: Option<&str>,
    pid: Option<u32>,
    severity: Severity,
) -> Finding {
    Finding {
        socket: Socket { proto, addr, port, process: process.map(String::from), pid },
        severity,
        docker_container: None,
        scope_note: None,
    }
}

fn samples() -> Vec<Finding> {
    let lan = BindAddr::Specific(parse_ip("192.168.88.6").unwrap());
    let mut docker = finding("tcp", BindAddr::Wildcard, 8200, Some("docker-proxy"), Some(7), Severity::ExposedDocker);
    docker.docker_container = Some("vault".to_string());
    let mut scoped = finding("udp", BindAddr::Wildcard, 53, None, None, Severity::ExposedRestricted);
    scoped.scope_note = Some("from 10.0.0.0/8 -> this host only".to_string());
    vec![
        finding("tcp", BindAddr::Loopback, 5432, Some("postgres"), Some(4294967295), Severity::Safe),
        docker,
        scoped,
        finding("tcp", lan, 4444, None, None, Severity::Blocked),
        finding("tcp", BindAddr::Wildcard, 22, Some("sshd"), Some(1), Severity::ExposedAllowed),
    ]
}

const SUMMARY: &str = "\n5 sockets total — 1 safe, 1 blocked by ufw, 1 exposed (ufw-scoped), 1 exposed (ufw-allowed), 1 exposed (docker bypasses ufw)\n";

const SAFE_LINE: &str = "[SAFE                        ] 5432/tcp  127.0.0.1      process=postgres\n";

const OTHER_LINES: &str = "[EXPOSED (docker bypasses ufw)] 8200/tcp  0.0.0.0/[::]   process=docker-proxy (container: vault)
[EXPOSED (ufw-scoped)        ] 53/udp  0.0.0.0/[::]   process=? [from 10.0.0.0/8 -> this host only]
[BLOCKED                     ] 4444/tcp  192.168.88.6   process=?
[EXPOSED (ufw-allowed)       ] 22/tcp  0.0.0.0/[::]   process=sshd
";

#[test]
fn a_report_has_a_line_for_each_finding_and_a_summary() {
    let report = render_report(&samples(), false, true);
    assert_eq!(report, format!("{SAFE_LINE}{OTHER_LINES}{SUMMARY}"));
}

#[test]
fn a_report_hides_the_safe_lines_and_still_counts_them() {
    let report = render_report(&samples(), false, false);
    assert_eq!(report, format!("{OTHER_LINES}{SUMMARY}"));
}

#[test]
fn a_report_on_nothing_is_a_summary() {
    let expected = "\n0 sockets total — 0 safe, 0 blocked by ufw, 0 exposed (ufw-scoped), 0 exposed (ufw-allowed), 0 exposed (docker bypasses ufw)\n";
    assert_eq!(render_report(&[], false, true), expected);
    assert_eq!(render_report(&[], true, false), expected);
}

#[test]
fn columns_only_pad_what_is_shorter() {
    let long = BindAddr::Specific(parse_ip("2001:db8::abcd:ef01").unwrap());
    let report = render_report(&[finding("datagram", long, 1, None, None, Severity::Blocked)], false, false);
    assert!(report.starts_with("[BLOCKED                     ] 1/datagram 2001:db8::abcd:ef01 process=?\n"));
}

#[test]
fn every_severity_has_the_color_of_its_own_in_a_palette() {
    let palette = Palette {
        safe: "<s>".to_string(),
        blocked: "<b>".to_string(),
        restricted: "<r>".to_string(),
        allowed: "<a>".to_string(),
        docker: "<d>".to_string(),
        reset: "</>".to_string(),
    };
    let report = render_report_in(&samples(), Some(&palette), true);
    let heads: Vec<&str> = report.lines().take(5).map(|line| &line[..4]).collect();
    assert_eq!(heads, vec!["<s>[", "<d>[", "<r>[", "<b>[", "<a>["]);
    assert!(report.starts_with("<s>[SAFE                        ]</> 5432/tcp  127.0.0.1      process=postgres\n"));
    assert_eq!(palette.color(Severity::ExposedDocker), "<d>");
}

#[test]
fn each_color_of_a_theme_stands_for_one_severity() {
    let [g, c, p, o, r, x] = ["green", "cyan", "pink", "orange", "red", "x"].map(String::from);
    let palette = palette_of(g, c, p, o, r, x);
    assert_eq!(palette.color(Severity::Safe), "green");
    assert_eq!(palette.color(Severity::Blocked), "cyan");
    assert_eq!(palette.color(Severity::ExposedRestricted), "pink");
    assert_eq!(palette.color(Severity::ExposedAllowed), "orange");
    assert_eq!(palette.color(Severity::ExposedDocker), "red");
    assert_eq!(palette.reset, "x");
    let loaded = Palette::load();
    assert_eq!(loaded.safe, cybercore::palette::acid_green());
    assert_eq!(loaded.blocked, cybercore::palette::cyan());
    assert_eq!(loaded.restricted, cybercore::palette::hot_pink());
    assert_eq!(loaded.allowed, cybercore::palette::orange());
    assert_eq!(loaded.docker, cybercore::palette::red());
}

fn is_true_color(s: &str) -> bool {
    let Some(rest) = s.strip_prefix("\u{1b}[38;2;") else { return false };
    let Some(numbers) = rest.strip_suffix("m") else { return false };
    let parts: Vec<&str> = numbers.split(';').collect();
    parts.len() == 3 && parts.iter().all(|p| p.parse::<u8>().is_ok())
}

#[test]
fn the_palette_in_force_is_made_of_true_colors() {
    let palette = Palette::load();
    assert!(is_true_color(&palette.safe), "{:?}", palette.safe);
    assert!(is_true_color(&palette.blocked), "{:?}", palette.blocked);
    assert!(is_true_color(&palette.restricted), "{:?}", palette.restricted);
    assert!(is_true_color(&palette.allowed), "{:?}", palette.allowed);
    assert!(is_true_color(&palette.docker), "{:?}", palette.docker);
    assert_eq!(palette.reset, "\u{1b}[0m");
}

#[test]
fn a_colored_report_is_the_report_in_the_palette_in_force() {
    let palette = Palette::load();
    let report = render_report(&samples(), true, true);
    assert_eq!(report, render_report_in(&samples(), Some(&palette), true));
    assert!(report.starts_with(&palette.safe));
    assert!(report.contains("]\u{1b}[0m 22/tcp"));
}

#[test]
fn json_has_a_compact_object_for_each_finding() {
    let all = samples();
    assert_eq!(
        render_json(&all[..2], false),
        "[{\"bind\":\"loopback\",\"docker_container\":null,\"pid\":4294967295,\"port\":5432,\"process\":\"postgres\",\"proto\":\"tcp\",\"scope_note\":null,\"severity\":\"SAFE\"},{\"bind\":\"wildcard\",\"docker_container\":\"vault\",\"pid\":7,\"port\":8200,\"process\":\"docker-proxy\",\"proto\":\"tcp\",\"scope_note\":null,\"severity\":\"EXPOSED (docker bypasses ufw)\"}]"
    );
    assert_eq!(render_json(&[], false), "[]");
}

#[test]
fn compact_json_stays_on_one_line() {
    let mut odd = samples().remove(1);
    odd.socket.process = Some("a\n\"b\"\r\u{85}".to_string());
    let text = render_json(&[odd], false);
    assert!(!text.contains('\n'));
    assert!(text.contains("\"process\":\"a\\n\\\"b\\\"\\r\u{85}\""));
}

#[test]
fn compact_and_pretty_json_hold_the_same() {
    let all = samples();
    let compact: serde_json::Value = serde_json::from_str(&render_json(&all, false)).unwrap();
    let pretty: serde_json::Value = serde_json::from_str(&render_json(&all, true)).unwrap();
    assert_eq!(compact, pretty);
}

#[test]
fn json_can_be_spread_over_lines() {
    let all = samples();
    assert_eq!(
        render_json(&all[3..4], true),
        "[
  {
    \"bind\": \"192.168.88.6\",
    \"docker_container\": null,
    \"pid\": null,
    \"port\": 4444,
    \"process\": null,
    \"proto\": \"tcp\",
    \"scope_note\": null,
    \"severity\": \"BLOCKED\"
  }
]"
    );
    assert_eq!(render_json(&[], true), "[]");
}

#[test]
fn a_record_has_eight_keys_with_their_values() {
    let all = samples();
    let object = record(&all[2]);
    assert_eq!(object.len(), 8);
    assert_eq!(object["port"].as_u64(), Some(53));
    assert_eq!(object["proto"].as_str(), Some("udp"));
    assert_eq!(object["bind"].as_str(), Some("wildcard"));
    assert!(object["process"].is_null());
    assert!(object["pid"].is_null());
    assert_eq!(object["severity"].as_str(), Some("EXPOSED (ufw-scoped)"));
    assert!(object["docker_container"].is_null());
    assert_eq!(object["scope_note"].as_str(), Some("from 10.0.0.0/8 -> this host only"));
}

#[test]
fn text_that_could_not_be_written_is_empty() {
    let failure = serde_json::from_str::<serde_json::Value>("").unwrap_err();
    assert_eq!(or_empty(Err(failure)), "");
    assert_eq!(or_empty(Ok("[]".to_string())), "[]");
}
