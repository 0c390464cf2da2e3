//! What holds of the library as a whole.
use crate::audit::{
    finding_of, is_exposed, label_of, publication, publishes, severity_of, warning_of, FindingView,
    Severity,
};
use crate::docker::DockerView;
use crate::format::{
    bind_name, count_of, lines_of, record_of, report_of, summary_of, text_or_null,
};
use crate::ip::IpView;
use crate::json::ValueView;
use crate::palette::PaletteView;
use crate::ss::{BindView, SocketView};
use crate::text::starts_with;
use crate::ufw::{concerns, fully_open, is_allowed, restricted_rules, RuleView, UfwView};
use vstd::prelude::*;

verus! {

/// A socket on the loopback is safe, whatever the firewall and Docker say, and no
/// other socket is.
pub proof fn only_loopback_is_safe(socket: SocketView, ufw: UfwView, ports: Seq<DockerView>)
    ensures
        severity_of(socket, ufw, ports) is Safe <==> socket.addr is Loopback,
{
}

/// A port that Docker publishes is exposed through Docker unless it is bound to
/// the loopback, and the finding about it is the same whatever the firewall says.
pub proof fn docker_bypasses_the_firewall(
    socket: SocketView,
    ufw: UfwView,
    other: UfwView,
    ports: Seq<DockerView>,
)
    requires
        socket.addr !is Loopback,
        exists|i: int| 0 <= i < ports.len() && publishes(#[trigger] ports[i], socket),
    ensures
        finding_of(socket, ufw, ports).severity is ExposedDocker,
        finding_of(socket, ufw, ports) == finding_of(socket, other, ports),
{
    publication_is_the_first(ports, socket);
}

/// The publication of a socket is the first one about its port and protocol, and
/// there is none only where no publication is about them.
pub proof fn publication_is_the_first(ports: Seq<DockerView>, socket: SocketView)
    ensures
        match publication(ports, socket) {
            Some(port) => exists|i: int|
                {
                    &&& 0 <= i < ports.len()
                    &&& #[trigger] ports[i] == port
                    &&& publishes(port, socket)
                    &&& forall|j: int| 0 <= j < i ==> !publishes(#[trigger] ports[j], socket)
                },
            None => forall|i: int| 0 <= i < ports.len() ==> !publishes(#[trigger] ports[i], socket),
        },
    decreases ports.len(),
{
    if ports.len() > 0 {
        if publishes(ports[0], socket) {
        } else {
            let rest = ports.skip(1);
            publication_is_the_first(rest, socket);
            match publication(rest, socket) {
                Some(port) => {
                    let i = choose|i: int|
                        {
                            &&& 0 <= i < rest.len()
                            &&& #[trigger] rest[i] == port
                            &&& publishes(port, socket)
                            &&& forall|j: int|
                                0 <= j < i ==> !publishes(#[trigger] rest[j], socket)
                        };
                    assert(ports[i + 1] == port);
                    assert forall|j: int| 0 <= j < i + 1 implies !publishes(
                        #[trigger] ports[j],
                        socket,
                    ) by {
                        if j > 0 {
                            assert(rest[j - 1] == ports[j]);
                        }
                    }
                },
                None => {
                    assert forall|j: int| 0 <= j < ports.len() implies !publishes(
                        #[trigger] ports[j],
                        socket,
                    ) by {
                        if j > 0 {
                            assert(rest[j - 1] == ports[j]);
                        }
                    }
                },
            }
        }
    }
}

/// A socket that is bound to one address other than the loopback is as exposed as
/// if it were bound to every interface.
pub proof fn one_address_is_as_exposed_as_all(
    socket: SocketView,
    ip: IpView,
    ufw: UfwView,
    ports: Seq<DockerView>,
)
    ensures
        ({
            let one = finding_of(
                SocketView { addr: BindView::Specific(ip), ..socket },
                ufw,
                ports,
            );
            let all = finding_of(SocketView { addr: BindView::Wildcard, ..socket }, ufw, ports);
            &&& one.severity == all.severity
            &&& one.docker_container == all.docker_container
            &&& one.scope_note == all.scope_note
        }),
{
    let one = SocketView { addr: BindView::Specific(ip), ..socket };
    let all = SocketView { addr: BindView::Wildcard, ..socket };
    publication_ignores_the_address(ports, one, all);
}

proof fn publication_ignores_the_address(
    ports: Seq<DockerView>,
    one: SocketView,
    all: SocketView,
)
    requires
        one.port == all.port,
        one.proto == all.proto,
    ensures
        publication(ports, one) == publication(ports, all),
    decreases ports.len(),
{
    if ports.len() > 0 {
        publication_ignores_the_address(ports.skip(1), one, all);
    }
}

/// Whether the firewall is on does not change a finding: it is about the rules.
pub proof fn findings_ignore_whether_the_firewall_is_on(
    socket: SocketView,
    ufw: UfwView,
    active: bool,
    ports: Seq<DockerView>,
)
    ensures
        finding_of(socket, ufw, ports) == finding_of(
            socket,
            UfwView { active, rules: ufw.rules },
            ports,
        ),
{
}

/// A finding has a scope note exactly where only scoped rules let traffic in, and
/// a container exactly where Docker publishes the port.
pub proof fn notes_stand_only_where_due(socket: SocketView, ufw: UfwView, ports: Seq<DockerView>)
    ensures
        finding_of(socket, ufw, ports).scope_note is Some <==> finding_of(
            socket,
            ufw,
            ports,
        ).severity is ExposedRestricted,
        finding_of(socket, ufw, ports).docker_container is Some <==> finding_of(
            socket,
            ufw,
            ports,
        ).severity is ExposedDocker,
        finding_of(socket, ufw, ports).socket == socket,
{
}

/// For a socket that is not on the loopback and that Docker does not publish, the
/// rules about its port and protocol decide: none at all block it, one that is
/// fully open exposes it, and scoped ones alone expose it to their scope.
pub proof fn rules_decide(socket: SocketView, ufw: UfwView, ports: Seq<DockerView>)
    requires
        socket.addr !is Loopback,
        publication(ports, socket) is None,
    ensures
        severity_of(socket, ufw, ports) is Blocked <==> forall|i: int|
            0 <= i < ufw.rules.len() ==> !concerns(
                #[trigger] ufw.rules[i],
                socket.port,
                socket.proto,
            ),
        severity_of(socket, ufw, ports) is ExposedAllowed <==> exists|i: int|
            0 <= i < ufw.rules.len() && concerns(
                #[trigger] ufw.rules[i],
                socket.port,
                socket.proto,
            ) && fully_open(ufw.rules[i]),
        severity_of(socket, ufw, ports) is ExposedRestricted <==> {
            &&& exists|i: int|
                0 <= i < ufw.rules.len() && concerns(
                    #[trigger] ufw.rules[i],
                    socket.port,
                    socket.proto,
                )
            &&& forall|i: int|
                0 <= i < ufw.rules.len() && concerns(
                    #[trigger] ufw.rules[i],
                    socket.port,
                    socket.proto,
                ) ==> !fully_open(ufw.rules[i])
        },
{
    restricted_rules_are_the_scoped_ones(ufw.rules, socket.port, socket.proto);
}

/// A rule is among the restricted ones exactly where it is about the port and the
/// protocol and is not fully open.
pub proof fn restricted_rules_are_the_scoped_ones(
    rules: Seq<RuleView>,
    port: u16,
    proto: Seq<char>,
)
    ensures
        forall|r: RuleView| #[trigger]
            restricted_rules(rules, port, proto).contains(r) <==> rules.contains(r) && concerns(
                r,
                port,
                proto,
            ) && !fully_open(r),
        restricted_rules(rules, port, proto).len() > 0 <==> exists|i: int|
            0 <= i < rules.len() && concerns(#[trigger] rules[i], port, proto) && !fully_open(
                rules[i],
            ),
{
    broadcast use vstd::seq_lib::group_filter_ensures;

    let scoped = |r: RuleView| concerns(r, port, proto) && !fully_open(r);
    let kept = rules.filter(scoped);
    assert forall|r: RuleView| #[trigger] kept.contains(r) implies rules.contains(r) && scoped(
        r,
    ) by {
        rules.lemma_filter_contains_rev(scoped, r);
        let k = choose|k: int| 0 <= k < kept.len() && kept[k] == r;
        assert(scoped(kept[k]));
    }
    assert forall|r: RuleView| rules.contains(r) && scoped(r) implies #[trigger] kept.contains(
        r,
    ) by {
        let i = choose|i: int| 0 <= i < rules.len() && rules[i] == r;
        assert(scoped(rules[i]));
        assert(kept.contains(rules[i]));
    }
    if kept.len() > 0 {
        assert(kept.contains(kept[0]));
        let i = choose|i: int| 0 <= i < rules.len() && rules[i] == kept[0];
        assert(concerns(rules[i], port, proto) && !fully_open(rules[i]));
    }
    if exists|i: int|
        0 <= i < rules.len() && concerns(#[trigger] rules[i], port, proto) && !fully_open(
            rules[i],
        ) {
        let i = choose|i: int|
            0 <= i < rules.len() && concerns(#[trigger] rules[i], port, proto) && !fully_open(
                rules[i],
            );
        assert(scoped(rules[i]));
        assert(kept.contains(rules[i]));
    }
}

/// A rule that names a destination address, or a source that does not begin with
/// "Anywhere", opens no port to everybody: with it behind the other rules, exactly
/// the same ports are.
pub proof fn a_scoped_rule_opens_nothing(
    rules: Seq<RuleView>,
    rule: RuleView,
    port: u16,
    proto: Seq<char>,
)
    requires
        rule.dest is Some || !starts_with(rule.source, "Anywhere"@),
    ensures
        is_allowed(rules.push(rule), port, proto) == is_allowed(rules, port, proto),
{
    let more = rules.push(rule);
    if is_allowed(rules, port, proto) {
        let i = choose|i: int|
            0 <= i < rules.len() && concerns(#[trigger] rules[i], port, proto) && fully_open(
                rules[i],
            );
        assert(more[i] == rules[i]);
    }
    if is_allowed(more, port, proto) {
        let i = choose|i: int|
            0 <= i < more.len() && concerns(#[trigger] more[i], port, proto) && fully_open(more[i]);
        assert(i < rules.len());
        assert(more[i] == rules[i]);
    }
}

/// A socket can be reached exactly where it is neither safe nor blocked.
pub proof fn exposed_is_neither_safe_nor_blocked(severity: Severity)
    ensures
        is_exposed(severity) <==> severity !is Safe && severity !is Blocked,
{
}

/// No two severities are called the same.
pub proof fn labels_differ(a: Severity, b: Severity)
    requires
        label_of(a) == label_of(b),
    ensures
        a == b,
{
    reveal_strlit("SAFE");
    reveal_strlit("BLOCKED");
    reveal_strlit("EXPOSED (ufw-allowed)");
    reveal_strlit("EXPOSED (ufw-scoped)");
    reveal_strlit("EXPOSED (docker bypasses ufw)");
    let x = label_of(a);
    let y = label_of(b);
    assert(x.len() == y.len());
}

/// Docker and `ss` are never said to disagree about a socket on the loopback, nor
/// about one that Docker does not publish.
pub proof fn warnings_are_about_published_sockets(socket: SocketView, ports: Seq<DockerView>)
    requires
        warning_of(socket, ports) is Some,
    ensures
        socket.addr !is Loopback,
        exists|i: int| 0 <= i < ports.len() && publishes(#[trigger] ports[i], socket),
{
    publication_is_the_first(ports, socket);
}

/// The counts of the five severities add up to the number of findings.
pub proof fn counts_add_up(findings: Seq<FindingView>)
    ensures
        count_of(findings, Severity::Safe) + count_of(findings, Severity::Blocked) + count_of(
            findings,
            Severity::ExposedRestricted,
        ) + count_of(findings, Severity::ExposedAllowed) + count_of(
            findings,
            Severity::ExposedDocker,
        ) == findings.len(),
    decreases findings.len(),
{
    if findings.len() > 0 {
        counts_add_up(findings.drop_last());
    }
}

/// A report that hides the safe sockets shows the lines of all the others and of
/// no more, and still counts every finding.
pub proof fn hiding_drops_exactly_the_safe_lines(
    findings: Seq<FindingView>,
    palette: Option<PaletteView>,
)
    ensures
        report_of(findings, palette, false) == lines_of(
            findings.filter(|f: FindingView| f.severity !is Safe),
            palette,
            true,
        ) + summary_of(findings),
{
    lemma_shown_lines(findings, palette);
}

proof fn lemma_shown_lines(findings: Seq<FindingView>, palette: Option<PaletteView>)
    ensures
        lines_of(findings, palette, false) == lines_of(
            findings.filter(|f: FindingView| f.severity !is Safe),
            palette,
            true,
        ),
    decreases findings.len(),
{
    reveal(Seq::filter);
    let shown = |f: FindingView| f.severity !is Safe;
    if findings.len() > 0 {
        let front = findings.drop_last();
        lemma_shown_lines(front, palette);
        if shown(findings.last()) {
            assert(front.filter(shown).push(findings.last()).drop_last() =~= front.filter(shown));
        }
    }
}

/// The JSON object about a finding has these eight keys and no other, each with
/// its own part of the finding.
pub proof fn a_record_holds_every_part(f: FindingView)
    ensures
        record_of(f).dom() == set![
            "port"@,
            "proto"@,
            "bind"@,
            "process"@,
            "pid"@,
            "severity"@,
            "docker_container"@,
            "scope_note"@,
        ],
        record_of(f)["port"@] == ValueView::Number(f.socket.port as u64),
        record_of(f)["proto"@] == ValueView::Text(f.socket.proto),
        record_of(f)["bind"@] == ValueView::Text(bind_name(f.socket.addr)),
        record_of(f)["process"@] == text_or_null(f.socket.process),
        f.socket.pid is Some ==> record_of(f)["pid"@] == ValueView::Number(
            f.socket.pid->0 as u64,
        ),
        f.socket.pid is None ==> record_of(f)["pid"@] is Null,
        record_of(f)["severity"@] == ValueView::Text(label_of(f.severity)),
        record_of(f)["docker_container"@] == text_or_null(f.docker_container),
        record_of(f)["scope_note"@] == text_or_null(f.scope_note),
{
    reveal_strlit("port");
    reveal_strlit("proto");
    reveal_strlit("bind");
    reveal_strlit("process");
    reveal_strlit("pid");
    reveal_strlit("severity");
    reveal_strlit("docker_container");
    reveal_strlit("scope_note");
    assert("port"@[0] != "bind"@[0]);
    assert("port"@.len() == 4 && "bind"@.len() == 4 && "pid"@.len() == 3);
    assert("proto"@.len() == 5 && "process"@.len() == 7 && "severity"@.len() == 8);
    assert("docker_container"@.len() == 16 && "scope_note"@.len() == 10);
    assert(record_of(f).dom() =~= set![
        "port"@,
        "proto"@,
        "bind"@,
        "process"@,
        "pid"@,
        "severity"@,
        "docker_container"@,
        "scope_note"@,
    ]);
}

} // verus!
