//! Correlates the sockets of `ss`, the rules of `ufw` and the port publications of
//! `docker ps` into the one question that none of the three answers alone: is
//! this port reachable, and if so, by what mechanism.
use crate::docker::{docker_views, DockerPort, DockerView};
use crate::exposure::a_published_port_is_exposed;
use crate::ip::ip_text;
use crate::numeral::{decimal, push_numeral};
use crate::scan;
use crate::ss::{socket_views, BindAddr, BindView, Socket, SocketView};
use crate::text::{join, string_views, text_view};
use crate::ufw::{is_allowed, restricted_rules, rule_ref_views, Rule, RuleView, UfwState, UfwView};
use vstd::prelude::*;
use vstd::string::StringExecFns;

verus! {

/// How exposed a socket is.
#[derive(Debug, Clone, Copy, PartialEq, Eq, Structural)]
pub enum Severity {
    /// Loopback only: not reachable from anywhere but this host.
    Safe,
    /// Bound wide, but the firewall has no rule that lets traffic in: currently
    /// unreachable, but one rule away from being exposed.
    Blocked,
    /// Bound wide, and the firewall lets traffic in from anywhere: reachable,
    /// presumably on purpose (e.g. sshd).
    ExposedAllowed,
    /// Bound wide, and the firewall has a matching rule, but it is scoped to a
    /// destination address, a source, or both: reachable only from that scope.
    /// Apart from `ExposedAllowed`, because Docker's own `172.17.0.1 53/udp` rule
    /// does not mean that port 53/udp is open to the world.
    ExposedRestricted,
    /// Bound wide and managed by Docker: reachable whatever the firewall says,
    /// since Docker's own `iptables` rules run ahead of the firewall's.
    ExposedDocker,
}

/// What a severity is called in a report.
pub open spec fn label_of(severity: Severity) -> Seq<char> {
    match severity {
        Severity::Safe => "SAFE"@,
        Severity::Blocked => "BLOCKED"@,
        Severity::ExposedAllowed => "EXPOSED (ufw-allowed)"@,
        Severity::ExposedRestricted => "EXPOSED (ufw-scoped)"@,
        Severity::ExposedDocker => "EXPOSED (docker bypasses ufw)"@,
    }
}

/// Whether a severity means that the socket can be reached.
pub open spec fn is_exposed(severity: Severity) -> bool {
    severity is ExposedAllowed || severity is ExposedRestricted || severity is ExposedDocker
}

impl Severity {
    pub fn label(&self) -> (r: &'static str)
        ensures
            r@ == label_of(*self),
    {
        match self {
            Severity::Safe => "SAFE",
            Severity::Blocked => "BLOCKED",
            Severity::ExposedAllowed => "EXPOSED (ufw-allowed)",
            Severity::ExposedRestricted => "EXPOSED (ufw-scoped)",
            Severity::ExposedDocker => "EXPOSED (docker bypasses ufw)",
        }
    }
}

/// A socket and how exposed it is.
#[derive(Debug, Clone)]
pub struct Finding {
    pub socket: Socket,
    pub severity: Severity,
    pub docker_container: Option<String>,
    /// Set only for `ExposedRestricted`: the scope in words (e.g. "from
    /// 172.16.0.0/12, 192.168.0.0/16 -> 172.17.0.1 only").
    pub scope_note: Option<String>,
}

/// What a [`Finding`] holds.
pub struct FindingView {
    pub socket: SocketView,
    pub severity: Severity,
    pub docker_container: Option<Seq<char>>,
    pub scope_note: Option<Seq<char>>,
}

impl View for Finding {
    type V = FindingView;

    open spec fn view(&self) -> FindingView {
        FindingView {
            socket: self.socket@,
            severity: self.severity,
            docker_container: text_view(self.docker_container),
            scope_note: text_view(self.scope_note),
        }
    }
}

/// What the findings of `v` hold.
pub open spec fn finding_views(v: Seq<Finding>) -> Seq<FindingView> {
    Seq::new(v.len(), |i: int| v[i]@)
}

/// Whether a publication is about the port and the protocol of a socket.
pub open spec fn publishes(port: DockerView, socket: SocketView) -> bool {
    port.host_port == socket.port && port.proto == socket.proto
}

/// The first publication about the port and the protocol of a socket.
pub open spec fn publication(ports: Seq<DockerView>, socket: SocketView) -> Option<DockerView>
    decreases ports.len(),
{
    if ports.len() == 0 {
        None
    } else if publishes(ports[0], socket) {
        Some(ports[0])
    } else {
        publication(ports.skip(1), socket)
    }
}

/// How exposed a socket is.
pub open spec fn severity_of(
    socket: SocketView,
    ufw: UfwView,
    ports: Seq<DockerView>,
) -> Severity {
    if socket.addr is Loopback {
        Severity::Safe
    } else if publication(ports, socket) is Some {
        Severity::ExposedDocker
    } else if is_allowed(ufw.rules, socket.port, socket.proto) {
        Severity::ExposedAllowed
    } else if restricted_rules(ufw.rules, socket.port, socket.proto).len() > 0 {
        Severity::ExposedRestricted
    } else {
        Severity::Blocked
    }
}

/// The sources of some rules.
pub open spec fn sources(rules: Seq<RuleView>) -> Seq<Seq<char>> {
    Seq::new(rules.len(), |i: int| rules[i].source)
}

/// The first destination address that some rules name.
pub open spec fn first_dest(rules: Seq<RuleView>) -> Option<Seq<char>>
    decreases rules.len(),
{
    if rules.len() == 0 {
        None
    } else if rules[0].dest is Some {
        rules[0].dest
    } else {
        first_dest(rules.skip(1))
    }
}

/// The scope of some rules in words.
pub open spec fn scope_of(rules: Seq<RuleView>) -> Seq<char> {
    let dest = match first_dest(rules) {
        Some(dest) => dest,
        None => "this host"@,
    };
    "from "@ + join(sources(rules), ", "@) + " -> "@ + dest + " only"@
}

/// A socket with how exposed it is: the container where Docker publishes it, and
/// the scope where only restricted rules let traffic in.
pub open spec fn finding_of(
    socket: SocketView,
    ufw: UfwView,
    ports: Seq<DockerView>,
) -> FindingView {
    let severity = severity_of(socket, ufw, ports);
    FindingView {
        socket,
        severity,
        docker_container: if severity is ExposedDocker {
            Some(publication(ports, socket)->0.container)
        } else {
            None
        },
        scope_note: if severity is ExposedRestricted {
            Some(scope_of(restricted_rules(ufw.rules, socket.port, socket.proto)))
        } else {
            None
        },
    }
}

/// Where a socket is bound, in words.
pub open spec fn bind_text(addr: BindView) -> Seq<char> {
    match addr {
        BindView::Wildcard => "Wildcard"@,
        BindView::Loopback => "Loopback"@,
        BindView::Specific(ip) => "Specific("@ + ip_text(ip) + ")"@,
    }
}

/// Whether Docker says that it publishes a port on every interface.
pub open spec fn is_wide(port: DockerView) -> bool {
    port.host_bind == "0.0.0.0"@ || port.host_bind == "::"@
}

/// The warning about a socket that `ss` reports as bound to every interface and
/// Docker does not, or the other way round: unusual enough for a human's
/// attention (e.g. two processes that race for the same port).
pub open spec fn warning_of(socket: SocketView, ports: Seq<DockerView>) -> Option<Seq<char>> {
    match publication(ports, socket) {
        Some(port) => if socket.addr is Loopback || (socket.addr is Wildcard) == is_wide(port) {
            None
        } else {
            Some(
                "sentrygrid: warning: port "@ + decimal(socket.port as nat)
                    + " bind mismatch — ss reports "@ + bind_text(socket.addr)
                    + ", docker reports "@ + port.host_bind,
            )
        },
        None => None,
    }
}

/// The warnings about some sockets, in order.
pub open spec fn warnings_of(sockets: Seq<SocketView>, ports: Seq<DockerView>) -> Seq<Seq<char>>
    decreases sockets.len(),
{
    if sockets.len() == 0 {
        seq![]
    } else {
        let before = warnings_of(sockets.drop_last(), ports);
        match warning_of(sockets.last(), ports) {
            Some(warning) => before.push(warning),
            None => before,
        }
    }
}

fn find_publication<'a>(ports: &'a [DockerPort], socket: &Socket) -> (r: Option<&'a DockerPort>)
    ensures
        match r {
            Some(port) => publication(docker_views(ports@), socket@) == Some(port@),
            None => publication(docker_views(ports@), socket@) is None,
        },
{
    let ghost views = docker_views(ports@);
    let mut i: usize = 0;
    assert(views.skip(0) =~= views);
    while i < ports.len()
        invariant
            i <= ports.len(),
            views == docker_views(ports@),
            publication(views.skip(i as int), socket@) == publication(views, socket@),
        decreases ports.len() - i,
    {
        let port = &ports[i];
        assert(views.skip(i as int)[0] == port@);
        assert(views.skip(i as int).skip(1) =~= views.skip(i + 1));
        if port.host_port == socket.port && scan::same(port.proto.as_str(), socket.proto) {
            return Some(port);
        }
        i += 1;
    }
    None
}

fn dest_or_host<'a>(rules: &Vec<&'a Rule>) -> (r: &'a str)
    ensures
        r@ == (match first_dest(rule_ref_views(rules@)) {
            Some(dest) => dest,
            None => "this host"@,
        }),
{
    let ghost views = rule_ref_views(rules@);
    let mut i: usize = 0;
    assert(views.skip(0) =~= views);
    while i < rules.len()
        invariant
            i <= rules.len(),
            views == rule_ref_views(rules@),
            first_dest(views.skip(i as int)) == first_dest(views),
        decreases rules.len() - i,
    {
        let rule = rules[i];
        assert(views.skip(i as int)[0] == rule@);
        assert(views.skip(i as int).skip(1) =~= views.skip(i + 1));
        if let Some(dest) = &rule.dest {
            return dest.as_str();
        }
        i += 1;
    }
    "this host"
}

fn scope_note(rules: &Vec<&Rule>) -> (r: String)
    ensures
        r@ == scope_of(rule_ref_views(rules@)),
{
    let ghost all = sources(rule_ref_views(rules@));
    let mut out = String::new();
    out.append("from ");
    let mut i: usize = 0;
    assert(out@ =~= "from "@ + join(all.take(0), ", "@));
    while i < rules.len()
        invariant
            i <= rules.len(),
            all == sources(rule_ref_views(rules@)),
            out@ == "from "@ + join(all.take(i as int), ", "@),
        decreases rules.len() - i,
    {
        let ghost next = all.take(i + 1);
        assert(next.drop_last() =~= all.take(i as int));
        assert(next.last() == rules@[i as int].source@);
        if i > 0 {
            out.append(", ");
        }
        out.append(rules[i].source.as_str());
        i += 1;
        assert(out@ =~= "from "@ + join(next, ", "@));
    }
    assert(all.take(rules@.len() as int) =~= all);
    out.append(" -> ");
    out.append(dest_or_host(rules));
    out.append(" only");
    out
}

fn assess(socket: Socket, ufw: &UfwState, docker_ports: &[DockerPort]) -> (r: Finding)
    ensures
        r.socket == socket,
        r@ == finding_of(socket@, ufw@, docker_views(docker_ports@)),
{
    if let BindAddr::Loopback = &socket.addr {
        return Finding {
            socket,
            severity: Severity::Safe,
            docker_container: None,
            scope_note: None,
        };
    }
    if let Some(port) = find_publication(docker_ports, &socket) {
        return Finding {
            socket,
            severity: Severity::ExposedDocker,
            docker_container: Some(port.container.clone()),
            scope_note: None,
        };
    }
    if ufw.allows(socket.port, socket.proto) {
        return Finding {
            socket,
            severity: Severity::ExposedAllowed,
            docker_container: None,
            scope_note: None,
        };
    }
    let restricted = ufw.restricted(socket.port, socket.proto);
    if restricted.len() > 0 {
        let note = scope_note(&restricted);
        Finding {
            socket,
            severity: Severity::ExposedRestricted,
            docker_container: None,
            scope_note: Some(note),
        }
    } else {
        Finding { socket, severity: Severity::Blocked, docker_container: None, scope_note: None }
    }
}

/// How exposed each socket is, in the order of the sockets. What Docker and `ss`
/// disagree about is in [`bind_warnings`].
pub fn correlate(sockets: Vec<Socket>, ufw: &UfwState, docker_ports: &[DockerPort]) -> (out: Vec<
    Finding,
>)
    ensures
        out@.len() == sockets@.len(),
        forall|i: int|
            0 <= i < out@.len() ==> {
                &&& (#[trigger] out@[i]).socket == sockets@[i]
                &&& out@[i]@ == finding_of(sockets@[i]@, ufw@, docker_views(docker_ports@))
            },
        forall|i: int|
            0 <= i < out@.len() ==> (#[trigger] out@[i].severity == Severity::Safe
                <==> sockets@[i].addr is Loopback),
        forall|i: int, j: int|
            #![trigger out@[i], docker_ports@[j]]
            0 <= i < out@.len() && 0 <= j < docker_ports@.len() && sockets@[i].addr !is Loopback
                && docker_ports@[j].host_port == sockets@[i].port && docker_ports@[j].proto@
                == sockets@[i].proto@ ==> out@[i].severity == Severity::ExposedDocker,
{
    let ghost all = sockets@;
    let mut out: Vec<Finding> = Vec::new();
    for socket in it: sockets
        invariant
            it.seq() == all,
            out@.len() == it.index(),
            forall|i: int|
                0 <= i < out@.len() ==> {
                    &&& (#[trigger] out@[i]).socket == all[i]
                    &&& out@[i]@ == finding_of(all[i]@, ufw@, docker_views(docker_ports@))
                },
    {
        out.push(assess(socket, ufw, docker_ports));
    }
    proof {
        let ports = docker_views(docker_ports@);
        assert forall|i: int, j: int|
            #![trigger out@[i], docker_ports@[j]]
            0 <= i < out@.len() && 0 <= j < docker_ports@.len() && all[i].addr !is Loopback
                && docker_ports@[j].host_port == all[i].port && docker_ports@[j].proto@
                == all[i].proto@ implies out@[i].severity == Severity::ExposedDocker by {
            assert(ports[j] == docker_ports@[j]@);
            a_published_port_is_exposed(all[i]@, ufw@, ports, j);
            assert(out@[i]@.severity == out@[i].severity);
        }
        assert forall|i: int| 0 <= i < out@.len() implies (#[trigger] out@[i].severity
            == Severity::Safe <==> all[i].addr is Loopback) by {
            assert(out@[i]@ == finding_of(all[i]@, ufw@, ports));
        }
    }
    out
}

fn describe_bind(addr: &BindAddr) -> (r: String)
    ensures
        r@ == bind_text(addr@),
{
    match addr {
        BindAddr::Wildcard => "Wildcard".to_owned(),
        BindAddr::Loopback => "Loopback".to_owned(),
        BindAddr::Specific(ip) => {
            let mut out = "Specific(".to_owned();
            out.append(ip.text().as_str());
            out.append(")");
            out
        },
    }
}

fn bind_warning(socket: &Socket, docker_ports: &[DockerPort]) -> (r: Option<String>)
    ensures
        text_view(r) == warning_of(socket@, docker_views(docker_ports@)),
{
    let ss_says_wide: bool = match &socket.addr {
        BindAddr::Wildcard => true,
        BindAddr::Loopback => {
            return None;
        },
        BindAddr::Specific(_) => false,
    };
    match find_publication(docker_ports, socket) {
        Some(port) => {
            let bind = port.host_bind.as_str();
            let docker_says_wide: bool = scan::same(bind, "0.0.0.0") || scan::same(bind, "::");
            if ss_says_wide == docker_says_wide {
                return None;
            }
            let mut out = "sentrygrid: warning: port ".to_owned();
            push_numeral(&mut out, socket.port as u64, 10);
            out.append(" bind mismatch — ss reports ");
            out.append(describe_bind(&socket.addr).as_str());
            out.append(", docker reports ");
            out.append(bind);
            Some(out)
        },
        None => None,
    }
}

/// The warnings about the sockets whose bind Docker and `ss` disagree about, in
/// the order of the sockets. Docker's own reported bind should agree with what
/// `ss` independently observed for the same port.
pub fn bind_warnings(sockets: &[Socket], docker_ports: &[DockerPort]) -> (out: Vec<String>)
    ensures
        string_views(out@) == warnings_of(socket_views(sockets@), docker_views(docker_ports@)),
{
    let ghost views = socket_views(sockets@);
    let ghost ports = docker_views(docker_ports@);
    let mut out: Vec<String> = Vec::new();
    let mut i: usize = 0;
    assert(views.take(0) =~= seq![]);
    assert(string_views(out@) =~= seq![]);
    while i < sockets.len()
        invariant
            i <= sockets.len(),
            views == socket_views(sockets@),
            ports == docker_views(docker_ports@),
            string_views(out@) == warnings_of(views.take(i as int), ports),
        decreases sockets.len() - i,
    {
        let ghost before = string_views(out@);
        proof {
            assert(views.take(i + 1).drop_last() =~= views.take(i as int));
            assert(views.take(i + 1).last() == sockets@[i as int]@);
        }
        match bind_warning(&sockets[i], docker_ports) {
            Some(warning) => {
                let ghost view = warning@;
                out.push(warning);
                assert(string_views(out@) =~= before.push(view));
            },
            None => {},
        }
        i += 1;
    }
    assert(views.take(views.len() as int) =~= views);
    out
}

/// Whether some socket can be reached.
pub fn any_exposed(findings: &[Finding]) -> (r: bool)
    ensures
        r == exists|i: int| 0 <= i < findings@.len() && is_exposed((#[trigger] findings@[i]).severity),
{
    let mut i: usize = 0;
    while i < findings.len()
        invariant
            i <= findings.len(),
            forall|j: int| 0 <= j < i ==> !is_exposed((#[trigger] findings@[j]).severity),
        decreases findings.len() - i,
    {
        match findings[i].severity {
            Severity::ExposedAllowed | Severity::ExposedRestricted | Severity::ExposedDocker => {
                return true;
            },
            _ => {},
        }
        i += 1;
    }
    false
}

} // verus!
