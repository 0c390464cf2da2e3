//! The views of the library's values leave nothing out: each part of a value stands
//! in its view, and each element of a list in the view of the list.
use crate::audit::{finding_views, Finding};
use crate::docker::{docker_views, DockerPort};
use crate::ip::{IpAddr, IpView};
use crate::json::{Scalar, ValueView};
use crate::palette::Palette;
use crate::ss::{socket_views, BindAddr, BindView, Socket};
use crate::text::{slice_views, string_views, text_view};
use crate::ufw::{rule_ref_views, rule_views, Rule, UfwState};
use vstd::prelude::*;

verus! {

/// A rule and a firewall are seen with all their fields.
pub proof fn firewalls_are_seen_whole(rule: Rule, state: UfwState)
    ensures
        rule@.port == rule.port,
        rule@.proto == rule.proto@,
        rule@.dest == text_view(rule.dest),
        rule@.source == rule.source@,
        state@.active == state.active,
        state@.rules == rule_views(state.rules@),
{
}

/// A socket is seen with all its fields, and what it is bound to as it is.
pub proof fn sockets_are_seen_whole(socket: Socket, ip: IpAddr, v4: [u8; 4], v6: [u16; 8])
    ensures
        socket@.proto == socket.proto@,
        socket@.addr == socket.addr@,
        socket@.port == socket.port,
        socket@.process == text_view(socket.process),
        socket@.pid == socket.pid,
        BindAddr::Wildcard@ == BindView::Wildcard,
        BindAddr::Loopback@ == BindView::Loopback,
        BindAddr::Specific(ip)@ == BindView::Specific(ip@),
        IpAddr::V4(v4)@ == IpView::V4(v4@),
        IpAddr::V6(v6)@ == IpView::V6(v6@),
{
}

/// A publication and a finding are seen with all their fields.
pub proof fn findings_are_seen_whole(port: DockerPort, finding: Finding)
    ensures
        port@.container == port.container@,
        port@.host_bind == port.host_bind@,
        port@.host_port == port.host_port,
        port@.proto == port.proto@,
        finding@.socket == finding.socket@,
        finding@.severity == finding.severity,
        finding@.docker_container == text_view(finding.docker_container),
        finding@.scope_note == text_view(finding.scope_note),
{
}

/// A palette and a JSON value are seen with all they hold.
pub proof fn outputs_are_seen_whole(palette: Palette, n: u64, s: String)
    ensures
        palette@.safe == palette.safe@,
        palette@.blocked == palette.blocked@,
        palette@.restricted == palette.restricted@,
        palette@.allowed == palette.allowed@,
        palette@.docker == palette.docker@,
        palette@.reset == palette.reset@,
        Scalar::Null@ == ValueView::Null,
        Scalar::Number(n)@ == ValueView::Number(n),
        Scalar::Text(s)@ == ValueView::Text(s@),
        text_view(Some(s)) == Some(s@),
        text_view(None) is None,
{
}

/// A list is seen with every element, in order.
pub proof fn lists_are_seen_whole(
    rules: Seq<Rule>,
    refs: Seq<&Rule>,
    sockets: Seq<Socket>,
    ports: Seq<DockerPort>,
    findings: Seq<Finding>,
    texts: Seq<String>,
    slices: Seq<&[char]>,
)
    ensures
        rule_views(rules).len() == rules.len(),
        rule_ref_views(refs).len() == refs.len(),
        socket_views(sockets).len() == sockets.len(),
        docker_views(ports).len() == ports.len(),
        finding_views(findings).len() == findings.len(),
        string_views(texts).len() == texts.len(),
        slice_views(slices).len() == slices.len(),
        forall|i: int| 0 <= i < rules.len() ==> #[trigger] rule_views(rules)[i] == rules[i]@,
        forall|i: int| 0 <= i < refs.len() ==> #[trigger] rule_ref_views(refs)[i] == refs[i]@,
        forall|i: int| 0 <= i < sockets.len() ==> #[trigger] socket_views(sockets)[i] == sockets[i]@,
        forall|i: int| 0 <= i < ports.len() ==> #[trigger] docker_views(ports)[i] == ports[i]@,
        forall|i: int|
            0 <= i < findings.len() ==> #[trigger] finding_views(findings)[i] == findings[i]@,
        forall|i: int| 0 <= i < texts.len() ==> #[trigger] string_views(texts)[i] == texts[i]@,
        forall|i: int| 0 <= i < slices.len() ==> #[trigger] slice_views(slices)[i] == slices[i]@,
{
}

} // verus!
