//! Exposure told by the fields of sockets, rules and publications alone: what the
//! findings, the rule lookups and the warnings are for every input.
use crate::audit::{
    finding_of, first_dest, is_exposed, label_of, publication, publishes, scope_of, sources,
    warning_of, warnings_of, Severity,
};
use crate::docker::DockerView;
use crate::ip::ip_text;
use crate::numeral::decimal;
use crate::ss::{BindView, SocketView};
use crate::text::join;
use crate::ufw::{
    concerns, fully_open, is_allowed, matching_rules, restricted_rules, RuleView, UfwView,
};
use vstd::prelude::*;

verus! {

/// The whole of a rule that is open to everybody, by its fields.
proof fn lemma_fully_open(rule: RuleView)
    ensures
        fully_open(rule) <==> rule.dest is None && "Anywhere"@.is_prefix_of(rule.source),
{
    let n = "Anywhere"@.len() as int;
    if n <= rule.source.len() {
        assert(rule.source.subrange(0, 0 + n) =~= rule.source.subrange(0, n));
    }
}

/// A port is open to everybody exactly where some rule has that port and that
/// protocol, names no destination, and has a source that begins with "Anywhere".
/// Rules know two protocols: what is not "udp" is looked up as "tcp".
pub proof fn open_ports_are_told_by_the_rules(rules: Seq<RuleView>, port: u16, proto: Seq<char>)
    ensures
        is_allowed(rules, port, proto) <==> exists|i: int|
            {
                &&& 0 <= i < rules.len()
                &&& (#[trigger] rules[i]).port == port
                &&& rules[i].proto == if proto == "udp"@ {
                    "udp"@
                } else {
                    "tcp"@
                }
                &&& rules[i].dest is None
                &&& "Anywhere"@.is_prefix_of(rules[i].source)
            },
{
    assert forall|i: int| 0 <= i < rules.len() implies (fully_open(#[trigger] rules[i])
        <==> rules[i].dest is None && "Anywhere"@.is_prefix_of(rules[i].source)) by {
        lemma_fully_open(rules[i]);
    }
    if is_allowed(rules, port, proto) {
        let i = choose|i: int|
            0 <= i < rules.len() && concerns(#[trigger] rules[i], port, proto)
                && fully_open(rules[i]);
        assert(fully_open(rules[i]));
    }
}

/// One rule with the port and the protocol asked for, without a destination and
/// from anywhere, opens the port, be it of tcp or of udp, and is not restricted.
pub proof fn an_open_rule_opens_its_port(rules: Seq<RuleView>, k: int)
    requires
        0 <= k < rules.len(),
        rules[k].proto == "tcp"@ || rules[k].proto == "udp"@,
        rules[k].dest is None,
        "Anywhere"@.is_prefix_of(rules[k].source),
    ensures
        is_allowed(rules, rules[k].port, rules[k].proto),
        !restricted_rules(rules, rules[k].port, rules[k].proto).contains(rules[k]),
        matching_rules(rules, rules[k].port, rules[k].proto).contains(rules[k]),
{
    open_ports_are_told_by_the_rules(rules, rules[k].port, rules[k].proto);
    lookups_are_told_by_the_fields(rules, rules[k].port, rules[k].proto, rules[k]);
}

/// A rule is among the matching ones exactly where it is one of the rules and has
/// the port and the protocol; it is among the restricted ones exactly where it
/// names a destination too, or has another source than "Anywhere...".
pub proof fn lookups_are_told_by_the_fields(
    rules: Seq<RuleView>,
    port: u16,
    proto: Seq<char>,
    rule: RuleView,
)
    ensures
        matching_rules(rules, port, proto).contains(rule) <==> {
            &&& rules.contains(rule)
            &&& rule.port == port
            &&& rule.proto == if proto == "udp"@ {
                "udp"@
            } else {
                "tcp"@
            }
        },
        restricted_rules(rules, port, proto).contains(rule) <==> {
            &&& rules.contains(rule)
            &&& rule.port == port
            &&& rule.proto == if proto == "udp"@ {
                "udp"@
            } else {
                "tcp"@
            }
            &&& rule.dest is Some || !"Anywhere"@.is_prefix_of(rule.source)
        },
    decreases rules.len(),
{
    if rules.len() == 0 {
        reveal(Seq::filter);
        assert(matching_rules(rules, port, proto) =~= seq![]);
        assert(restricted_rules(rules, port, proto) =~= seq![]);
    } else {
        let front = rules.drop_last();
        let last = seq![rules.last()];
        lookups_are_told_by_the_fields(front, port, proto, rule);
        lookups_go_rule_by_rule(front, last, port, proto);
        one_rule_is_looked_up_by_its_fields(rules.last(), port, proto);
        assert(rules =~= front + last);
        lemma_sum_contains(front, last, rule);
        assert(last.contains(rule) <==> rule == rules.last()) by {
            if rule == rules.last() {
                assert(last[0] == rule);
            }
        }
        lemma_sum_contains(
            matching_rules(front, port, proto),
            matching_rules(last, port, proto),
            rule,
        );
        lemma_sum_contains(
            restricted_rules(front, port, proto),
            restricted_rules(last, port, proto),
            rule,
        );
    }
}

proof fn lemma_sum_contains(a: Seq<RuleView>, b: Seq<RuleView>, r: RuleView)
    ensures
        (a + b).contains(r) <==> a.contains(r) || b.contains(r),
{
    if a.contains(r) {
        let i = choose|i: int| 0 <= i < a.len() && a[i] == r;
        assert((a + b)[i] == r);
    }
    if b.contains(r) {
        let i = choose|i: int| 0 <= i < b.len() && b[i] == r;
        assert((a + b)[a.len() + i] == r);
    }
}

/// The lookups go rule by rule and keep the order: those in two lists one behind
/// the other are those in the first and behind them those in the second.
pub proof fn lookups_go_rule_by_rule(
    a: Seq<RuleView>,
    b: Seq<RuleView>,
    port: u16,
    proto: Seq<char>,
)
    ensures
        matching_rules(a + b, port, proto) == matching_rules(a, port, proto) + matching_rules(
            b,
            port,
            proto,
        ),
        restricted_rules(a + b, port, proto) == restricted_rules(a, port, proto)
            + restricted_rules(b, port, proto),
        is_allowed(a + b, port, proto) <==> is_allowed(a, port, proto) || is_allowed(
            b,
            port,
            proto,
        ),
{
    Seq::filter_distributes_over_add(
        a,
        b,
        |r: RuleView| concerns(r, port, proto),
    );
    Seq::filter_distributes_over_add(
        a,
        b,
        |r: RuleView| concerns(r, port, proto) && !fully_open(r),
    );
    let p = if proto == "udp"@ {
        "udp"@
    } else {
        "tcp"@
    };
    open_ports_are_told_by_the_rules(a, port, proto);
    open_ports_are_told_by_the_rules(b, port, proto);
    open_ports_are_told_by_the_rules(a + b, port, proto);
    if is_allowed(a, port, proto) {
        let i = choose|i: int|
            0 <= i < a.len() && (#[trigger] a[i]).port == port && a[i].proto == p && a[i].dest is None
                && "Anywhere"@.is_prefix_of(a[i].source);
        assert((a + b)[i] == a[i]);
    }
    if is_allowed(b, port, proto) {
        let i = choose|i: int|
            0 <= i < b.len() && (#[trigger] b[i]).port == port && b[i].proto == p && b[i].dest is None
                && "Anywhere"@.is_prefix_of(b[i].source);
        assert((a + b)[a.len() + i] == b[i]);
    }
    if is_allowed(a + b, port, proto) {
        let i = choose|i: int|
            0 <= i < (a + b).len() && (#[trigger] (a + b)[i]).port == port && (a + b)[i].proto == p
                && (a + b)[i].dest is None && "Anywhere"@.is_prefix_of((a + b)[i].source);
        if i < a.len() {
            assert(a[i] == (a + b)[i]);
        } else {
            assert(b[i - a.len()] == (a + b)[i]);
        }
    }
}

/// One rule alone is found by its own port and protocol, and is restricted unless
/// it has no destination and a source that begins with "Anywhere".
pub proof fn one_rule_is_looked_up_by_its_fields(rule: RuleView, port: u16, proto: Seq<char>)
    ensures
        matching_rules(seq![rule], port, proto) == if rule.port == port && rule.proto == (if proto
            == "udp"@ {
            "udp"@
        } else {
            "tcp"@
        }) {
            seq![rule]
        } else {
            seq![]
        },
        restricted_rules(seq![rule], port, proto) == if rule.port == port && rule.proto == (
        if proto == "udp"@ {
            "udp"@
        } else {
            "tcp"@
        }) && (rule.dest is Some || !"Anywhere"@.is_prefix_of(rule.source)) {
            seq![rule]
        } else {
            seq![]
        },
{
    reveal_with_fuel(Seq::filter, 2);
    lemma_fully_open(rule);
    assert(seq![rule].drop_last() =~= seq![]);
    assert(matching_rules(seq![rule], port, proto) =~= if concerns(rule, port, proto) {
        seq![rule]
    } else {
        seq![]
    });
    assert(restricted_rules(seq![rule], port, proto) =~= if concerns(rule, port, proto)
        && !fully_open(rule) {
        seq![rule]
    } else {
        seq![]
    });
}

/// A publication on the host port and the protocol of a socket, be it tcp or udp,
/// makes the socket exposed through Docker, unless the socket is on the loopback;
/// the container is that of the first such publication.
pub proof fn a_published_port_is_exposed(
    socket: SocketView,
    ufw: UfwView,
    ports: Seq<DockerView>,
    k: int,
)
    requires
        socket.addr !is Loopback,
        0 <= k < ports.len(),
        ports[k].host_port == socket.port,
        ports[k].proto == socket.proto,
    ensures
        finding_of(socket, ufw, ports).severity is ExposedDocker,
        finding_of(socket, ufw, ports).scope_note is None,
        (forall|j: int|
            0 <= j < k ==> (#[trigger] ports[j]).host_port != socket.port || ports[j].proto
                != socket.proto) ==> finding_of(socket, ufw, ports).docker_container == Some(
            ports[k].container,
        ),
{
    lemma_publication(ports, socket, k);
}

/// The first publication with the port and the protocol is the one that is used.
proof fn lemma_publication(ports: Seq<DockerView>, socket: SocketView, k: int)
    requires
        0 <= k < ports.len(),
        ports[k].host_port == socket.port,
        ports[k].proto == socket.proto,
    ensures
        publication(ports, socket) is Some,
        (forall|j: int|
            0 <= j < k ==> (#[trigger] ports[j]).host_port != socket.port || ports[j].proto
                != socket.proto) ==> publication(ports, socket) == Some(ports[k]),
    decreases ports.len(),
{
    if k > 0 && !publishes(ports[0], socket) {
        let rest = ports.skip(1);
        assert(rest[k - 1] == ports[k]);
        lemma_publication(rest, socket, k - 1);
        if forall|j: int|
            0 <= j < k ==> (#[trigger] ports[j]).host_port != socket.port || ports[j].proto
                != socket.proto {
            assert forall|j: int| 0 <= j < k - 1 implies (#[trigger] rest[j]).host_port
                != socket.port || rest[j].proto != socket.proto by {
                assert(rest[j] == ports[j + 1]);
            }
        }
    }
}

proof fn lemma_no_publication(ports: Seq<DockerView>, socket: SocketView)
    requires
        forall|j: int|
            0 <= j < ports.len() ==> (#[trigger] ports[j]).host_port != socket.port
                || ports[j].proto != socket.proto,
    ensures
        publication(ports, socket) is None,
    decreases ports.len(),
{
    if ports.len() > 0 {
        let rest = ports.skip(1);
        assert(!publishes(ports[0], socket));
        assert forall|j: int| 0 <= j < rest.len() implies (#[trigger] rest[j]).host_port
            != socket.port || rest[j].proto != socket.proto by {
            assert(rest[j] == ports[j + 1]);
        }
        lemma_no_publication(rest, socket);
    }
}

/// How exposed a socket is, told by the fields: safe on the loopback; elsewhere
/// exposed through Docker where a publication has its port and protocol; else
/// allowed where a rule with its port and protocol has no destination and is from
/// anywhere; else scoped where a rule has its port and protocol; else blocked. The
/// socket stays as it is.
pub proof fn severity_is_told_by_the_fields(
    socket: SocketView,
    ufw: UfwView,
    ports: Seq<DockerView>,
)
    ensures
        ({
            let published = exists|j: int|
                0 <= j < ports.len() && (#[trigger] ports[j]).host_port == socket.port
                    && ports[j].proto == socket.proto;
            let proto = if socket.proto == "udp"@ {
                "udp"@
            } else {
                "tcp"@
            };
            let open = exists|i: int|
                0 <= i < ufw.rules.len() && (#[trigger] ufw.rules[i]).port == socket.port
                    && ufw.rules[i].proto == proto && ufw.rules[i].dest is None
                    && "Anywhere"@.is_prefix_of(ufw.rules[i].source);
            let named = exists|i: int|
                0 <= i < ufw.rules.len() && (#[trigger] ufw.rules[i]).port == socket.port
                    && ufw.rules[i].proto == proto;
            let f = finding_of(socket, ufw, ports);
            &&& f.socket == socket
            &&& f.severity == if socket.addr is Loopback {
                Severity::Safe
            } else if published {
                Severity::ExposedDocker
            } else if open {
                Severity::ExposedAllowed
            } else if named {
                Severity::ExposedRestricted
            } else {
                Severity::Blocked
            }
            &&& f.docker_container is Some <==> socket.addr !is Loopback && published
            &&& f.scope_note is Some <==> socket.addr !is Loopback && !published && !open && named
        }),
{
    let proto = if socket.proto == "udp"@ {
        "udp"@
    } else {
        "tcp"@
    };
    let rules = ufw.rules;
    if exists|j: int|
        0 <= j < ports.len() && (#[trigger] ports[j]).host_port == socket.port && ports[j].proto
            == socket.proto {
        let k = choose|j: int|
            0 <= j < ports.len() && (#[trigger] ports[j]).host_port == socket.port
                && ports[j].proto == socket.proto;
        lemma_publication(ports, socket, k);
    } else {
        lemma_no_publication(ports, socket);
    }
    open_ports_are_told_by_the_rules(rules, socket.port, socket.proto);
    let restricted = restricted_rules(rules, socket.port, socket.proto);
    if exists|i: int|
        0 <= i < rules.len() && (#[trigger] rules[i]).port == socket.port && rules[i].proto
            == proto {
        let i = choose|i: int|
            0 <= i < rules.len() && (#[trigger] rules[i]).port == socket.port && rules[i].proto
                == proto;
        lookups_are_told_by_the_fields(rules, socket.port, socket.proto, rules[i]);
        assert(rules.contains(rules[i]));
    }
    if restricted.len() > 0 {
        lookups_are_told_by_the_fields(rules, socket.port, socket.proto, restricted[0]);
        assert(restricted.contains(restricted[0]));
        let i = choose|i: int| 0 <= i < rules.len() && rules[i] == restricted[0];
        assert(rules[i].port == socket.port && rules[i].proto == proto);
    }
}

/// The scope note of a socket that only scoped rules let in names the source of
/// each of these rules, in order, and the first destination among them, or this
/// host where none names one.
pub proof fn a_scope_is_told_by_the_rules(rules: Seq<RuleView>, k: int)
    ensures
        0 <= k < rules.len() && rules[k].dest is Some && (forall|j: int|
            0 <= j < k ==> (#[trigger] rules[j]).dest is None) ==> scope_of(rules) == "from "@
            + join(Seq::new(rules.len(), |i: int| rules[i].source), ", "@) + " -> "@
            + rules[k].dest->0 + " only"@,
        (forall|j: int| 0 <= j < rules.len() ==> (#[trigger] rules[j]).dest is None) ==> scope_of(
            rules,
        ) == "from "@ + join(Seq::new(rules.len(), |i: int| rules[i].source), ", "@) + " -> "@
            + "this host"@ + " only"@,
{
    assert(sources(rules) =~= Seq::new(rules.len(), |i: int| rules[i].source));
    lemma_first_dest(rules, k);
}

proof fn lemma_first_dest(rules: Seq<RuleView>, k: int)
    ensures
        0 <= k < rules.len() && rules[k].dest is Some && (forall|j: int|
            0 <= j < k ==> (#[trigger] rules[j]).dest is None) ==> first_dest(rules)
            == rules[k].dest,
        (forall|j: int| 0 <= j < rules.len() ==> (#[trigger] rules[j]).dest is None) ==> first_dest(
            rules,
        ) is None,
    decreases rules.len(),
{
    if rules.len() > 0 && rules[0].dest is None {
        let rest = rules.skip(1);
        lemma_first_dest(rest, k - 1);
        assert forall|j: int| 0 <= j < rest.len() implies #[trigger] rest[j] == rules[j + 1] by {}
    }
}

/// The finding of a socket that only scoped rules let in carries their scope.
pub proof fn a_scoped_finding_carries_its_scope(
    socket: SocketView,
    ufw: UfwView,
    ports: Seq<DockerView>,
)
    requires
        finding_of(socket, ufw, ports).severity is ExposedRestricted,
    ensures
        finding_of(socket, ufw, ports).scope_note == Some(
            scope_of(restricted_rules(ufw.rules, socket.port, socket.proto)),
        ),
{
}

/// A warning comes for a socket exactly where it is not on the loopback and the
/// first publication with its port and protocol says that it is on every interface
/// and `ss` does not, or the other way round; it names the port and both binds.
pub proof fn a_warning_is_told_by_the_fields(socket: SocketView, ports: Seq<DockerView>, k: int)
    requires
        0 <= k < ports.len(),
        ports[k].host_port == socket.port,
        ports[k].proto == socket.proto,
        forall|j: int|
            0 <= j < k ==> (#[trigger] ports[j]).host_port != socket.port || ports[j].proto
                != socket.proto,
    ensures
        warning_of(socket, ports) == match socket.addr {
            BindView::Loopback => None,
            BindView::Wildcard => if ports[k].host_bind == "0.0.0.0"@ || ports[k].host_bind
                == "::"@ {
                None
            } else {
                Some(
                    "sentrygrid: warning: port "@ + decimal(socket.port as nat)
                        + " bind mismatch — ss reports "@ + "Wildcard"@ + ", docker reports "@
                        + ports[k].host_bind,
                )
            },
            BindView::Specific(ip) => if ports[k].host_bind == "0.0.0.0"@ || ports[k].host_bind
                == "::"@ {
                Some(
                    "sentrygrid: warning: port "@ + decimal(socket.port as nat)
                        + " bind mismatch — ss reports "@ + ("Specific("@ + ip_text(ip) + ")"@)
                        + ", docker reports "@ + ports[k].host_bind,
                )
            } else {
                None
            },
        },
{
    lemma_publication(ports, socket, k);
}

/// There is no warning where no publication has the port and the protocol.
pub proof fn no_publication_no_warning(socket: SocketView, ports: Seq<DockerView>)
    requires
        forall|j: int|
            0 <= j < ports.len() ==> (#[trigger] ports[j]).host_port != socket.port
                || ports[j].proto != socket.proto,
    ensures
        warning_of(socket, ports) is None,
{
    lemma_no_publication(ports, socket);
}

/// The warnings go socket by socket and keep the order, whatever the sockets are.
pub proof fn warnings_go_socket_by_socket(
    a: Seq<SocketView>,
    b: Seq<SocketView>,
    socket: SocketView,
    ports: Seq<DockerView>,
)
    ensures
        warnings_of(a + b, ports) == warnings_of(a, ports) + warnings_of(b, ports),
        warnings_of(seq![socket], ports) == match warning_of(socket, ports) {
            Some(warning) => seq![warning],
            None => seq![],
        },
    decreases b.len(),
{
    if b.len() == 0 {
        assert(a + b =~= a);
    } else {
        assert((a + b).drop_last() =~= a + b.drop_last());
        warnings_go_socket_by_socket(a, b.drop_last(), socket, ports);
    }
    assert(warnings_of(a + b, ports) =~= warnings_of(a, ports) + warnings_of(b, ports));
    assert(seq![socket].drop_last() =~= seq![]);
    reveal_with_fuel(warnings_of, 2);
    assert(warnings_of(seq![socket], ports) =~= match warning_of(socket, ports) {
        Some(warning) => seq![warning],
        None => seq![],
    });
}

/// Which severities count as exposed, and what each is called.
pub proof fn severities_are_told_one_by_one()
    ensures
        !is_exposed(Severity::Safe) && label_of(Severity::Safe) == "SAFE"@,
        !is_exposed(Severity::Blocked) && label_of(Severity::Blocked) == "BLOCKED"@,
        is_exposed(Severity::ExposedAllowed) && label_of(Severity::ExposedAllowed)
            == "EXPOSED (ufw-allowed)"@,
        is_exposed(Severity::ExposedRestricted) && label_of(Severity::ExposedRestricted)
            == "EXPOSED (ufw-scoped)"@,
        is_exposed(Severity::ExposedDocker) && label_of(Severity::ExposedDocker)
            == "EXPOSED (docker bypasses ufw)"@,
{
}

} // verus!
