//! Parses the port publications of `docker ps`. They tell what the sockets and
//! the firewall cannot: whether a port that is bound wide belongs to Docker,
//! which puts its own `iptables` rules ahead of the firewall's. Such a port is
//! reachable whatever the firewall says.
use crate::numeral::{read_unsigned, unsigned};
use crate::pattern::{is_mapping_match, mapping_match, match_mapping};
use crate::scan;
use crate::text::{lines, other_than, pieces, slice_views, span, trim};
use vstd::prelude::*;
use vstd::slice::slice_subrange;

verus! {

/// A port of a container, published on the host.
#[derive(Debug, Clone)]
pub struct DockerPort {
    pub container: String,
    pub host_bind: String,
    pub host_port: u16,
    pub proto: String,
}

/// What a [`DockerPort`] holds.
pub struct DockerView {
    pub container: Seq<char>,
    pub host_bind: Seq<char>,
    pub host_port: u16,
    pub proto: Seq<char>,
}

impl View for DockerPort {
    type V = DockerView;

    open spec fn view(&self) -> DockerView {
        DockerView {
            container: self.container@,
            host_bind: self.host_bind@,
            host_port: self.host_port,
            proto: self.proto@,
        }
    }
}

/// What the ports of `v` hold.
pub open spec fn docker_views(v: Seq<DockerPort>) -> Seq<DockerView> {
    Seq::new(v.len(), |i: int| v[i]@)
}

/// An address without the brackets around it.
pub open spec fn unbracketed(bind: Seq<char>) -> Seq<char> {
    if bind[0] == '[' {
        bind.subrange(1, bind.len() - 1)
    } else {
        bind
    }
}

/// The port on the host that `digits` write down; 0 where they are no number of
/// its range.
pub open spec fn host_port_of(digits: Seq<char>) -> u16 {
    match unsigned(digits, 0xffff) {
        Some(port) => port as u16,
        None => 0,
    }
}

/// The publication that an entry of the ports column describes. An entry without
/// an arrow (`443/tcp`) is a port inside the container that the host never sees.
pub open spec fn port_of(container: Seq<char>, entry: Seq<char>) -> Option<DockerView> {
    match mapping_match(trim(entry)) {
        Some(m) => Some(
            DockerView {
                container,
                host_bind: unbracketed(m.bind),
                host_port: host_port_of(m.port),
                proto: m.proto,
            },
        ),
        None => None,
    }
}

/// The publications that some entries describe, in order.
pub open spec fn ports_of(container: Seq<char>, entries: Seq<Seq<char>>) -> Seq<DockerView>
    decreases entries.len(),
{
    if entries.len() == 0 {
        seq![]
    } else {
        let before = ports_of(container, entries.drop_last());
        match port_of(container, entries.last()) {
            Some(port) => before.push(port),
            None => before,
        }
    }
}

/// The publications that a ports column describes: its entries stand between
/// commas.
pub open spec fn field_ports(container: Seq<char>, field: Seq<char>) -> Seq<DockerView> {
    ports_of(container, pieces(field, ','))
}

/// The publications that a line describes: the name of a container, a tab and the
/// ports column.
pub open spec fn line_ports(line: Seq<char>) -> Seq<DockerView> {
    let tab = span(line, other_than('\t')) as int;
    if tab < line.len() {
        field_ports(line.take(tab), line.skip(tab + 1))
    } else {
        seq![]
    }
}

/// The publications that some lines describe, in order.
pub open spec fn published(lines: Seq<Seq<char>>) -> Seq<DockerView>
    decreases lines.len(),
{
    if lines.len() == 0 {
        seq![]
    } else {
        published(lines.drop_last()) + line_ports(lines.last())
    }
}

fn read_entry(container: &str, entry: &[char]) -> (r: Option<DockerPort>)
    ensures
        match r {
            Some(port) => port_of(container@, entry@) == Some(port@),
            None => port_of(container@, entry@) is None,
        },
{
    let text = scan::to_text(scan::trim(entry));
    match match_mapping(text.as_str()) {
        Some((bind, digits, proto)) => {
            proof {
                assert(is_mapping_match(trim(entry@), mapping_match(trim(entry@))->0));
            }
            let bind = scan::to_chars(bind.as_str());
            let digits = scan::to_chars(digits.as_str());
            let n: usize = bind.len();
            let host_bind = if bind[0] == '[' {
                scan::to_text(slice_subrange(bind.as_slice(), 1, n - 1))
            } else {
                scan::to_text(bind.as_slice())
            };
            let host_port: u16 = match read_unsigned(digits.as_slice(), 0xffff) {
                Some(port) => port as u16,
                None => 0,
            };
            Some(DockerPort { container: container.to_owned(), host_bind, host_port, proto })
        },
        None => None,
    }
}

/// The ports that `container` publishes on the host, from its ports column.
pub fn parse_ports_field(container: &str, ports_field: &str) -> (out: Vec<DockerPort>)
    ensures
        docker_views(out@) == field_ports(container@, ports_field@),
{
    let chars = scan::to_chars(ports_field);
    let entries = scan::pieces(chars.as_slice(), ',');
    let ghost views = slice_views(entries@);
    let mut out: Vec<DockerPort> = Vec::new();
    let mut i: usize = 0;
    assert(views.take(0) =~= seq![]);
    assert(docker_views(out@) =~= seq![]);
    while i < entries.len()
        invariant
            i <= entries.len(),
            views == slice_views(entries@),
            docker_views(out@) == ports_of(container@, views.take(i as int)),
        decreases entries.len() - i,
    {
        let ghost before = docker_views(out@);
        proof {
            assert(views.take(i + 1).drop_last() =~= views.take(i as int));
            assert(views.take(i + 1).last() == entries@[i as int]@);
        }
        match read_entry(container, entries[i]) {
            Some(port) => {
                let ghost view = port@;
                out.push(port);
                assert(docker_views(out@) =~= before.push(view));
            },
            None => {},
        }
        i += 1;
    }
    assert(views.take(views.len() as int) =~= views);
    out
}

/// The ports that the containers publish on the host, from the output of `docker
/// ps` with a line of name, tab and ports for each of them.
pub fn parse_published(text: &str) -> (out: Vec<DockerPort>)
    ensures
        docker_views(out@) == published(lines(text@)),
{
    let chars = scan::to_chars(text);
    let all = scan::lines(chars.as_slice());
    let ghost views = slice_views(all@);
    let mut out: Vec<DockerPort> = Vec::new();
    let mut i: usize = 0;
    assert(views.take(0) =~= seq![]);
    assert(docker_views(out@) =~= seq![]);
    while i < all.len()
        invariant
            i <= all.len(),
            views == slice_views(all@),
            docker_views(out@) == published(views.take(i as int)),
        decreases all.len() - i,
    {
        let line = all[i];
        let ghost before = docker_views(out@);
        proof {
            assert(views.take(i + 1).drop_last() =~= views.take(i as int));
            assert(views.take(i + 1).last() == line@);
        }
        let n: usize = line.len();
        let tab: usize = scan::find_char(line, '\t');
        if tab < n {
            let name = slice_subrange(line, 0, tab);
            let field = slice_subrange(line, tab + 1, n);
            assert(name@ =~= line@.take(tab as int));
            assert(field@ =~= line@.skip(tab + 1));
            let name = scan::to_text(name);
            let field = scan::to_text(field);
            let mut ports = parse_ports_field(name.as_str(), field.as_str());
            let ghost more = docker_views(ports@);
            out.append(&mut ports);
            assert(docker_views(out@) =~= before + more);
        } else {
            assert(before + line_ports(line@) =~= before);
        }
        i += 1;
    }
    assert(views.take(views.len() as int) =~= views);
    out
}

} // verus!
