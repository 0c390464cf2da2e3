//! Parses `ss -tlnp` and `ss -ulnp` output. Listing the sockets is left to `ss`
//! itself, which asks the kernel; this is about what its lines mean.
use crate::ip::{ip_of, parse_ip, IpAddr, IpView};
use crate::numeral::{read_unsigned, unsigned};
use crate::pattern::{match_process, process_match};
use crate::scan;
use crate::text::{
    lines, other_than, rfind, slice_views, span, starts_with, text_view, trim_start, words,
};
use vstd::prelude::*;
use vstd::slice::slice_subrange;
use vstd::string::StrSliceExecFns;

verus! {

/// Where a socket is bound.
#[derive(Debug, Clone, PartialEq, Eq)]
pub enum BindAddr {
    /// 0.0.0.0 or [::] or the `*` shorthand: every interface.
    Wildcard,
    /// 127.0.0.0/8 or ::1: this host only.
    Loopback,
    /// A specific interface address (a LAN address, a docker bridge address).
    Specific(IpAddr),
}

/// What a [`BindAddr`] holds.
pub enum BindView {
    Wildcard,
    Loopback,
    Specific(IpView),
}

impl View for BindAddr {
    type V = BindView;

    open spec fn view(&self) -> BindView {
        match self {
            BindAddr::Wildcard => BindView::Wildcard,
            BindAddr::Loopback => BindView::Loopback,
            BindAddr::Specific(ip) => BindView::Specific(ip@),
        }
    }
}

/// A socket that waits for traffic.
#[derive(Debug, Clone)]
pub struct Socket {
    /// "tcp" or "udp".
    pub proto: &'static str,
    pub addr: BindAddr,
    pub port: u16,
    pub process: Option<String>,
    pub pid: Option<u32>,
}

/// What a [`Socket`] holds.
pub struct SocketView {
    pub proto: Seq<char>,
    pub addr: BindView,
    pub port: u16,
    pub process: Option<Seq<char>>,
    pub pid: Option<u32>,
}

impl View for Socket {
    type V = SocketView;

    open spec fn view(&self) -> SocketView {
        SocketView {
            proto: self.proto@,
            addr: self.addr@,
            port: self.port,
            process: text_view(self.process),
            pid: self.pid,
        }
    }
}

/// What the sockets of `v` hold.
pub open spec fn socket_views(v: Seq<Socket>) -> Seq<SocketView> {
    Seq::new(v.len(), |i: int| v[i]@)
}

/// The address and the port of `s`: `[address]:port`, or `address:port` with the
/// last colon between them.
pub open spec fn addr_port_of(s: Seq<char>) -> Option<(Seq<char>, Seq<char>)> {
    if s.len() > 0 && s[0] == '[' {
        let rest = s.skip(1);
        let close = span(rest, other_than(']')) as int;
        if close + 1 < rest.len() && rest[close + 1] == ':' {
            Some((rest.take(close), rest.skip(close + 2)))
        } else {
            None
        }
    } else {
        match rfind(s, ':') {
            Some(i) => Some((s.take(i), s.skip(i + 1))),
            None => None,
        }
    }
}

/// Whether an address reaches this host only: 127.0.0.0/8 or ::1.
pub open spec fn is_loopback(ip: IpView) -> bool {
    match ip {
        IpView::V4(octets) => octets[0] == 127,
        IpView::V6(segments) => segments == seq![0u16, 0, 0, 0, 0, 0, 0, 1],
    }
}

/// Where an address binds a socket; one that is not recognized counts as every
/// interface.
pub open spec fn bind_of(addr: Seq<char>) -> BindView {
    if addr == "*"@ || addr == "0.0.0.0"@ || addr == "::"@ {
        BindView::Wildcard
    } else {
        match ip_of(addr) {
            Some(ip) => if is_loopback(ip) {
                BindView::Loopback
            } else {
                BindView::Specific(ip)
            },
            None => BindView::Wildcard,
        }
    }
}

/// The socket that a line describes, where it begins with `state` and its fourth
/// word is an address and a port.
pub open spec fn socket_of(line: Seq<char>, state: Seq<char>, proto: Seq<char>) -> Option<
    SocketView,
> {
    let fields = words(line);
    if !starts_with(trim_start(line), state) || fields.len() < 4 {
        None
    } else {
        match addr_port_of(fields[3]) {
            Some((addr, digits)) => match unsigned(digits, 0xffff) {
                Some(port) => Some(
                    SocketView {
                        proto,
                        addr: bind_of(addr),
                        port: port as u16,
                        process: process_of(line),
                        pid: pid_of(line),
                    },
                ),
                None => None,
            },
            None => None,
        }
    }
}

/// The name of the process that a line names first.
pub open spec fn process_of(line: Seq<char>) -> Option<Seq<char>> {
    match process_match(line) {
        Some(m) => Some(m.name),
        None => None,
    }
}

/// The number of the process that a line names first, where it fits its range.
pub open spec fn pid_of(line: Seq<char>) -> Option<u32> {
    match process_match(line) {
        Some(m) => match unsigned(m.pid, 0xffff_ffff) {
            Some(pid) => Some(pid as u32),
            None => None,
        },
        None => None,
    }
}

/// The sockets that the lines in `state` describe, in order.
pub open spec fn sockets_of(lines: Seq<Seq<char>>, state: Seq<char>, proto: Seq<char>) -> Seq<
    SocketView,
>
    decreases lines.len(),
{
    if lines.len() == 0 {
        seq![]
    } else {
        let before = sockets_of(lines.drop_last(), state, proto);
        match socket_of(lines.last(), state, proto) {
            Some(socket) => before.push(socket),
            None => before,
        }
    }
}

/// Splits `addr:port`, with brackets around an address of version 6
/// (`[::]:8404`) or without any (`127.0.0.1:45636`, `*:80`): a split at the first
/// or the last colon alone breaks on one of the two forms.
pub fn split_addr_port(s: &str) -> (r: Option<(&str, &str)>)
    ensures
        match r {
            Some((addr, port)) => addr_port_of(s@) == Some((addr@, port@)),
            None => addr_port_of(s@) is None,
        },
{
    let chars = scan::to_chars(s);
    let n: usize = chars.len();
    if n > 0 && chars[0] == '[' {
        let rest = slice_subrange(chars.as_slice(), 1, n);
        assert(rest@ =~= s@.skip(1));
        let close: usize = scan::find_char(rest, ']');
        if close < rest.len() && close + 1 < rest.len() && rest[close + 1] == ':' {
            let addr = s.substring_char(1, close + 1);
            let port = s.substring_char(close + 3, n);
            assert(addr@ =~= rest@.take(close as int));
            assert(port@ =~= rest@.skip(close + 2));
            Some((addr, port))
        } else {
            None
        }
    } else {
        match scan::rfind(chars.as_slice(), ':') {
            Some(i) => {
                let addr = s.substring_char(0, i);
                let port = s.substring_char(i + 1, n);
                assert(addr@ =~= s@.take(i as int));
                assert(port@ =~= s@.skip(i + 1));
                Some((addr, port))
            },
            None => None,
        }
    }
}

/// Where `addr` binds a socket.
pub fn classify(addr: &str) -> (r: BindAddr)
    ensures
        r@ == bind_of(addr@),
{
    if scan::same(addr, "*") || scan::same(addr, "0.0.0.0") || scan::same(addr, "::") {
        return BindAddr::Wildcard;
    }
    match parse_ip(addr) {
        Some(ip) => {
            let local: bool = match &ip {
                IpAddr::V4(octets) => octets[0] == 127,
                IpAddr::V6(segments) => {
                    let ghost one = seq![0u16, 0, 0, 0, 0, 0, 0, 1];
                    let local: bool = segments[0] == 0 && segments[1] == 0 && segments[2] == 0
                        && segments[3] == 0 && segments[4] == 0 && segments[5] == 0 && segments[6]
                        == 0 && segments[7] == 1;
                    assert(local ==> segments@ =~= one);
                    local
                },
            };
            if local {
                BindAddr::Loopback
            } else {
                BindAddr::Specific(ip)
            }
        },
        None => BindAddr::Wildcard,  // unrecognized: worth flagging, not silently ignoring
    }
}

fn read_socket(line: &[char], state: &str, proto: &'static str) -> (r: Option<Socket>)
    ensures
        match r {
            Some(socket) => socket_of(line@, state@, proto@) == Some(socket@),
            None => socket_of(line@, state@, proto@) is None,
        },
{
    if !scan::starts_with(scan::trim_start(line), state) {
        return None;
    }
    // State Recv-Q Send-Q Local:Port Peer:Port [Process...]
    let fields = scan::words(line);
    if fields.len() < 4 {
        return None;
    }
    assert(fields@[3]@ == slice_views(fields@)[3]);
    let local = scan::to_text(fields[3]);
    match split_addr_port(local.as_str()) {
        Some((addr, digits)) => {
            let digits = scan::to_chars(digits);
            match read_unsigned(digits.as_slice(), 0xffff) {
                Some(port) => {
                    let text = scan::to_text(line);
                    let (process, pid) = read_process(text.as_str());
                    Some(Socket { proto, addr: classify(addr), port: port as u16, process, pid })
                },
                None => None,
            }
        },
        None => None,
    }
}

fn read_process(line: &str) -> (r: (Option<String>, Option<u32>))
    ensures
        text_view(r.0) == process_of(line@),
        r.1 == pid_of(line@),
{
    match match_process(line) {
        Some((name, digits)) => {
            let digits = scan::to_chars(digits.as_str());
            (Some(name), read_unsigned(digits.as_slice(), 0xffff_ffff))
        },
        None => (None, None),
    }
}

fn read_sockets(text: &str, state: &str, proto: &'static str) -> (out: Vec<Socket>)
    ensures
        socket_views(out@) == sockets_of(lines(text@), state@, proto@),
{
    let chars = scan::to_chars(text);
    let all = scan::lines(chars.as_slice());
    let ghost views = slice_views(all@);
    let mut out: Vec<Socket> = Vec::new();
    let mut i: usize = 0;
    assert(views.take(0) =~= seq![]);
    assert(socket_views(out@) =~= seq![]);
    while i < all.len()
        invariant
            i <= all.len(),
            views == slice_views(all@),
            socket_views(out@) == sockets_of(views.take(i as int), state@, proto@),
        decreases all.len() - i,
    {
        let ghost before = socket_views(out@);
        proof {
            assert(views.take(i + 1).drop_last() =~= views.take(i as int));
            assert(views.take(i + 1).last() == all@[i as int]@);
        }
        match read_socket(all[i], state, proto) {
            Some(socket) => {
                let ghost view = socket@;
                out.push(socket);
                assert(socket_views(out@) =~= before.push(view));
            },
            None => {},
        }
        i += 1;
    }
    assert(views.take(views.len() as int) =~= views);
    out
}

/// The sockets that the output of `ss -tlnp` describes.
pub fn parse_lines(text: &str, proto: &'static str) -> (out: Vec<Socket>)
    ensures
        socket_views(out@) == sockets_of(lines(text@), "LISTEN"@, proto@),
{
    read_sockets(text, "LISTEN", proto)
}

/// The sockets that the output of `ss -ulnp` describes. It labels the ones that
/// wait for traffic UNCONN, not LISTEN.
pub fn parse_udp_lines(text: &str) -> (out: Vec<Socket>)
    ensures
        socket_views(out@) == sockets_of(lines(text@), "UNCONN"@, "udp"@),
{
    read_sockets(text, "UNCONN", "udp")
}

/// The sockets that the outputs of `ss -tlnp` and `ss -ulnp` describe, those of
/// the first one first.
pub fn parse_sockets(tcp_text: &str, udp_text: &str) -> (out: Vec<Socket>)
    ensures
        socket_views(out@) == sockets_of(lines(tcp_text@), "LISTEN"@, "tcp"@) + sockets_of(
            lines(udp_text@),
            "UNCONN"@,
            "udp"@,
        ),
{
    let mut out = parse_lines(tcp_text, "tcp");
    let mut udp = parse_udp_lines(udp_text);
    let ghost tcp_views = socket_views(out@);
    let ghost udp_views = socket_views(udp@);
    out.append(&mut udp);
    assert(socket_views(out@) =~= tcp_views + udp_views);
    out
}

} // verus!
