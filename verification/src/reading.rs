//! What the parsers read of what the tools write: the round trips of a rule, a
//! socket and a publication, and how the outputs fall into lines.
use crate::docker::{
    field_ports, line_ports, port_of, ports_of, published, unbracketed, DockerView,
};
use crate::ip::{
    colons, ip_of, ip_text, is_ip, lemma_ip_reads_back, longest_zeros, parts_of, segment_texts,
    v4_text, v6_text, zeros, zeros_at, IpView,
};
use crate::numeral::{
    decimal, digit_of, is_numeral, lemma_decimal_reads_back, lemma_numeral_value, unsigned, value,
};
use crate::pattern::{
    is_addr_char, is_bind, is_digit, is_dotted_char, is_mapping_match, is_process_match, is_proto,
    is_rule_match, is_run, lemma_mapping_match, lemma_process_match, lemma_rule_match, mapping_at,
    mapping_match, mapping_reads, process_at, process_reads, rule_reads, MappingMatch,
    ProcessMatch, RuleMatch,
};
use crate::ss::{
    addr_port_of, bind_of, is_loopback, pid_of, process_of, socket_of, sockets_of, BindView,
    SocketView,
};
use crate::text::{
    contains, find, is_space, join, lemma_find, lemma_find_unique, lemma_first_word,
    lemma_lines_of_sum, lemma_one_piece, lemma_pieces_of_join, lemma_span_unique, lemma_trim,
    lemma_trim_holds, lines, occurs_at, other_than, rfind, space, starts_with, trim, trim_start,
    words,
};
use crate::ufw::{
    after_line, before, fully_open, lets_in, rule_of, source_of, state_of, transport, RuleView,
    UfwView,
};
use vstd::prelude::*;

verus! {

/// Whether a line says whether the firewall is on.
pub open spec fn is_status(line: Seq<char>) -> bool {
    starts_with(trim(line), "Status:"@)
}

/// The firewall that an output with two parts describes has the rules of the
/// first part and behind them those of the second, and is on where the last
/// status line says so.
pub proof fn firewall_is_read_part_by_part(x: Seq<char>, y: Seq<char>)
    requires
        x.len() > 0,
        x.last() == '\n',
    ensures
        state_of(lines(x + y)).rules == state_of(lines(x)).rules + state_of(lines(y)).rules,
        state_of(lines(x + y)).active == if exists|i: int|
            0 <= i < lines(y).len() && is_status(#[trigger] lines(y)[i]) {
            state_of(lines(y)).active
        } else {
            state_of(lines(x)).active
        },
{
    lemma_lines_of_sum(x, y);
    lemma_state_of_sum(lines(x), lines(y));
}

proof fn lemma_state_of_sum(a: Seq<Seq<char>>, b: Seq<Seq<char>>)
    ensures
        state_of(a + b).rules == state_of(a).rules + state_of(b).rules,
        state_of(a + b).active == if exists|i: int| 0 <= i < b.len() && is_status(#[trigger] b[i]) {
            state_of(b).active
        } else {
            state_of(a).active
        },
    decreases b.len(),
{
    if b.len() == 0 {
        assert(a + b =~= a);
        assert(state_of(a).rules + state_of(b).rules =~= state_of(a).rules);
    } else {
        let front = b.drop_last();
        assert((a + b).drop_last() =~= a + front);
        lemma_state_of_sum(a, front);
        assert(state_of(a + b).rules =~= state_of(a).rules + state_of(b).rules);
        if is_status(b.last()) {
            assert(is_status(b[b.len() - 1]));
        } else {
            if exists|i: int| 0 <= i < front.len() && is_status(#[trigger] front[i]) {
                let i = choose|i: int| 0 <= i < front.len() && is_status(#[trigger] front[i]);
                assert(is_status(b[i]));
            }
            if exists|i: int| 0 <= i < b.len() && is_status(#[trigger] b[i]) {
                let i = choose|i: int| 0 <= i < b.len() && is_status(#[trigger] b[i]);
                assert(is_status(front[i]));
            }
        }
    }
}

/// Every rule of a firewall stands in a line that lets traffic in, whatever a
/// comment in it says.
pub proof fn every_rule_stands_in_an_inbound_line(all: Seq<Seq<char>>, k: int)
    requires
        0 <= k < state_of(all).rules.len(),
    ensures
        exists|i: int|
            {
                &&& 0 <= i < all.len()
                &&& rule_of(trim(#[trigger] all[i])) == Some(state_of(all).rules[k])
                &&& lets_in(before(trim(all[i]), '#'))
            },
    decreases all.len(),
{
    let front = all.drop_last();
    let n = all.len() - 1;
    if k < state_of(front).rules.len() {
        every_rule_stands_in_an_inbound_line(front, k);
        let i = choose|i: int|
            {
                &&& 0 <= i < front.len()
                &&& rule_of(trim(#[trigger] front[i])) == Some(state_of(front).rules[k])
                &&& lets_in(before(trim(front[i]), '#'))
            };
        assert(all[i] == front[i]);
        assert(state_of(all).rules[k] == state_of(front).rules[k]);
    } else {
        assert(rule_of(trim(all[n])) == Some(state_of(all).rules[k]));
    }
}

/// The sockets that an output with two parts describes are those of the first
/// part and behind them those of the second.
pub proof fn sockets_are_read_part_by_part(
    x: Seq<char>,
    y: Seq<char>,
    state: Seq<char>,
    proto: Seq<char>,
)
    requires
        x.len() > 0,
        x.last() == '\n',
    ensures
        sockets_of(lines(x + y), state, proto) == sockets_of(lines(x), state, proto) + sockets_of(
            lines(y),
            state,
            proto,
        ),
{
    lemma_lines_of_sum(x, y);
    lemma_sockets_of_sum(lines(x), lines(y), state, proto);
}

proof fn lemma_sockets_of_sum(
    a: Seq<Seq<char>>,
    b: Seq<Seq<char>>,
    state: Seq<char>,
    proto: Seq<char>,
)
    ensures
        sockets_of(a + b, state, proto) == sockets_of(a, state, proto) + sockets_of(
            b,
            state,
            proto,
        ),
    decreases b.len(),
{
    if b.len() == 0 {
        assert(a + b =~= a);
    } else {
        assert((a + b).drop_last() =~= a + b.drop_last());
        lemma_sockets_of_sum(a, b.drop_last(), state, proto);
    }
    assert(sockets_of(a + b, state, proto) =~= sockets_of(a, state, proto) + sockets_of(
        b,
        state,
        proto,
    ));
}

/// There are no more sockets than lines, and each one has the protocol that was
/// asked for and stands in a line that begins with the state that was asked for.
pub proof fn every_socket_stands_in_a_line(
    all: Seq<Seq<char>>,
    state: Seq<char>,
    proto: Seq<char>,
    k: int,
)
    requires
        0 <= k < sockets_of(all, state, proto).len(),
    ensures
        sockets_of(all, state, proto).len() <= all.len(),
        sockets_of(all, state, proto)[k].proto == proto,
        exists|i: int|
            {
                &&& 0 <= i < all.len()
                &&& socket_of(#[trigger] all[i], state, proto) == Some(
                    sockets_of(all, state, proto)[k],
                )
            },
    decreases all.len(),
{
    lemma_no_more_sockets_than_lines(all, state, proto);
    let front = all.drop_last();
    let n = all.len() - 1;
    if k < sockets_of(front, state, proto).len() {
        every_socket_stands_in_a_line(front, state, proto, k);
        let i = choose|i: int|
            0 <= i < front.len() && socket_of(#[trigger] front[i], state, proto) == Some(
                sockets_of(front, state, proto)[k],
            );
        assert(all[i] == front[i]);
        assert(sockets_of(all, state, proto)[k] == sockets_of(front, state, proto)[k]);
    } else {
        assert(socket_of(all[n], state, proto) == Some(sockets_of(all, state, proto)[k]));
    }
}

proof fn lemma_no_more_sockets_than_lines(
    all: Seq<Seq<char>>,
    state: Seq<char>,
    proto: Seq<char>,
)
    ensures
        sockets_of(all, state, proto).len() <= all.len(),
    decreases all.len(),
{
    if all.len() > 0 {
        lemma_no_more_sockets_than_lines(all.drop_last(), state, proto);
    }
}

/// The publications that an output with two parts describes are those of the
/// first part and behind them those of the second.
pub proof fn publications_are_read_part_by_part(x: Seq<char>, y: Seq<char>)
    requires
        x.len() > 0,
        x.last() == '\n',
    ensures
        published(lines(x + y)) == published(lines(x)) + published(lines(y)),
{
    lemma_lines_of_sum(x, y);
    lemma_published_of_sum(lines(x), lines(y));
}

proof fn lemma_published_of_sum(a: Seq<Seq<char>>, b: Seq<Seq<char>>)
    ensures
        published(a + b) == published(a) + published(b),
    decreases b.len(),
{
    if b.len() == 0 {
        assert(a + b =~= a);
    } else {
        assert((a + b).drop_last() =~= a + b.drop_last());
        lemma_published_of_sum(a, b.drop_last());
    }
    assert(published(a + b) =~= published(a) + published(b));
}

/// The entries of a ports column are read one by one, whatever stands in them,
/// under the name before the tab.
pub proof fn entries_are_read_one_by_one(container: Seq<char>, entries: Seq<Seq<char>>)
    requires
        entries.len() > 0,
        forall|i: int, j: int|
            0 <= i < entries.len() && 0 <= j < entries[i].len() ==> #[trigger] entries[i][j] != ',',
        forall|j: int| 0 <= j < container.len() ==> #[trigger] container[j] != '\t',
    ensures
        field_ports(container, join(entries, seq![','])) == ports_of(container, entries),
        line_ports(container + seq!['\t'] + join(entries, seq![','])) == ports_of(
            container,
            entries,
        ),
{
    lemma_pieces_of_join(entries, ',');
    let field = join(entries, seq![',']);
    let line = container + seq!['\t'] + field;
    let n = container.len() as int;
    assert forall|i: int| 0 <= i < n implies other_than('\t')(#[trigger] line[i]) by {
        assert(line[i] == container[i]);
    }
    assert(line[n] == '\t');
    lemma_span_unique(line, other_than('\t'), n);
    assert(line.take(n) =~= container);
    assert(line.skip(n + 1) =~= field);
}

/// Every publication of a ports column carries the name of its container and one
/// of the two protocols, and there are no more of them than entries.
pub proof fn publications_carry_their_container(
    container: Seq<char>,
    entries: Seq<Seq<char>>,
    k: int,
)
    requires
        0 <= k < ports_of(container, entries).len(),
    ensures
        ports_of(container, entries).len() <= entries.len(),
        ports_of(container, entries)[k].container == container,
        is_proto(ports_of(container, entries)[k].proto),
    decreases entries.len(),
{
    lemma_no_more_ports_than_entries(container, entries);
    let front = entries.drop_last();
    if k < ports_of(container, front).len() {
        publications_carry_their_container(container, front, k);
        assert(ports_of(container, entries)[k] == ports_of(container, front)[k]);
    } else {
        let text = trim(entries.last());
        let m = mapping_match(text)->0;
        assert(is_mapping_match(text, m));
    }
}

proof fn lemma_no_more_ports_than_entries(container: Seq<char>, entries: Seq<Seq<char>>)
    ensures
        ports_of(container, entries).len() <= entries.len(),
    decreases entries.len(),
{
    if entries.len() > 0 {
        lemma_no_more_ports_than_entries(container, entries.drop_last());
    }
}

/// An entry without an arrow is no publication: the port stays in the container.
pub proof fn no_arrow_no_publication(container: Seq<char>, entry: Seq<char>)
    requires
        !contains(entry, "->"@),
    ensures
        port_of(container, entry) is None,
{
    let text = trim(entry);
    if let Some(m) = mapping_match(text) {
        assert(is_mapping_match(text, m));
        let i = choose|i: int|
            {
                &&& #[trigger] mapping_at(text, i, m)
                &&& forall|j: int, n: MappingMatch| j < i ==> !mapping_at(text, j, n)
            };
        let (inner, rest) = choose|inner: Seq<char>, rest: Seq<char>|
            mapping_reads(text.skip(i), m, inner, rest);
        let at = m.bind.len() as int + 1 + m.port.len();
        let k = i + at;
        reveal_strlit("->");
        let tail = text.skip(i);
        assert(tail[at] == '-');
        assert(tail[at + 1] == '>');
        assert(tail.len() >= at + 2);
        assert(text[k] == tail[at] && text[k + 1] == tail[at + 1]);
        assert(text.subrange(k, k + 2) =~= "->"@);
        assert(occurs_at(text, "->"@, k));
        lemma_trim_holds(entry, "->"@);
    }
}

/// Whether all of `s` is white space.
pub open spec fn is_blank(s: Seq<char>) -> bool {
    forall|i: int| 0 <= i < s.len() ==> is_space(#[trigger] s[i])
}

/// The digits of a number are digits, and none of them is white space.
proof fn lemma_decimal_digits(n: nat)
    ensures
        is_run(decimal(n), |c: char| is_digit(c)),
        forall|i: int| 0 <= i < decimal(n).len() ==> '0' <= #[trigger] decimal(n)[i] <= '9',
{
    lemma_numeral_value(n, 10);
    assert forall|i: int| 0 <= i < decimal(n).len() implies '0' <= #[trigger] decimal(n)[i]
        <= '9' by {
        assert(digit_of(decimal(n)[i]) < 10);
    }
}

/// A publication as an entry of a ports column writes it: the address and the
/// port on the host, an arrow, the port in the container and the protocol.
pub open spec fn written_publication(
    bind: Seq<char>,
    port: u16,
    inner: u16,
    proto: Seq<char>,
) -> Seq<char> {
    bind + seq![':'] + decimal(port as nat) + seq!['-', '>'] + decimal(inner as nat) + seq!['/']
        + proto
}

/// A publication reads back from its entry, with the address without brackets,
/// whatever white space stands around the entry.
pub proof fn a_written_publication_reads_back(
    container: Seq<char>,
    bind: Seq<char>,
    port: u16,
    inner: u16,
    proto: Seq<char>,
    lead: Seq<char>,
    trail: Seq<char>,
)
    requires
        is_bind(bind),
        is_proto(proto),
        is_blank(lead),
        is_blank(trail),
    ensures
        port_of(container, lead + written_publication(bind, port, inner, proto) + trail) == Some(
            DockerView { container, host_bind: unbracketed(bind), host_port: port, proto },
        ),
{
    let text = written_publication(bind, port, inner, proto);
    let m = MappingMatch { bind, port: decimal(port as nat), proto };
    lemma_decimal_digits(port as nat);
    lemma_decimal_digits(inner as nat);
    lemma_decimal_reads_back(port as nat, 0xffff);
    assert(text[0] == bind[0]);
    if is_run(bind, |c: char| is_dotted_char(c)) {
        let dotted = |c: char| is_dotted_char(c);
        assert(dotted(bind[0]));
    }
    assert(text.last() == proto.last());
    lemma_trim(lead, text, trail);
    assert(text.skip(0) =~= text);
    assert(text =~= text + seq![]);
    assert(mapping_reads(text.skip(0), m, decimal(inner as nat), seq![]));
    assert(mapping_at(text, 0, m));
    assert(is_mapping_match(text, m));
    lemma_mapping_match(text, m);
}

/// The process of a line reads back from where the line first names one: the name
/// in quotes, and the digits of the number.
pub proof fn a_written_process_reads_back(
    front: Seq<char>,
    name: Seq<char>,
    pid: u32,
    tail: Seq<char>,
)
    requires
        name.len() > 0,
        forall|i: int| 0 <= i < name.len() ==> #[trigger] name[i] != '"',
        tail.len() > 0 ==> !is_digit(tail[0]),
        forall|j: int|
            0 <= j < front.len() ==> !#[trigger] occurs_at(
                front + "users:((\""@,
                "users:((\""@,
                j,
            ),
    ensures
        ({
            let line = front + "users:((\""@ + name + "\",pid="@ + decimal(pid as nat) + tail;
            &&& process_of(line) == Some(name)
            &&& pid_of(line) == Some(pid)
        }),
{
    let head = "users:((\""@;
    let line = front + head + name + "\",pid="@ + decimal(pid as nat) + tail;
    let m = ProcessMatch { name, pid: decimal(pid as nat) };
    let n = front.len() as int;
    reveal_strlit("users:((\"");
    lemma_decimal_digits(pid as nat);
    lemma_decimal_reads_back(pid as nat, 0xffff_ffff);
    assert(line.skip(n) =~= head + name + "\",pid="@ + decimal(pid as nat) + tail);
    assert(process_reads(line.skip(n), m, tail));
    assert(process_at(line, n, m));
    assert forall|j: int, other: ProcessMatch| j < n implies !process_at(line, j, other) by {
        if process_at(line, j, other) {
            let rest = choose|rest: Seq<char>| process_reads(line.skip(j), other, rest);
            assert(line.skip(j).take(head.len() as int) =~= head);
            assert((front + head).subrange(j, j + head.len()) =~= line.skip(j).take(
                head.len() as int,
            )) by {
                assert(line.take(n + head.len()) =~= front + head);
            }
            assert(occurs_at(front + head, head, j));
        }
    }
    assert(is_process_match(line, m));
    lemma_process_match(line, m);
}

/// Whether `s` is a word: not empty and without white space.
pub open spec fn is_word(s: Seq<char>) -> bool {
    s.len() > 0 && forall|i: int| 0 <= i < s.len() ==> !is_space(#[trigger] s[i])
}

/// An address and a port with a colon between them, and with brackets around the
/// address where `bracketed` says so.
pub open spec fn written_endpoint(addr: Seq<char>, port: Seq<char>, bracketed: bool) -> Seq<char> {
    if bracketed {
        seq!['['] + addr + seq![']', ':'] + port
    } else {
        addr + seq![':'] + port
    }
}

/// Whether an address can be told from what stands around it in
/// [`written_endpoint`].
pub open spec fn is_endpoint_addr(addr: Seq<char>, bracketed: bool) -> bool {
    if bracketed {
        forall|i: int| 0 <= i < addr.len() ==> #[trigger] addr[i] != ']'
    } else {
        addr.len() > 0 ==> addr[0] != '['
    }
}

proof fn lemma_last_colon(addr: Seq<char>, port: Seq<char>)
    requires
        forall|i: int| 0 <= i < port.len() ==> #[trigger] port[i] != ':',
    ensures
        rfind(addr + seq![':'] + port, ':') == Some(addr.len() as int),
    decreases port.len(),
{
    let s = addr + seq![':'] + port;
    if port.len() > 0 {
        assert(s.last() == port.last());
        assert(s.drop_last() =~= addr + seq![':'] + port.drop_last());
        lemma_last_colon(addr, port.drop_last());
    } else {
        assert(s.last() == ':');
    }
}

/// An address and a port read back from the text with a colon between them, be
/// there brackets around the address or not, and colons in it or not.
pub proof fn a_written_endpoint_reads_back(addr: Seq<char>, port: Seq<char>, bracketed: bool)
    requires
        is_endpoint_addr(addr, bracketed),
        forall|i: int| 0 <= i < port.len() ==> #[trigger] port[i] != ':',
    ensures
        addr_port_of(written_endpoint(addr, port, bracketed)) == Some((addr, port)),
{
    let s = written_endpoint(addr, port, bracketed);
    let n = addr.len() as int;
    if bracketed {
        let rest = s.skip(1);
        assert forall|i: int| 0 <= i < n implies other_than(']')(#[trigger] rest[i]) by {
            assert(rest[i] == addr[i]);
        }
        assert(rest[n] == ']' && rest[n + 1] == ':');
        lemma_span_unique(rest, other_than(']'), n);
        assert(rest.take(n) =~= addr);
        assert(rest.skip(n + 2) =~= port);
    } else {
        assert(s[0] == if n > 0 { addr[0] } else { ':' });
        lemma_last_colon(addr, port);
        assert(s.take(n) =~= addr);
        assert(s.skip(n + 1) =~= port);
    }
}

/// Whether an address stands for every interface: 0.0.0.0 or ::.
pub open spec fn is_unspecified(ip: IpView) -> bool {
    match ip {
        IpView::V4(octets) => octets == seq![0u8, 0, 0, 0],
        IpView::V6(segments) => segments == zeros(8),
    }
}

/// A socket on an address is bound to every interface where the address stands
/// for that, to the loopback where the address is anywhere in 127.0.0.0/8 or is
/// ::1, and to that address elsewhere.
pub proof fn an_address_binds_as_itself(ip: IpView)
    requires
        is_ip(ip),
    ensures
        bind_of(ip_text(ip)) == if is_unspecified(ip) {
            BindView::Wildcard
        } else if is_loopback(ip) {
            BindView::Loopback
        } else {
            BindView::Specific(ip)
        },
{
    lemma_ip_reads_back(ip);
    lemma_wildcards();
    let v4 = IpView::V4(seq![0u8, 0, 0, 0]);
    let v6 = IpView::V6(zeros(8));
    lemma_ip_reads_back(v4);
    lemma_ip_reads_back(v6);
    if is_unspecified(ip) {
        assert(ip == v4 || ip == v6);
    }
}

proof fn lemma_wildcards()
    ensures
        ip_text(IpView::V4(seq![0u8, 0, 0, 0])) == "0.0.0.0"@,
        ip_text(IpView::V6(zeros(8))) == "::"@,
        ip_of("*"@) is None,
{
    reveal_strlit("0.0.0.0");
    assert(decimal(0) =~= seq!['0']);
    assert(v4_text(seq![0u8, 0, 0, 0]) =~= "0.0.0.0"@);
    reveal_strlit("::");
    let all = zeros(8);
    assert(zeros_at(all, 0) == 8) by {
        reveal_with_fuel(zeros_at, 9);
    }
    assert(longest_zeros(all, 8) == 0) by {
        reveal_with_fuel(zeros_at, 9);
        reveal_with_fuel(longest_zeros, 8);
    }
    assert(v6_text(all) =~= "::"@) by {
        assert(segment_texts(all.take(0)) =~= seq![]);
        assert(segment_texts(all.skip(8)) =~= seq![]);
    }
    reveal_strlit("*");
    let star = "*"@;
    lemma_one_piece(star, '.');
    lemma_one_piece(star, ':');
    lemma_find(star, colons());
    assert(digit_of(star[0]) == 16);
    assert(parts_of(seq![star], true) is None);
}

/// An address that is not recognized counts as every interface, never as the
/// loopback.
pub proof fn an_unrecognized_address_is_wide(addr: Seq<char>)
    requires
        ip_of(addr) is None,
    ensures
        bind_of(addr) is Wildcard,
{
}

/// A socket reads back from its line: the state, two more words, the endpoint and
/// whatever follows it, with white space between them.
pub proof fn a_written_socket_reads_back(
    lead: Seq<char>,
    state: Seq<char>,
    gap1: Seq<char>,
    received: Seq<char>,
    gap2: Seq<char>,
    sent: Seq<char>,
    gap3: Seq<char>,
    addr: Seq<char>,
    port: u16,
    bracketed: bool,
    tail: Seq<char>,
    proto: Seq<char>,
)
    requires
        is_blank(lead),
        is_word(state),
        is_blank(gap1) && gap1.len() > 0,
        is_word(received),
        is_blank(gap2) && gap2.len() > 0,
        is_word(sent),
        is_blank(gap3) && gap3.len() > 0,
        forall|i: int| 0 <= i < addr.len() ==> !is_space(#[trigger] addr[i]),
        is_endpoint_addr(addr, bracketed),
        tail.len() > 0 ==> is_space(tail[0]),
    ensures
        ({
            let endpoint = written_endpoint(addr, decimal(port as nat), bracketed);
            let line = lead + state + (gap1 + received + (gap2 + sent + (gap3 + endpoint + tail)));
            socket_of(line, state, proto) == Some(
                SocketView {
                    proto,
                    addr: bind_of(addr),
                    port,
                    process: process_of(line),
                    pid: pid_of(line),
                },
            )
        }),
{
    let digits = decimal(port as nat);
    let endpoint = written_endpoint(addr, digits, bracketed);
    let r3 = gap3 + endpoint + tail;
    let r2 = gap2 + sent + r3;
    let r1 = gap1 + received + r2;
    let line = lead + state + r1;
    lemma_decimal_digits(port as nat);
    lemma_decimal_reads_back(port as nat, 0xffff);
    assert(is_word(endpoint)) by {
        let shift: int = if bracketed {
            1
        } else {
            0
        };
        assert forall|i: int| 0 <= i < endpoint.len() implies !is_space(#[trigger] endpoint[i]) by {
            let k = i - shift;
            if 0 <= k < addr.len() {
                assert(endpoint[i] == addr[k]);
            } else if k >= addr.len() + shift + 1 {
                assert(endpoint[i] == digits[k - addr.len() - shift - 1]);
            }
        }
    }
    assert(r1[0] == gap1[0] && r2[0] == gap2[0] && r3[0] == gap3[0]);
    lemma_first_word(lead, state, r1);
    lemma_first_word(gap1, received, r2);
    lemma_first_word(gap2, sent, r3);
    lemma_first_word(gap3, endpoint, tail);
    assert(words(line)[3] == endpoint);
    a_written_endpoint_reads_back(addr, digits, bracketed);
    assert forall|i: int| 0 <= i < lead.len() implies space()(#[trigger] line[i]) by {
        assert(line[i] == lead[i]);
    }
    assert(line[lead.len() as int] == state[0]);
    lemma_span_unique(line, space(), lead.len() as int);
    assert(trim_start(line).subrange(0, state.len() as int) =~= state);
}

/// The `To` column of a rule: the destination address and white space where the
/// rule names one, the port, a slash and the protocol.
pub open spec fn written_target(rule: RuleView, gap: Seq<char>) -> Seq<char> {
    let port = decimal(rule.port as nat) + seq!['/'] + rule.proto;
    match rule.dest {
        Some(dest) => dest + gap + port,
        None => port,
    }
}

/// A rule in a line of its own: the `To` column, `more`, the action, the `From`
/// column and a comment or nothing.
pub open spec fn written_rule(
    rule: RuleView,
    gap: Seq<char>,
    more: Seq<char>,
    gap2: Seq<char>,
    gap3: Seq<char>,
    comment: Seq<char>,
) -> Seq<char> {
    written_target(rule, gap) + more + ("ALLOW IN"@ + (gap2 + rule.source + gap3 + comment))
}

/// Whether the `To` column of a rule can be told from what stands behind it: its
/// protocol is one of the two, and its destination is made of the characters of an
/// address.
pub open spec fn has_target(rule: RuleView) -> bool {
    &&& is_proto(rule.proto)
    &&& rule.dest is Some ==> is_run(rule.dest->0, |c: char| is_addr_char(c))
}

/// Whether a rule can be told from what stands around it in [`written_rule`]: its
/// `To` column can, and its source neither begins nor ends with white space and
/// holds no comment and no second action.
pub open spec fn is_writable(rule: RuleView) -> bool {
    &&& has_target(rule)
    &&& rule.source.len() > 0
    &&& !is_space(rule.source[0])
    &&& !is_space(rule.source.last())
    &&& forall|i: int| 0 <= i < rule.source.len() ==> #[trigger] rule.source[i] != '#'
    &&& !contains(rule.source, "ALLOW IN"@)
    &&& !contains(rule.source, "ALLOW OUT"@)
}

/// The `To` column begins with no white space and no capital S, holds no L and no
/// comment sign, and ends with a p.
proof fn lemma_target(rule: RuleView, gap: Seq<char>)
    requires
        has_target(rule),
        is_blank(gap),
    ensures
        written_target(rule, gap).len() > 0,
        !is_space(written_target(rule, gap)[0]),
        written_target(rule, gap)[0] != 'S',
        written_target(rule, gap).last() == 'p',
        forall|i: int|
            0 <= i < written_target(rule, gap).len() ==> #[trigger] written_target(rule, gap)[i]
                != 'L' && written_target(rule, gap)[i] != '#',
{
    let digits = decimal(rule.port as nat);
    let port = digits + seq!['/'] + rule.proto;
    let addr = |c: char| is_addr_char(c);
    let s = written_target(rule, gap);
    lemma_decimal_digits(rule.port as nat);
    assert(port[0] == digits[0]);
    assert(port.last() == rule.proto.last());
    assert forall|i: int| 0 <= i < port.len() implies #[trigger] port[i] != 'L' && port[i]
        != '#' by {
        if i < digits.len() {
            assert(port[i] == digits[i]);
        } else if i > digits.len() {
            assert(port[i] == rule.proto[i - digits.len() - 1]);
        }
    }
    if let Some(dest) = rule.dest {
        assert(s[0] == dest[0] && addr(dest[0]));
        assert(s.last() == port.last());
        assert forall|i: int| 0 <= i < s.len() implies #[trigger] s[i] != 'L' && s[i] != '#' by {
            if i < dest.len() {
                assert(s[i] == dest[i] && addr(dest[i]));
            } else if i < dest.len() + gap.len() {
                assert(s[i] == gap[i - dest.len()]);
            } else {
                assert(s[i] == port[i - dest.len() - gap.len()]);
            }
        }
    }
}

/// The source reads back from what stands behind the `To` column, and the line
/// lets traffic in.
#[verifier::spinoff_prover]
#[verifier::rlimit(60)]
proof fn lemma_source(
    target: Seq<char>,
    more: Seq<char>,
    gap2: Seq<char>,
    source: Seq<char>,
    gap3: Seq<char>,
    comment: Seq<char>,
)
    requires
        target.len() > 0,
        target.last() == 'p',
        forall|i: int| 0 <= i < target.len() ==> #[trigger] target[i] != 'L' && target[i] != '#',
        forall|i: int| 0 <= i < more.len() ==> #[trigger] more[i] != 'A' && more[i] != '#',
        is_blank(gap2),
        is_blank(gap3),
        source.len() > 0,
        !is_space(source[0]),
        !is_space(source.last()),
        forall|i: int| 0 <= i < source.len() ==> #[trigger] source[i] != '#',
        !contains(source, "ALLOW IN"@),
        !contains(source, "ALLOW OUT"@),
        comment.len() > 0 ==> comment[0] == '#',
    ensures
        ({
            let line = target + more + ("ALLOW IN"@ + (gap2 + source + gap3 + comment));
            &&& lets_in(before(line, '#'))
            &&& source_of(before(line, '#')) == source
        }),
{
    reveal_strlit("ALLOW IN");
    reveal_strlit("ALLOW OUT");
    let action = "ALLOW IN"@;
    let outbound = "ALLOW OUT"@;
    let column = gap2 + source + gap3;
    let rule = target + more + (action + column);
    let line = target + more + (action + (column + comment));
    let n = target.len() as int;
    let at = n + more.len();
    assert(line =~= rule + comment);
    assert(before(line, '#') == rule) by {
        assert forall|j: int| 0 <= j < rule.len() implies other_than('#')(#[trigger] line[j]) by {
            let k = j - at - 8;
            if j < n {
                assert(line[j] == target[j]);
            } else if j < at {
                assert(line[j] == more[j - n]);
            } else if j < at + 8 {
                assert(line[j] == action[j - at]);
            } else if k < gap2.len() {
                assert(line[j] == gap2[k]);
            } else if k < gap2.len() + source.len() {
                assert(line[j] == source[k - gap2.len()]);
            } else {
                assert(line[j] == gap3[k - gap2.len() - source.len()]);
            }
        }
        if comment.len() > 0 {
            assert(line[rule.len() as int] == comment[0]);
        }
        lemma_span_unique(line, other_than('#'), rule.len() as int);
        assert(line.take(rule.len() as int) =~= rule);
    }
    assert(rule.subrange(at, at + 8) =~= action);
    assert(occurs_at(rule, action, at));
    assert forall|j: int| 0 <= j < at implies !#[trigger] occurs_at(rule, action, j) by {
        lemma_no_action_before(target, more, action + column, action, j);
    }
    lemma_find_unique(rule, action, at);
    assert(rule.skip(at + 8) =~= column);
    lemma_find(column, action);
    if let Some(j) = find(column, action) {
        lemma_no_action(gap2, source, gap3, action, j);
    }
    assert(!contains(rule, outbound)) by {
        if contains(rule, outbound) {
            let j = choose|j: int| occurs_at(rule, outbound, j);
            let found = rule.subrange(j, j + 9);
            assert(found[0] == rule[j] && found[6] == rule[j + 6]);
            if j < at {
                lemma_no_action_before(target, more, action + column, outbound, j);
            } else if j < at + 8 {
                assert(rule[j] == action[j - at]);
                assert(rule[at + 6] == action[6]);
            } else {
                let k = j - at - 8;
                assert(column.subrange(k, k + 9) =~= found);
                lemma_no_action(gap2, source, gap3, outbound, k);
            }
        }
    }
    lemma_trim(gap2, source, gap3);
}

/// No action begins in a `To` column, nor in what stands between it and the first
/// capital A.
proof fn lemma_no_action_before(
    target: Seq<char>,
    more: Seq<char>,
    rest: Seq<char>,
    action: Seq<char>,
    j: int,
)
    requires
        target.len() > 0,
        target.last() == 'p',
        forall|i: int| 0 <= i < target.len() ==> #[trigger] target[i] != 'L' && target[i] != '#',
        forall|i: int| 0 <= i < more.len() ==> #[trigger] more[i] != 'A' && more[i] != '#',
        action.len() >= 2,
        action[0] == 'A',
        action[1] == 'L',
        j < target.len() + more.len(),
    ensures
        !occurs_at(target + more + rest, action, j),
{
    let s = target + more + rest;
    let n = target.len() as int;
    if occurs_at(s, action, j) {
        let found = s.subrange(j, j + action.len());
        assert(found[0] == s[j] && found[1] == s[j + 1]);
        if j < n - 1 {
            assert(s[j + 1] == target[j + 1]);
        } else if j == n - 1 {
            assert(s[j] == target.last());
        } else {
            assert(s[j] == more[j - n]);
        }
    }
}

/// What does not stand in a source does not stand in it with white space around
/// it, unless it begins or ends with white space itself.
proof fn lemma_no_action(
    gap2: Seq<char>,
    source: Seq<char>,
    gap3: Seq<char>,
    action: Seq<char>,
    j: int,
)
    requires
        is_blank(gap2),
        is_blank(gap3),
        action.len() > 0,
        !is_space(action[0]),
        !is_space(action.last()),
        !contains(source, action),
    ensures
        !occurs_at(gap2 + source + gap3, action, j),
{
    let s = gap2 + source + gap3;
    let n = action.len() as int;
    let a = gap2.len() as int;
    let b = a + source.len();
    if occurs_at(s, action, j) {
        let found = s.subrange(j, j + n);
        assert(found == action);
        assert(found[0] == s[j] && found[n - 1] == s[j + n - 1]);
        if j < a {
            assert(s[j] == gap2[j]);
        } else if j + n <= b {
            assert(source.subrange(j - a, j - a + n) =~= found);
            assert(occurs_at(source, action, j - a));
        } else {
            assert(s[j + n - 1] == gap3[j + n - 1 - b]);
        }
    }
}

/// What stands in the `To` column reads back, whatever follows it.
proof fn lemma_rule_reads_back(rule: RuleView, gap: Seq<char>, rest: Seq<char>)
    requires
        has_target(rule),
        is_blank(gap) && gap.len() > 0,
        lets_in(before(written_target(rule, gap) + rest, '#')),
        source_of(before(written_target(rule, gap) + rest, '#')) == rule.source,
    ensures
        rule_of(written_target(rule, gap) + rest) == Some(rule),
        !starts_with(written_target(rule, gap) + rest, "Status:"@),
{
    let target = written_target(rule, gap);
    let line = target + rest;
    lemma_target(rule, gap);
    assert(line[0] == target[0]);
    assert(!starts_with(line, "Status:"@)) by {
        reveal_strlit("Status:");
        if starts_with(line, "Status:"@) {
            assert(line.subrange(0, 7)[0] == line[0]);
        }
    }
    let m = RuleMatch { dest: rule.dest, port: decimal(rule.port as nat), proto: rule.proto };
    lemma_decimal_digits(rule.port as nat);
    lemma_decimal_reads_back(rule.port as nat, 0xffff);
    assert(rule_reads(line, m, gap, rest)) by {
        match rule.dest {
            Some(dest) => {
                assert(line =~= dest + gap + m.port + seq!['/'] + m.proto + rest);
            },
            None => {
                assert(line =~= m.port + seq!['/'] + m.proto + rest);
            },
        }
    }
    assert(is_rule_match(line, m));
    lemma_rule_match(line, m);
    assert(transport(rule.proto) == rule.proto) by {
        reveal_strlit("tcp");
        reveal_strlit("udp");
        assert("tcp"@ =~= seq!['t', 'c', 'p']);
        assert("udp"@ =~= seq!['u', 'd', 'p']);
    }
}

/// A rule reads back from its line, whatever white space stands in it and around
/// it, and whatever a comment behind it says.
pub proof fn a_written_rule_reads_back(
    state: UfwView,
    rule: RuleView,
    lead: Seq<char>,
    gap: Seq<char>,
    more: Seq<char>,
    gap2: Seq<char>,
    gap3: Seq<char>,
    comment: Seq<char>,
    trail: Seq<char>,
)
    requires
        is_writable(rule),
        is_blank(lead) && is_blank(gap2) && is_blank(gap3) && is_blank(trail),
        is_blank(gap) && gap.len() > 0,
        forall|i: int| 0 <= i < more.len() ==> #[trigger] more[i] != 'A' && more[i] != '#',
        comment.len() > 0 ==> comment[0] == '#',
        !is_space(written_rule(rule, gap, more, gap2, gap3, comment).last()),
    ensures
        after_line(state, lead + written_rule(rule, gap, more, gap2, gap3, comment) + trail)
            == (UfwView { active: state.active, rules: state.rules.push(rule) }),
{
    let target = written_target(rule, gap);
    let line = written_rule(rule, gap, more, gap2, gap3, comment);
    lemma_target(rule, gap);
    lemma_source(target, more, gap2, rule.source, gap3, comment);
    assert(line[0] == target[0]);
    lemma_trim(lead, line, trail);
    let rest = more + ("ALLOW IN"@ + (gap2 + rule.source + gap3 + comment));
    assert(line =~= target + rest);
    lemma_rule_reads_back(rule, gap, rest);
}

/// A line that allows traffic without naming a direction is a rule with an empty
/// source, so it never opens a port to everybody.
pub proof fn an_undirected_rule_reads_back_without_a_source(
    state: UfwView,
    rule: RuleView,
    lead: Seq<char>,
    gap: Seq<char>,
    rest: Seq<char>,
    trail: Seq<char>,
)
    requires
        has_target(rule),
        rule.source == Seq::<char>::empty(),
        is_blank(lead) && is_blank(trail),
        is_blank(gap) && gap.len() > 0,
        !is_space((written_target(rule, gap) + rest).last()),
        contains(before(written_target(rule, gap) + rest, '#'), "ALLOW"@),
        !contains(before(written_target(rule, gap) + rest, '#'), "ALLOW IN"@),
        !contains(before(written_target(rule, gap) + rest, '#'), "OUT"@),
        !contains(before(written_target(rule, gap) + rest, '#'), "ALLOW FWD"@),
    ensures
        after_line(state, lead + (written_target(rule, gap) + rest) + trail) == (UfwView {
            active: state.active,
            rules: state.rules.push(rule),
        }),
        !fully_open(rule),
{
    let target = written_target(rule, gap);
    let line = target + rest;
    lemma_target(rule, gap);
    assert(line[0] == target[0]);
    lemma_trim(lead, line, trail);
    lemma_find(before(line, '#'), "ALLOW IN"@);
    lemma_rule_reads_back(rule, gap, rest);
    reveal_strlit("Anywhere");
}

/// The publications of a column are those of its entries, one by one and in order,
/// however many there are: those of two lists of entries one behind the other are
/// those of the first and behind them those of the second, and one entry has the
/// publication that it describes.
pub proof fn publications_go_entry_by_entry(
    container: Seq<char>,
    a: Seq<Seq<char>>,
    b: Seq<Seq<char>>,
    entry: Seq<char>,
)
    ensures
        ports_of(container, a + b) == ports_of(container, a) + ports_of(container, b),
        ports_of(container, seq![entry]) == match port_of(container, entry) {
            Some(port) => seq![port],
            None => seq![],
        },
        ports_of(container, a.push(entry)) == match port_of(container, entry) {
            Some(port) => ports_of(container, a).push(port),
            None => ports_of(container, a),
        },
{
    lemma_ports_of_sum(container, a, b);
    lemma_ports_of_sum(container, a, seq![entry]);
    assert(a.push(entry) =~= a + seq![entry]);
    reveal_with_fuel(ports_of, 2);
    assert(seq![entry].drop_last() =~= seq![]);
    let one = match port_of(container, entry) {
        Some(port) => seq![port],
        None => seq![],
    };
    assert(ports_of(container, seq![entry]) =~= one);
    assert(ports_of(container, a) + seq![] =~= ports_of(container, a));
    if let Some(port) = port_of(container, entry) {
        assert(ports_of(container, a) + seq![port] =~= ports_of(container, a).push(port));
    }
}

proof fn lemma_ports_of_sum(container: Seq<char>, a: Seq<Seq<char>>, b: Seq<Seq<char>>)
    ensures
        ports_of(container, a + b) == ports_of(container, a) + ports_of(container, b),
    decreases b.len(),
{
    if b.len() == 0 {
        assert(a + b =~= a);
    } else {
        assert((a + b).drop_last() =~= a + b.drop_last());
        lemma_ports_of_sum(container, a, b.drop_last());
    }
    assert(ports_of(container, a + b) =~= ports_of(container, a) + ports_of(container, b));
}

/// A publication carries what its entry says: the address without brackets, the
/// port on the host where its digits are a number of the range and 0 elsewhere, and
/// the protocol. An entry in which nothing can be read is no publication.
pub proof fn a_publication_is_told_by_its_entry(
    container: Seq<char>,
    entry: Seq<char>,
    m: MappingMatch,
)
    ensures
        is_mapping_match(trim(entry), m) ==> port_of(container, entry) == Some(
            DockerView {
                container,
                host_bind: if m.bind[0] == '[' {
                    m.bind.subrange(1, m.bind.len() - 1)
                } else {
                    m.bind
                },
                host_port: if is_numeral(m.port, 10) && value(m.port, 10) <= 0xffff {
                    value(m.port, 10) as u16
                } else {
                    0
                },
                proto: m.proto,
            },
        ),
        (forall|n: MappingMatch| !is_mapping_match(trim(entry), n)) ==> port_of(
            container,
            entry,
        ) is None,
{
    if is_mapping_match(trim(entry), m) {
        lemma_mapping_match(trim(entry), m);
        lemma_no_sign(m.port);
    }
}

/// A run of digits has no sign before it.
proof fn lemma_no_sign(s: Seq<char>)
    requires
        is_run(s, |c: char| is_digit(c)),
    ensures
        s[0] != '+',
{
    let digit = |c: char| is_digit(c);
    assert(digit(s[0]));
}

/// A line without a tab has no publications; one line is read as its container
/// and its column are.
pub proof fn publications_need_a_tab(line: Seq<char>)
    ensures
        published(seq![line]) == line_ports(line),
        (forall|i: int| 0 <= i < line.len() ==> #[trigger] line[i] != '\t') ==> line_ports(
            line,
        ).len() == 0,
{
    reveal_with_fuel(published, 2);
    assert(seq![line].drop_last() =~= seq![]);
    assert(published(seq![line]) =~= line_ports(line));
    if forall|i: int| 0 <= i < line.len() ==> #[trigger] line[i] != '\t' {
        lemma_span_unique(line, other_than('\t'), line.len() as int);
    }
}

/// A socket stands in a line exactly where the line begins with the state, has at
/// least four words, and the fourth is an address and a port of the range; the
/// socket is on that address and that port.
pub proof fn a_socket_is_told_by_its_line(line: Seq<char>, state: Seq<char>, proto: Seq<char>)
    ensures
        !state.is_prefix_of(trim_start(line)) ==> socket_of(line, state, proto) is None,
        words(line).len() < 4 ==> socket_of(line, state, proto) is None,
        state.is_prefix_of(trim_start(line)) && words(line).len() >= 4 ==> socket_of(
            line,
            state,
            proto,
        ) == match addr_port_of(words(line)[3]) {
            Some((addr, digits)) => match unsigned(digits, 0xffff) {
                Some(port) => Some(
                    SocketView {
                        proto,
                        addr: bind_of(addr),
                        port: port as u16,
                        process: process_of(line),
                        pid: pid_of(line),
                    },
                ),
                None => None,
            },
            None => None,
        },
        sockets_of(seq![line], state, proto) == match socket_of(line, state, proto) {
            Some(socket) => seq![socket],
            None => seq![],
        },
{
    let t = trim_start(line);
    let n = state.len() as int;
    if n <= t.len() {
        assert(t.subrange(0, 0 + n) =~= t.subrange(0, n));
    }
    reveal_with_fuel(sockets_of, 2);
    assert(seq![line].drop_last() =~= seq![]);
    assert(sockets_of(seq![line], state, proto) =~= match socket_of(line, state, proto) {
        Some(socket) => seq![socket],
        None => seq![],
    });
}

/// The process of a line is what can be read where the line first names one: its
/// name, and its number where that fits its range. Where nothing can be read there
/// is neither.
pub proof fn a_process_is_told_by_its_line(line: Seq<char>, m: ProcessMatch)
    ensures
        is_process_match(line, m) ==> process_of(line) == Some(m.name) && pid_of(line) == (
        if is_numeral(m.pid, 10) && value(m.pid, 10) <= 0xffff_ffff {
            Some(value(m.pid, 10) as u32)
        } else {
            None
        }),
        (forall|n: ProcessMatch| !is_process_match(line, n)) ==> process_of(line) is None && pid_of(
            line,
        ) is None,
{
    if is_process_match(line, m) {
        lemma_process_match(line, m);
        lemma_no_sign(m.pid);
    }
}

/// In brackets, the address ends at the first closing bracket, and a colon must
/// follow it; without a closing bracket nothing splits.
pub proof fn a_bracketed_endpoint_splits_at_its_bracket(addr: Seq<char>, rest: Seq<char>)
    requires
        forall|i: int| 0 <= i < addr.len() ==> #[trigger] addr[i] != ']',
    ensures
        addr_port_of(seq!['['] + addr + seq![']'] + rest) == if rest.len() > 0 && rest[0] == ':' {
            Some((addr, rest.skip(1)))
        } else {
            None
        },
        addr_port_of(seq!['['] + addr) is None,
{
    let s = seq!['['] + addr + seq![']'] + rest;
    let n = addr.len() as int;
    let inner = s.skip(1);
    assert forall|i: int| 0 <= i < n implies other_than(']')(#[trigger] inner[i]) by {
        assert(inner[i] == addr[i]);
    }
    assert(inner[n] == ']');
    lemma_span_unique(inner, other_than(']'), n);
    assert(inner.take(n) =~= addr);
    if rest.len() > 0 {
        assert(inner[n + 1] == rest[0]);
        assert(inner.skip(n + 2) =~= rest.skip(1));
    }
    let open = (seq!['['] + addr).skip(1);
    assert(open =~= addr);
    lemma_span_unique(open, other_than(']'), n);
}

/// Without a bracket, the last colon separates the address from the port; without
/// a colon nothing splits.
pub proof fn a_plain_endpoint_splits_at_its_last_colon(addr: Seq<char>, port: Seq<char>)
    requires
        addr.len() > 0 ==> addr[0] != '[',
        forall|i: int| 0 <= i < port.len() ==> #[trigger] port[i] != ':',
    ensures
        addr_port_of(addr + seq![':'] + port) == Some((addr, port)),
        port.len() > 0 && port[0] == '[' || addr_port_of(port) is None,
{
    a_written_endpoint_reads_back(addr, port, false);
    lemma_no_colon(port);
}

proof fn lemma_no_colon(s: Seq<char>)
    requires
        forall|i: int| 0 <= i < s.len() ==> #[trigger] s[i] != ':',
    ensures
        rfind(s, ':') is None,
    decreases s.len(),
{
    if s.len() > 0 {
        assert(s.last() == s[s.len() - 1]);
        lemma_no_colon(s.drop_last());
    }
}

/// What an address binds a socket to is told by its bytes, however it is written:
/// an address of version 4 is the loopback exactly where its first byte is 127, and
/// one of version 6 exactly where it is ::1; any other is itself, unless it is
/// written as one of the names of every interface.
#[verifier::spinoff_prover]
#[verifier::rlimit(60)]
pub proof fn a_bind_is_told_by_the_bytes(addr: Seq<char>)
    ensures
        match ip_of(addr) {
            Some(IpView::V4(octets)) => bind_of(addr) == if octets[0] == 127 {
                BindView::Loopback
            } else if addr == "0.0.0.0"@ {
                BindView::Wildcard
            } else {
                BindView::Specific(IpView::V4(octets))
            },
            Some(IpView::V6(segments)) => bind_of(addr) == if segments == seq![
                0u16,
                0,
                0,
                0,
                0,
                0,
                0,
                1,
            ] {
                BindView::Loopback
            } else if addr == "::"@ {
                BindView::Wildcard
            } else {
                BindView::Specific(IpView::V6(segments))
            },
            None => bind_of(addr) == BindView::Wildcard,
        },
{
    let v4 = IpView::V4(seq![0u8, 0, 0, 0]);
    let v6 = IpView::V6(zeros(8));
    lemma_wildcards();
    lemma_ip_reads_back(v4);
    lemma_ip_reads_back(v6);
    assert(zeros(8)[7] == 0);
    assert(seq![0u8, 0, 0, 0][0] == 0);
    assert(seq![0u16, 0, 0, 0, 0, 0, 0, 1][7] == 1);
}

/// The bind of the text of an address is the loopback exactly where the first byte
/// is 127, or the segments are 0, 0, 0, 0, 0, 0, 0 and 1.
pub proof fn loopback_is_told_by_the_bytes(octets: Seq<u8>, segments: Seq<u16>)
    requires
        octets.len() == 4,
        segments.len() == 8,
    ensures
        bind_of(ip_text(IpView::V4(octets))) is Loopback <==> octets[0] == 127,
        bind_of(ip_text(IpView::V6(segments))) is Loopback <==> segments == seq![
            0u16,
            0,
            0,
            0,
            0,
            0,
            0,
            1,
        ],
{
    lemma_ip_reads_back(IpView::V4(octets));
    lemma_ip_reads_back(IpView::V6(segments));
    a_bind_is_told_by_the_bytes(ip_text(IpView::V4(octets)));
    a_bind_is_told_by_the_bytes(ip_text(IpView::V6(segments)));
}

/// A line is a rule exactly where what stands before its comment allows inbound
/// traffic and begins with a port of the range; the rule has the port, the protocol
/// and the destination that the line begins with, and its source.
pub proof fn a_rule_is_told_by_its_line(
    rule: Seq<char>,
    comment: Seq<char>,
    m: RuleMatch,
)
    requires
        forall|i: int| 0 <= i < rule.len() ==> #[trigger] rule[i] != '#',
        comment.len() > 0 ==> comment[0] == '#',
    ensures
        is_rule_match(rule + comment, m) ==> rule_of(rule + comment) == if (if contains(
            rule,
            "ALLOW IN"@,
        ) {
            !contains(rule, "ALLOW OUT"@)
        } else {
            contains(rule, "ALLOW"@) && !contains(rule, "OUT"@) && !contains(rule, "ALLOW FWD"@)
        }) && is_numeral(m.port, 10) && value(m.port, 10) <= 0xffff {
            Some(
                RuleView {
                    port: value(m.port, 10) as u16,
                    proto: m.proto,
                    dest: m.dest,
                    source: source_of(rule),
                },
            )
        } else {
            None
        },
        (forall|n: RuleMatch| !is_rule_match(rule + comment, n)) ==> rule_of(
            rule + comment,
        ) is None,
{
    let line = rule + comment;
    assert forall|i: int| 0 <= i < rule.len() implies other_than('#')(#[trigger] line[i]) by {
        assert(line[i] == rule[i]);
    }
    if comment.len() > 0 {
        assert(line[rule.len() as int] == comment[0]);
    }
    lemma_span_unique(line, other_than('#'), rule.len() as int);
    assert(before(line, '#') =~= rule);
    if is_rule_match(line, m) {
        lemma_rule_match(line, m);
        let (gap, rest) = choose|gap: Seq<char>, rest: Seq<char>| rule_reads(line, m, gap, rest);
        lemma_no_sign(m.port);
        reveal_strlit("tcp");
        reveal_strlit("udp");
        assert("tcp"@ =~= seq!['t', 'c', 'p']);
        assert("udp"@ =~= seq!['u', 'd', 'p']);
    }
}

/// The source of a rule is what follows the first "ALLOW IN", up to the next one
/// where there is one, without the white space around it; it is empty where there
/// is none.
pub proof fn a_source_is_what_follows_the_action(a: Seq<char>, c: Seq<char>, d: Seq<char>)
    requires
        forall|j: int|
            0 <= j < a.len() ==> !#[trigger] occurs_at(a + "ALLOW IN"@, "ALLOW IN"@, j),
    ensures
        !contains(c, "ALLOW IN"@) ==> source_of(a + "ALLOW IN"@ + c) == trim(c),
        (forall|j: int|
            0 <= j < c.len() ==> !#[trigger] occurs_at(c + "ALLOW IN"@, "ALLOW IN"@, j))
            ==> source_of(a + "ALLOW IN"@ + (c + "ALLOW IN"@ + d)) == trim(c),
        !contains(d, "ALLOW IN"@) ==> source_of(d).len() == 0,
{
    let action = "ALLOW IN"@;
    lemma_find(d, action);
    lemma_find(c, action);
    lemma_first_action(a, c);
    lemma_first_action(a, c + action + d);
    if forall|j: int| 0 <= j < c.len() ==> !#[trigger] occurs_at(c + action, action, j) {
        lemma_first_action(c, d);
        assert((c + action + d).take(c.len() as int) =~= c);
    }
}

/// The first action stays the first one, whatever follows it.
proof fn lemma_first_action(a: Seq<char>, b: Seq<char>)
    requires
        forall|j: int|
            0 <= j < a.len() ==> !#[trigger] occurs_at(a + "ALLOW IN"@, "ALLOW IN"@, j),
    ensures
        find(a + "ALLOW IN"@ + b, "ALLOW IN"@) == Some(a.len() as int),
        (a + "ALLOW IN"@ + b).skip(a.len() + "ALLOW IN"@.len() as int) == b,
{
    let action = "ALLOW IN"@;
    let s = a + action + b;
    let n = a.len() as int;
    let k = action.len() as int;
    assert(s.subrange(n, n + k) =~= action);
    assert forall|j: int| 0 <= j < n implies !#[trigger] occurs_at(s, action, j) by {
        assert(!occurs_at(a + action, action, j));
        assert(s.subrange(j, j + k) =~= (a + action).subrange(j, j + k));
    }
    lemma_find_unique(s, action, n);
    assert(s.skip(n + k) =~= b);
}

/// A line that begins with "Status:" says whether the firewall is on, and is no
/// rule; any other line leaves that as it is, and adds its rule where it is one.
pub proof fn a_line_is_a_status_or_a_rule(state: UfwView, line: Seq<char>, status: Seq<char>)
    ensures
        trim(line) == "Status:"@ + status ==> after_line(state, line) == (UfwView {
            active: trim(status) == "active"@,
            rules: state.rules,
        }),
        !"Status:"@.is_prefix_of(trim(line)) ==> after_line(state, line) == (UfwView {
            active: state.active,
            rules: match rule_of(trim(line)) {
                Some(rule) => state.rules.push(rule),
                None => state.rules,
            },
        }),
        state_of(seq![line]) == after_line(UfwView { active: false, rules: seq![] }, line),
        state_of(seq![]) == (UfwView { active: false, rules: seq![] }),
{
    let t = trim(line);
    let head = "Status:"@;
    let n = head.len() as int;
    if t == head + status {
        assert(t.subrange(0, 0 + n) =~= head);
        assert(t.skip(n) =~= status);
    }
    if n <= t.len() {
        assert(t.subrange(0, 0 + n) =~= t.subrange(0, n));
    }
    reveal_with_fuel(state_of, 2);
    assert(seq![line].drop_last() =~= seq![]);
}

} // verus!
