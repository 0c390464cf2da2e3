//! The regular expressions of the parsers, and what a match of each one reads.
use crate::text::{is_space, lemma_span_unique, span, text_view};
use vstd::prelude::*;

verus! {

/// The start of a firewall rule: an address and white space, or neither; then a
/// port, a slash and the protocol.
pub const RULE: &'static str = "^(?:([0-9a-fA-F:.]+)\\s+)?(\\d+)/(tcp|udp)";

/// The name and the number of the first process that holds a socket.
pub const PROCESS: &'static str = "users:\\(\\(\"([^\"]+)\",pid=(\\d+)";

/// A published port: the address and the port on the host, then the port in the
/// container and the protocol.
pub const MAPPING: &'static str =
    "(?:(\\[[0-9a-fA-F:]+\\]|[0-9.]+)):(\\d+)->\\d+/(tcp|udp)";

/// Whether `n` is one of the ten code points that begin at `zero`.
pub open spec fn decade(n: int, zero: int) -> bool {
    zero <= n < zero + 10
}

/// Whether the code point `n`, beyond ASCII, is a decimal digit: one of the
/// Unicode general category `Nd`, in which the digits come in tens.
#[verifier::opaque]
pub open spec fn is_far_digit(n: int) -> bool {
    ||| decade(n, 0x660) ||| decade(n, 0x6f0) ||| decade(n, 0x7c0) ||| decade(n, 0x966)
    ||| decade(n, 0x9e6) ||| decade(n, 0xa66) ||| decade(n, 0xae6) ||| decade(n, 0xb66)
    ||| decade(n, 0xbe6) ||| decade(n, 0xc66) ||| decade(n, 0xce6) ||| decade(n, 0xd66)
    ||| decade(n, 0xde6) ||| decade(n, 0xe50) ||| decade(n, 0xed0) ||| decade(n, 0xf20)
    ||| decade(n, 0x1040) ||| decade(n, 0x1090) ||| decade(n, 0x17e0) ||| decade(n, 0x1810)
    ||| decade(n, 0x1946) ||| decade(n, 0x19d0) ||| decade(n, 0x1a80) ||| decade(n, 0x1a90)
    ||| decade(n, 0x1b50) ||| decade(n, 0x1bb0) ||| decade(n, 0x1c40) ||| decade(n, 0x1c50)
    ||| decade(n, 0xa620) ||| decade(n, 0xa8d0) ||| decade(n, 0xa900) ||| decade(n, 0xa9d0)
    ||| decade(n, 0xa9f0) ||| decade(n, 0xaa50) ||| decade(n, 0xabf0) ||| decade(n, 0xff10)
    ||| decade(n, 0x104a0) ||| decade(n, 0x10d30) ||| decade(n, 0x10d40) ||| decade(n, 0x11066)
    ||| decade(n, 0x110f0) ||| decade(n, 0x11136) ||| decade(n, 0x111d0) ||| decade(n, 0x112f0)
    ||| decade(n, 0x11450) ||| decade(n, 0x114d0) ||| decade(n, 0x11650) ||| decade(n, 0x116c0)
    ||| decade(n, 0x116d0) ||| decade(n, 0x116da) ||| decade(n, 0x11730) ||| decade(n, 0x118e0)
    ||| decade(n, 0x11950) ||| decade(n, 0x11bf0) ||| decade(n, 0x11c50) ||| decade(n, 0x11d50)
    ||| decade(n, 0x11da0) ||| decade(n, 0x11f50) ||| decade(n, 0x16130) ||| decade(n, 0x16a60)
    ||| decade(n, 0x16ac0) ||| decade(n, 0x16b50) ||| decade(n, 0x16d70) ||| decade(n, 0x1ccf0)
    ||| decade(n, 0x1d7ce) ||| decade(n, 0x1d7d8) ||| decade(n, 0x1d7e2) ||| decade(n, 0x1d7ec)
    ||| decade(n, 0x1d7f6) ||| decade(n, 0x1e140) ||| decade(n, 0x1e2f0) ||| decade(n, 0x1e4f0)
    ||| decade(n, 0x1e5f1) ||| decade(n, 0x1e950) ||| decade(n, 0x1fbf0)
}

/// Whether `c` is a decimal digit of any script, the Unicode general category
/// `Nd`: what `\d` stands for.
pub open spec fn is_digit(c: char) -> bool {
    if c <= '\u{7f}' {
        '0' <= c <= '9'
    } else {
        is_far_digit(c as int)
    }
}

/// Whether `c` can stand in the address that begins a rule: `[0-9a-fA-F:.]`.
pub open spec fn is_addr_char(c: char) -> bool {
    ||| '0' <= c <= '9'
    ||| 'a' <= c <= 'f'
    ||| 'A' <= c <= 'F'
    ||| c == ':'
    ||| c == '.'
}

/// Whether `c` can stand between the brackets of an address: `[0-9a-fA-F:]`.
pub open spec fn is_bracketed_char(c: char) -> bool {
    is_addr_char(c) && c != '.'
}

/// Whether `c` can stand in an address without brackets: `[0-9.]`.
pub open spec fn is_dotted_char(c: char) -> bool {
    '0' <= c <= '9' || c == '.'
}

/// Whether `s` is a run of characters that satisfy `p`, at least one.
pub open spec fn is_run(s: Seq<char>, p: spec_fn(char) -> bool) -> bool {
    &&& s.len() > 0
    &&& forall|i: int| 0 <= i < s.len() ==> p(#[trigger] s[i])
}

/// Whether `s` names a transport protocol: `tcp|udp`.
pub open spec fn is_proto(s: Seq<char>) -> bool {
    s == seq!['t', 'c', 'p'] || s == seq!['u', 'd', 'p']
}

/// What a match of [`RULE`] reads.
pub struct RuleMatch {
    pub dest: Option<Seq<char>>,
    pub port: Seq<char>,
    pub proto: Seq<char>,
}

/// Whether `text` is what `m` reads, with the white space `gap` after the
/// address, followed by `rest`.
pub open spec fn rule_reads(text: Seq<char>, m: RuleMatch, gap: Seq<char>, rest: Seq<char>) -> bool {
    &&& match m.dest {
        Some(dest) => {
            &&& is_run(dest, |c: char| is_addr_char(c))
            &&& is_run(gap, |c: char| is_space(c))
            &&& text == dest + gap + m.port + seq!['/'] + m.proto + rest
        },
        None => text == m.port + seq!['/'] + m.proto + rest,
    }
    &&& is_run(m.port, |c: char| is_digit(c))
    &&& is_proto(m.proto)
}

/// Whether [`RULE`] matches `text` and reads `m`. Only one `m` can be read.
pub open spec fn is_rule_match(text: Seq<char>, m: RuleMatch) -> bool {
    exists|gap: Seq<char>, rest: Seq<char>| rule_reads(text, m, gap, rest)
}

/// What [`RULE`] reads in `text`, where it matches.
pub open spec fn rule_match(text: Seq<char>) -> Option<RuleMatch> {
    if exists|m: RuleMatch| is_rule_match(text, m) {
        Some(choose|m: RuleMatch| is_rule_match(text, m))
    } else {
        None
    }
}

/// What a match of [`PROCESS`] reads.
pub struct ProcessMatch {
    pub name: Seq<char>,
    pub pid: Seq<char>,
}

/// Whether `text` is what `m` reads, followed by `rest`.
pub open spec fn process_reads(text: Seq<char>, m: ProcessMatch, rest: Seq<char>) -> bool {
    &&& is_run(m.name, |c: char| c != '"')
    &&& is_run(m.pid, |c: char| is_digit(c))
    &&& rest.len() > 0 ==> !is_digit(rest[0])
    &&& text == "users:((\""@ + m.name + "\",pid="@ + m.pid + rest
}

/// Whether [`PROCESS`] can match `text` at position `i` and read `m` there.
pub open spec fn process_at(text: Seq<char>, i: int, m: ProcessMatch) -> bool {
    &&& 0 <= i <= text.len()
    &&& exists|rest: Seq<char>| process_reads(text.skip(i), m, rest)
}

/// Whether [`PROCESS`] matches `text` and reads `m`: at the first position at
/// which it can match.
pub open spec fn is_process_match(text: Seq<char>, m: ProcessMatch) -> bool {
    exists|i: int|
        {
            &&& #[trigger] process_at(text, i, m)
            &&& forall|j: int, n: ProcessMatch| j < i ==> !process_at(text, j, n)
        }
}

/// What [`PROCESS`] reads in `text`, where it matches.
pub open spec fn process_match(text: Seq<char>) -> Option<ProcessMatch> {
    if exists|m: ProcessMatch| is_process_match(text, m) {
        Some(choose|m: ProcessMatch| is_process_match(text, m))
    } else {
        None
    }
}

/// What a match of [`MAPPING`] reads.
pub struct MappingMatch {
    pub bind: Seq<char>,
    pub port: Seq<char>,
    pub proto: Seq<char>,
}

/// Whether `bind` is an address on the host, in brackets or of digits and dots.
pub open spec fn is_bind(bind: Seq<char>) -> bool {
    ||| is_run(bind, |c: char| is_dotted_char(c))
    ||| {
        &&& bind.len() > 2
        &&& bind[0] == '['
        &&& bind.last() == ']'
        &&& is_run(bind.subrange(1, bind.len() - 1), |c: char| is_bracketed_char(c))
    }
}

/// Whether `text` is what `m` reads, with the port `inner` of the container,
/// followed by `rest`.
pub open spec fn mapping_reads(
    text: Seq<char>,
    m: MappingMatch,
    inner: Seq<char>,
    rest: Seq<char>,
) -> bool {
    &&& is_bind(m.bind)
    &&& is_run(m.port, |c: char| is_digit(c))
    &&& is_run(inner, |c: char| is_digit(c))
    &&& is_proto(m.proto)
    &&& text == m.bind + seq![':'] + m.port + seq!['-', '>'] + inner + seq!['/'] + m.proto + rest
}

/// Whether [`MAPPING`] can match `text` at position `i` and read `m` there.
pub open spec fn mapping_at(text: Seq<char>, i: int, m: MappingMatch) -> bool {
    &&& 0 <= i <= text.len()
    &&& exists|inner: Seq<char>, rest: Seq<char>| mapping_reads(text.skip(i), m, inner, rest)
}

/// Whether [`MAPPING`] matches `text` and reads `m`: at the first position at
/// which it can match.
pub open spec fn is_mapping_match(text: Seq<char>, m: MappingMatch) -> bool {
    exists|i: int|
        {
            &&& #[trigger] mapping_at(text, i, m)
            &&& forall|j: int, n: MappingMatch| j < i ==> !mapping_at(text, j, n)
        }
}

/// What [`MAPPING`] reads in `text`, where it matches.
pub open spec fn mapping_match(text: Seq<char>) -> Option<MappingMatch> {
    if exists|m: MappingMatch| is_mapping_match(text, m) {
        Some(choose|m: MappingMatch| is_mapping_match(text, m))
    } else {
        None
    }
}

/// What the groups of a match hold: `None` for one that took no part in it.
pub open spec fn capture_views(r: Option<Vec<Option<String>>>) -> Option<Seq<Option<Seq<char>>>> {
    match r {
        Some(groups) => Some(
            Seq::new(
                groups@.len(),
                |i: int|
                    match groups@[i] {
                        Some(s) => Some(s@),
                        None => None,
                    },
            ),
        ),
        None => None,
    }
}

/// Whether `groups` is what [`RULE`] captures in `text`, the whole match first.
pub open spec fn captures_rule(text: Seq<char>, groups: Option<Seq<Option<Seq<char>>>>) -> bool {
    match groups {
        Some(g) => g.len() == 4 && g[2] is Some && g[3] is Some && is_rule_match(
            text,
            (RuleMatch { dest: g[1], port: g[2]->0, proto: g[3]->0 }),
        ),
        None => forall|m: RuleMatch| !is_rule_match(text, m),
    }
}

/// Whether `groups` is what [`PROCESS`] captures in `text`, the whole match
/// first.
pub open spec fn captures_process(
    text: Seq<char>,
    groups: Option<Seq<Option<Seq<char>>>>,
) -> bool {
    match groups {
        Some(g) => g.len() == 3 && g[1] is Some && g[2] is Some && is_process_match(
            text,
            (ProcessMatch { name: g[1]->0, pid: g[2]->0 }),
        ),
        None => forall|m: ProcessMatch| !is_process_match(text, m),
    }
}

/// Whether `groups` is what [`MAPPING`] captures in `text`, the whole match
/// first.
pub open spec fn captures_mapping(
    text: Seq<char>,
    groups: Option<Seq<Option<Seq<char>>>>,
) -> bool {
    match groups {
        Some(g) => g.len() == 4 && g[1] is Some && g[2] is Some && g[3] is Some
            && is_mapping_match(
            text,
            (MappingMatch { bind: g[1]->0, port: g[2]->0, proto: g[3]->0 }),
        ),
        None => forall|m: MappingMatch| !is_mapping_match(text, m),
    }
}

/// `Regex::captures` of the regex crate, on `Regex::new` of `pattern`: the groups
/// of the leftmost match, the whole match first. Claimed for each of the three
/// patterns of this module, the only ones that it is called with: that it
/// matches exactly where the pattern's relation above can read something, and
/// that its groups are what is read. What the whole match holds is left unsaid.
#[verifier::external_body]
fn captures(pattern: &str, text: &str) -> (r: Option<Vec<Option<String>>>)
    requires
        pattern@ == RULE@ || pattern@ == PROCESS@ || pattern@ == MAPPING@,
    ensures
        pattern@ == RULE@ ==> captures_rule(text@, capture_views(r)),
        pattern@ == PROCESS@ ==> captures_process(text@, capture_views(r)),
        pattern@ == MAPPING@ ==> captures_mapping(text@, capture_views(r)),
{
    let re = regex::Regex::new(pattern).expect("hardcoded regex");
    let caps = re.captures(text)?;
    Some(caps.iter().map(|group| group.map(|m| m.as_str().to_string())).collect())
}

/// Where `text` is `x` and then `y`, all of `x` satisfies `p` and what `y` begins
/// with does not, `x` is as long as the longest prefix that satisfies `p`.
proof fn lemma_cut(text: Seq<char>, x: Seq<char>, y: Seq<char>, p: spec_fn(char) -> bool)
    requires
        text == x + y,
        forall|i: int| 0 <= i < x.len() ==> p(#[trigger] x[i]),
        y.len() > 0 ==> !p(y[0]),
    ensures
        span(text, p) == x.len(),
        x == text.take(x.len() as int),
        y == text.skip(x.len() as int),
{
    assert forall|i: int| 0 <= i < x.len() implies p(#[trigger] text[i]) by {
        assert(text[i] == x[i]);
    }
    lemma_span_unique(text, p, x.len() as int);
    assert(x =~= text.take(x.len() as int));
    assert(y =~= text.skip(x.len() as int));
}

/// Two protocols that begin the same text are the same.
proof fn lemma_proto_unique(text: Seq<char>, a: Seq<char>, x: Seq<char>, b: Seq<char>, y: Seq<char>)
    requires
        text == a + x,
        text == b + y,
        is_proto(a),
        is_proto(b),
    ensures
        a == b,
{
    assert(a[0] == text[0]);
    assert(b[0] == text[0]);
}

/// A port, a slash and a protocol that begin the same text are the same.
proof fn lemma_port_unique(
    text: Seq<char>,
    port1: Seq<char>,
    proto1: Seq<char>,
    rest1: Seq<char>,
    port2: Seq<char>,
    proto2: Seq<char>,
    rest2: Seq<char>,
)
    requires
        text == port1 + seq!['/'] + proto1 + rest1,
        text == port2 + seq!['/'] + proto2 + rest2,
        is_run(port1, |c: char| is_digit(c)),
        is_run(port2, |c: char| is_digit(c)),
        is_proto(proto1),
        is_proto(proto2),
    ensures
        port1 == port2,
        proto1 == proto2,
{
    let digit = |c: char| is_digit(c);
    let y1 = seq!['/'] + proto1 + rest1;
    let y2 = seq!['/'] + proto2 + rest2;
    assert(text =~= port1 + y1);
    assert(text =~= port2 + y2);
    lemma_cut(text, port1, y1, digit);
    lemma_cut(text, port2, y2, digit);
    assert(y1.skip(1) =~= proto1 + rest1);
    assert(y2.skip(1) =~= proto2 + rest2);
    lemma_proto_unique(y1.skip(1), proto1, rest1, proto2, rest2);
}

/// [`RULE`] reads at most one thing in a text.
pub proof fn lemma_rule_match(text: Seq<char>, m: RuleMatch)
    requires
        is_rule_match(text, m),
    ensures
        rule_match(text) == Some(m),
{
    let n = rule_match(text)->0;
    assert(is_rule_match(text, n));
    let (gap1, rest1) = choose|gap: Seq<char>, rest: Seq<char>| rule_reads(text, m, gap, rest);
    let (gap2, rest2) = choose|gap: Seq<char>, rest: Seq<char>| rule_reads(text, n, gap, rest);
    lemma_rule_unique(text, m, gap1, rest1, n, gap2, rest2);
}

proof fn lemma_rule_unique(
    text: Seq<char>,
    m: RuleMatch,
    gap1: Seq<char>,
    rest1: Seq<char>,
    n: RuleMatch,
    gap2: Seq<char>,
    rest2: Seq<char>,
)
    requires
        rule_reads(text, m, gap1, rest1),
        rule_reads(text, n, gap2, rest2),
    ensures
        m == n,
{
    match (m.dest, n.dest) {
        (None, None) => {
            lemma_port_unique(text, m.port, m.proto, rest1, n.port, n.proto, rest2);
        },
        (Some(d1), Some(d2)) => {
            let addr = |c: char| is_addr_char(c);
            let space = |c: char| is_space(c);
            let z1 = m.port + seq!['/'] + m.proto + rest1;
            let z2 = n.port + seq!['/'] + n.proto + rest2;
            assert(text =~= d1 + (gap1 + z1));
            assert(text =~= d2 + (gap2 + z2));
            assert((gap1 + z1)[0] == gap1[0] && space(gap1[0]));
            assert((gap2 + z2)[0] == gap2[0] && space(gap2[0]));
            lemma_cut(text, d1, gap1 + z1, addr);
            lemma_cut(text, d2, gap2 + z2, addr);
            assert(z1[0] == m.port[0] && is_digit(m.port[0]));
            assert(z2[0] == n.port[0] && is_digit(n.port[0]));
            lemma_digit_is_no_space(m.port[0]);
            lemma_digit_is_no_space(n.port[0]);
            lemma_cut(gap1 + z1, gap1, z1, space);
            lemma_cut(gap2 + z2, gap2, z2, space);
            lemma_port_unique(z1, m.port, m.proto, rest1, n.port, n.proto, rest2);
        },
        (Some(d), None) => {
            lemma_rule_leads_apart(text, m, gap1, rest1, n, gap2, rest2);
        },
        (None, Some(d)) => {
            lemma_rule_leads_apart(text, n, gap2, rest2, m, gap1, rest1);
        },
    }
}

/// A text that begins with an address and white space does not begin with a port
/// and a slash.
proof fn lemma_rule_leads_apart(
    text: Seq<char>,
    m: RuleMatch,
    gap: Seq<char>,
    rest1: Seq<char>,
    n: RuleMatch,
    gap2: Seq<char>,
    rest2: Seq<char>,
)
    requires
        rule_reads(text, m, gap, rest1),
        rule_reads(text, n, gap2, rest2),
        m.dest is Some,
    ensures
        n.dest is Some,
{
    let d = m.dest->0;
    let k = n.port.len() as int;
    let space = |c: char| is_space(c);
    let addr = |c: char| is_addr_char(c);
    let digit = |c: char| is_digit(c);
    assert(text =~= d + (gap + m.port + seq!['/'] + m.proto + rest1));
    assert(text[d.len() as int] == gap[0] && space(gap[0]));
    if n.dest is None {
        assert(text[k] == '/');
        if d.len() < k {
            let c = n.port[d.len() as int];
            assert(text[d.len() as int] == c && digit(c));
            lemma_digit_is_no_space(c);
        } else if d.len() > k {
            assert(text[k] == d[k] && addr(d[k]));
        }
    }
}

proof fn lemma_digit_is_no_space(c: char)
    requires
        is_digit(c),
    ensures
        !is_space(c),
{
    reveal(is_far_digit);
}

proof fn lemma_process_unique(
    text: Seq<char>,
    m: ProcessMatch,
    rest1: Seq<char>,
    n: ProcessMatch,
    rest2: Seq<char>,
)
    requires
        process_reads(text, m, rest1),
        process_reads(text, n, rest2),
    ensures
        m == n,
{
    reveal_strlit("users:((\"");
    reveal_strlit("\",pid=");
    let head = "users:((\""@;
    let mid = "\",pid="@;
    let x1 = m.name + (mid + (m.pid + rest1));
    let x2 = n.name + (mid + (n.pid + rest2));
    assert(text =~= head + x1);
    assert(text =~= head + x2);
    assert(x1 =~= text.skip(head.len() as int));
    assert(x2 =~= text.skip(head.len() as int));
    let plain = |c: char| c != '"';
    assert((mid + (m.pid + rest1))[0] == '"');
    assert((mid + (n.pid + rest2))[0] == '"');
    lemma_cut(x1, m.name, mid + (m.pid + rest1), plain);
    lemma_cut(x2, n.name, mid + (n.pid + rest2), plain);
    let y1 = m.pid + rest1;
    let y2 = n.pid + rest2;
    assert(y1 =~= (mid + y1).skip(mid.len() as int));
    assert(y2 =~= (mid + y2).skip(mid.len() as int));
    let digit = |c: char| is_digit(c);
    lemma_cut(y1, m.pid, rest1, digit);
    lemma_cut(y2, n.pid, rest2, digit);
}

/// [`PROCESS`] reads at most one thing in a text.
pub proof fn lemma_process_match(text: Seq<char>, m: ProcessMatch)
    requires
        is_process_match(text, m),
    ensures
        process_match(text) == Some(m),
{
    let n = process_match(text)->0;
    assert(is_process_match(text, n));
    let i = choose|i: int|
        {
            &&& #[trigger] process_at(text, i, m)
            &&& forall|j: int, n: ProcessMatch| j < i ==> !process_at(text, j, n)
        };
    let k = choose|i: int|
        {
            &&& #[trigger] process_at(text, i, n)
            &&& forall|j: int, n: ProcessMatch| j < i ==> !process_at(text, j, n)
        };
    assert(i == k);
    let rest1 = choose|rest: Seq<char>| process_reads(text.skip(i), m, rest);
    let rest2 = choose|rest: Seq<char>| process_reads(text.skip(i), n, rest);
    lemma_process_unique(text.skip(i), m, rest1, n, rest2);
}

/// Two addresses on the host that a colon follows in the same text are the same.
proof fn lemma_bind_unique(text: Seq<char>, a: Seq<char>, x: Seq<char>, b: Seq<char>, y: Seq<char>)
    requires
        text == a + x,
        text == b + y,
        is_bind(a),
        is_bind(b),
        x.len() > 0 && x[0] == ':',
        y.len() > 0 && y[0] == ':',
    ensures
        a == b,
{
    let dotted = |c: char| is_dotted_char(c);
    let bracketed = |c: char| is_bracketed_char(c);
    assert(text[0] == a[0] && text[0] == b[0]);
    if is_run(a, dotted) {
        assert(dotted(a[0]));
        assert(is_run(b, dotted));
        lemma_cut(text, a, x, dotted);
        lemma_cut(text, b, y, dotted);
    } else {
        if is_run(b, dotted) {
            assert(dotted(b[0]));
        }
        let p = a.subrange(1, a.len() - 1);
        let q = b.subrange(1, b.len() - 1);
        let t = text.skip(1);
        assert(t =~= p + (seq![']'] + x));
        assert(t =~= q + (seq![']'] + y));
        lemma_cut(t, p, seq![']'] + x, bracketed);
        lemma_cut(t, q, seq![']'] + y, bracketed);
        assert(a =~= seq!['['] + p + seq![']']);
        assert(b =~= seq!['['] + q + seq![']']);
    }
}

proof fn lemma_mapping_unique(
    text: Seq<char>,
    m: MappingMatch,
    inner1: Seq<char>,
    rest1: Seq<char>,
    n: MappingMatch,
    inner2: Seq<char>,
    rest2: Seq<char>,
)
    requires
        mapping_reads(text, m, inner1, rest1),
        mapping_reads(text, n, inner2, rest2),
    ensures
        m == n,
{
    let digit = |c: char| is_digit(c);
    let tail1 = inner1 + seq!['/'] + m.proto + rest1;
    let tail2 = inner2 + seq!['/'] + n.proto + rest2;
    let arrow = seq!['-', '>'];
    let x1 = seq![':'] + (m.port + (arrow + tail1));
    let x2 = seq![':'] + (n.port + (arrow + tail2));
    assert(text =~= m.bind + x1);
    assert(text =~= n.bind + x2);
    lemma_bind_unique(text, m.bind, x1, n.bind, x2);
    assert(x1 =~= text.skip(m.bind.len() as int));
    assert(x2 =~= text.skip(m.bind.len() as int));
    let y1 = m.port + (arrow + tail1);
    let y2 = n.port + (arrow + tail2);
    assert(y1 =~= x1.skip(1));
    assert(y2 =~= x2.skip(1));
    lemma_cut(y1, m.port, arrow + tail1, digit);
    lemma_cut(y2, n.port, arrow + tail2, digit);
    assert(tail1 =~= (arrow + tail1).skip(2));
    assert(tail2 =~= (arrow + tail2).skip(2));
    lemma_port_unique(tail1, inner1, m.proto, rest1, inner2, n.proto, rest2);
}

/// [`MAPPING`] reads at most one thing in a text.
pub proof fn lemma_mapping_match(text: Seq<char>, m: MappingMatch)
    requires
        is_mapping_match(text, m),
    ensures
        mapping_match(text) == Some(m),
{
    let n = mapping_match(text)->0;
    assert(is_mapping_match(text, n));
    let i = choose|i: int|
        {
            &&& #[trigger] mapping_at(text, i, m)
            &&& forall|j: int, n: MappingMatch| j < i ==> !mapping_at(text, j, n)
        };
    let k = choose|i: int|
        {
            &&& #[trigger] mapping_at(text, i, n)
            &&& forall|j: int, n: MappingMatch| j < i ==> !mapping_at(text, j, n)
        };
    assert(i == k);
    let (inner1, rest1) = choose|inner: Seq<char>, rest: Seq<char>|
        mapping_reads(text.skip(i), m, inner, rest);
    let (inner2, rest2) = choose|inner: Seq<char>, rest: Seq<char>|
        mapping_reads(text.skip(i), n, inner, rest);
    lemma_mapping_unique(text.skip(i), m, inner1, rest1, n, inner2, rest2);
}

fn own(s: &Option<String>) -> (r: Option<String>)
    ensures
        text_view(r) == text_view(*s),
{
    match s {
        Some(s) => Some(s.clone()),
        None => None,
    }
}

/// The address, the port and the protocol that [`RULE`] reads in `line`.
pub fn match_rule(line: &str) -> (r: Option<(Option<String>, String, String)>)
    ensures
        match r {
            Some((dest, port, proto)) => rule_match(line@) == Some(
                (RuleMatch { dest: text_view(dest), port: port@, proto: proto@ }),
            ),
            None => rule_match(line@) is None,
        },
{
    let found = captures(RULE, line);
    match &found {
        Some(groups) => {
            let ghost g = capture_views(found)->0;
            let ghost m = RuleMatch { dest: g[1], port: g[2]->0, proto: g[3]->0 };
            proof {
                lemma_rule_match(line@, m);
            }
            match (&groups[2], &groups[3]) {
                (Some(port), Some(proto)) => {
                    Some((own(&groups[1]), port.clone(), proto.clone()))
                },
                _ => None,
            }
        },
        None => None,
    }
}

/// The name and the number of the process that [`PROCESS`] reads in `line`.
pub fn match_process(line: &str) -> (r: Option<(String, String)>)
    ensures
        match r {
            Some((name, pid)) => process_match(line@) == Some(
                (ProcessMatch { name: name@, pid: pid@ }),
            ),
            None => process_match(line@) is None,
        },
{
    let found = captures(PROCESS, line);
    match &found {
        Some(groups) => {
            let ghost g = capture_views(found)->0;
            proof {
                lemma_process_match(line@, ProcessMatch { name: g[1]->0, pid: g[2]->0 });
            }
            match (&groups[1], &groups[2]) {
                (Some(name), Some(pid)) => Some((name.clone(), pid.clone())),
                _ => None,
            }
        },
        None => None,
    }
}

/// The address, the port and the protocol that [`MAPPING`] reads in `entry`.
pub fn match_mapping(entry: &str) -> (r: Option<(String, String, String)>)
    ensures
        match r {
            Some((bind, port, proto)) => mapping_match(entry@) == Some(
                (MappingMatch { bind: bind@, port: port@, proto: proto@ }),
            ),
            None => mapping_match(entry@) is None,
        },
{
    let found = captures(MAPPING, entry);
    match &found {
        Some(groups) => {
            let ghost g = capture_views(found)->0;
            proof {
                lemma_mapping_match(
                    entry@,
                    MappingMatch { bind: g[1]->0, port: g[2]->0, proto: g[3]->0 },
                );
            }
            match (&groups[1], &groups[2], &groups[3]) {
                (Some(bind), Some(port), Some(proto)) => {
                    Some((bind.clone(), port.clone(), proto.clone()))
                },
                _ => None,
            }
        },
        None => None,
    }
}

} // verus!
