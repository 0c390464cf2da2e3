//! Parses `ufw status verbose`: just enough to answer "is this port reachable
//! from anywhere, or only from somewhere restricted".
//!
//! The full rule grammar (rule order, denials, rules scoped to an interface) is
//! not modelled. What a rule keeps is its port and protocol, the destination
//! address where the `To` column names one, and the `From` column. That is what
//! tells a rule that opens a port to the world from a scoped one: `172.17.0.1
//! 53/udp ALLOW IN 172.16.0.0/12` does not open port 53 to everybody.
use crate::exposure::open_ports_are_told_by_the_rules;
use crate::numeral::{read_unsigned, unsigned};
use crate::pattern::{match_rule, rule_match};
use crate::scan;
use crate::text::{
    contains, find, lines, other_than, slice_views, span, starts_with, text_view, trim,
};
use vstd::prelude::*;
use vstd::slice::slice_subrange;

verus! {

/// A rule that lets traffic in.
#[derive(Debug, Clone)]
pub struct Rule {
    pub port: u16,
    pub proto: &'static str,
    /// The one local address that the `To` column restricts the rule to; `None`
    /// where the rule holds for every local address.
    pub dest: Option<String>,
    /// The `From` column: "Anywhere", "Anywhere (v6)", an address or a subnet; empty
    /// where the rule names no direction.
    pub source: String,
}

/// What a [`Rule`] holds.
pub struct RuleView {
    pub port: u16,
    pub proto: Seq<char>,
    pub dest: Option<Seq<char>>,
    pub source: Seq<char>,
}

impl View for Rule {
    type V = RuleView;

    open spec fn view(&self) -> RuleView {
        RuleView {
            port: self.port,
            proto: self.proto@,
            dest: text_view(self.dest),
            source: self.source@,
        }
    }
}

/// What the rules of `v` hold.
pub open spec fn rule_views(v: Seq<Rule>) -> Seq<RuleView> {
    Seq::new(v.len(), |i: int| v[i]@)
}

/// What the rules that `v` refers to hold.
pub open spec fn rule_ref_views(v: Seq<&Rule>) -> Seq<RuleView> {
    Seq::new(v.len(), |i: int| v[i]@)
}

/// Whether a rule lets traffic in from every source.
pub open spec fn from_anywhere(rule: RuleView) -> bool {
    starts_with(rule.source, "Anywhere"@)
}

/// Whether a rule lets traffic in from every source to every local address.
pub open spec fn fully_open(rule: RuleView) -> bool {
    rule.dest is None && from_anywhere(rule)
}

impl Rule {
    pub fn is_source_anywhere(&self) -> (r: bool)
        ensures
            r == from_anywhere(self@),
    {
        let source = scan::to_chars(self.source.as_str());
        scan::starts_with(source.as_slice(), "Anywhere")
    }

    /// A rule is fully open only if it has no destination restriction and its
    /// source is unrestricted. Anything else allows a narrower path in, not
    /// "reachable from anywhere".
    pub fn is_fully_open(&self) -> (r: bool)
        ensures
            r == fully_open(self@),
    {
        self.dest.is_none() && self.is_source_anywhere()
    }
}

/// The firewall: whether it is on, and its rules that let traffic in.
#[derive(Debug)]
pub struct UfwState {
    pub active: bool,
    pub rules: Vec<Rule>,
}

/// What a [`UfwState`] holds.
pub struct UfwView {
    pub active: bool,
    pub rules: Seq<RuleView>,
}

impl View for UfwState {
    type V = UfwView;

    open spec fn view(&self) -> UfwView {
        UfwView { active: self.active, rules: rule_views(self.rules@) }
    }
}

impl Default for UfwState {
    /// A firewall that is off and has no rule.
    fn default() -> (r: UfwState)
        ensures
            r@ == (UfwView { active: false, rules: seq![] }),
    {
        let r = UfwState { active: false, rules: Vec::new() };
        assert(rule_views(r.rules@) =~= seq![]);
        r
    }
}

/// The protocol that the rules of the firewall name for `proto`.
pub open spec fn transport(proto: Seq<char>) -> Seq<char> {
    if proto == "udp"@ {
        "udp"@
    } else {
        "tcp"@
    }
}

/// Whether a rule is about `port` and `proto`.
pub open spec fn concerns(rule: RuleView, port: u16, proto: Seq<char>) -> bool {
    rule.port == port && rule.proto == transport(proto)
}

/// The rules about `port` and `proto`, in order.
pub open spec fn matching_rules(rules: Seq<RuleView>, port: u16, proto: Seq<char>) -> Seq<RuleView> {
    rules.filter(|r: RuleView| concerns(r, port, proto))
}

/// The rules about `port` and `proto` that are not fully open, in order.
pub open spec fn restricted_rules(rules: Seq<RuleView>, port: u16, proto: Seq<char>) -> Seq<
    RuleView,
> {
    rules.filter(|r: RuleView| concerns(r, port, proto) && !fully_open(r))
}

/// Whether some rule about `port` and `proto` is fully open.
pub open spec fn is_allowed(rules: Seq<RuleView>, port: u16, proto: Seq<char>) -> bool {
    exists|i: int|
        0 <= i < rules.len() && concerns(#[trigger] rules[i], port, proto) && fully_open(rules[i])
}

fn transport_name(proto: &str) -> (r: &'static str)
    ensures
        r@ == transport(proto@),
{
    if scan::same(proto, "udp") {
        "udp"
    } else {
        "tcp"
    }
}

/// A port is open exactly where the fields of some rule say so.
proof fn lemma_open_rules(rules: Seq<Rule>, port: u16, proto: Seq<char>)
    ensures
        is_allowed(rule_views(rules), port, proto) <==> exists|i: int|
            {
                &&& 0 <= i < rules.len()
                &&& (#[trigger] rules[i]).port == port
                &&& rules[i].proto@ == if proto == "udp"@ {
                    "udp"@
                } else {
                    "tcp"@
                }
                &&& rules[i].dest is None
                &&& "Anywhere"@.is_prefix_of(rules[i].source@)
            },
{
    let views = rule_views(rules);
    let p = if proto == "udp"@ {
        "udp"@
    } else {
        "tcp"@
    };
    open_ports_are_told_by_the_rules(views, port, proto);
    if is_allowed(views, port, proto) {
        let k = choose|i: int|
            0 <= i < views.len() && (#[trigger] views[i]).port == port && views[i].proto == p
                && views[i].dest is None && "Anywhere"@.is_prefix_of(views[i].source);
        assert(views[k] == rules[k]@);
        assert(rules[k].port == port);
    }
    if exists|i: int|
        0 <= i < rules.len() && (#[trigger] rules[i]).port == port && rules[i].proto@ == p
            && rules[i].dest is None && "Anywhere"@.is_prefix_of(rules[i].source@) {
        let k = choose|i: int|
            0 <= i < rules.len() && (#[trigger] rules[i]).port == port && rules[i].proto@ == p
                && rules[i].dest is None && "Anywhere"@.is_prefix_of(rules[i].source@);
        assert(views[k] == rules[k]@);
        assert(views[k].port == port);
    }
}

impl UfwState {
    /// The rules about this port and protocol.
    pub fn matching(&self, port: u16, proto: &str) -> (out: Vec<&Rule>)
        ensures
            rule_ref_views(out@) == matching_rules(self@.rules, port, proto@),
    {
        let name: &'static str = transport_name(proto);
        let ghost wanted = |r: RuleView| concerns(r, port, proto@);
        let ghost all = self@.rules;
        let mut out: Vec<&Rule> = Vec::new();
        let mut i: usize = 0;
        assert(rule_ref_views(out@) =~= all.take(0).filter(wanted)) by {
            reveal(Seq::filter);
        }
        while i < self.rules.len()
            invariant
                i <= self.rules.len(),
                name@ == transport(proto@),
                all == rule_views(self.rules@),
                wanted == (|r: RuleView| concerns(r, port, proto@)),
                rule_ref_views(out@) == all.take(i as int).filter(wanted),
            decreases self.rules.len() - i,
        {
            let rule = &self.rules[i];
            let ghost before = rule_ref_views(out@);
            proof {
                reveal(Seq::filter);
                assert(all.take(i + 1).drop_last() =~= all.take(i as int));
                assert(all.take(i + 1).last() == rule@);
            }
            if rule.port == port && scan::same(rule.proto, name) {
                out.push(rule);
                assert(rule_ref_views(out@) =~= before.push(rule@));
            }
            i += 1;
        }
        assert(all.take(self.rules@.len() as int) =~= all);
        out
    }

    /// True only if some rule for this port and protocol is unrestricted on both
    /// destination and source: genuinely reachable from anywhere.
    pub fn allows(&self, port: u16, proto: &str) -> (r: bool)
        ensures
            r == is_allowed(self@.rules, port, proto@),
            r <==> exists|i: int|
                {
                    &&& 0 <= i < self.rules@.len()
                    &&& (#[trigger] self.rules@[i]).port == port
                    &&& self.rules@[i].proto@ == if proto@ == "udp"@ {
                        "udp"@
                    } else {
                        "tcp"@
                    }
                    &&& self.rules@[i].dest is None
                    &&& "Anywhere"@.is_prefix_of(self.rules@[i].source@)
                },
    {
        proof {
            lemma_open_rules(self.rules@, port, proto@);
        }
        let matching = self.matching(port, proto);
        let ghost views = rule_ref_views(matching@);
        let ghost all = self@.rules;
        let ghost wanted = |r: RuleView| concerns(r, port, proto@);
        let mut i: usize = 0;
        while i < matching.len()
            invariant
                i <= matching.len(),
                views == rule_ref_views(matching@),
                views == all.filter(wanted),
                all == self@.rules,
                wanted == (|r: RuleView| concerns(r, port, proto@)),
                forall|j: int| 0 <= j < i ==> !fully_open(#[trigger] views[j]),
            decreases matching.len() - i,
        {
            if matching[i].is_fully_open() {
                proof {
                    assert(views[i as int] == matching@[i as int]@);
                    all.lemma_filter_contains_rev(wanted, views[i as int]);
                    let k = choose|k: int| 0 <= k < all.len() && all[k] == views[i as int];
                    broadcast use vstd::seq_lib::group_filter_ensures;

                    assert(wanted(views[i as int]));
                    assert(concerns(all[k], port, proto@) && fully_open(all[k]));
                }
                return true;
            }
            assert(views[i as int] == matching@[i as int]@);
            i += 1;
        }
        proof {
            broadcast use vstd::seq_lib::group_filter_ensures;

            assert forall|k: int|
                0 <= k < all.len() && concerns(#[trigger] all[k], port, proto@) implies !fully_open(
                all[k],
            ) by {
                assert(wanted(all[k]));
                assert(views.contains(all[k]));
            }
        }
        false
    }

    /// Rules that mention this port and protocol but are scoped (a specific
    /// destination address, a restricted source, or both) rather than fully
    /// open: reachable, but only from there.
    pub fn restricted(&self, port: u16, proto: &str) -> (out: Vec<&Rule>)
        ensures
            rule_ref_views(out@) == restricted_rules(self@.rules, port, proto@),
    {
        let matching = self.matching(port, proto);
        let ghost views = rule_ref_views(matching@);
        let ghost all = self@.rules;
        let ghost scoped = |r: RuleView| !fully_open(r);
        let mut out: Vec<&Rule> = Vec::new();
        let mut i: usize = 0;
        assert(rule_ref_views(out@) =~= views.take(0).filter(scoped)) by {
            reveal(Seq::filter);
        }
        while i < matching.len()
            invariant
                i <= matching.len(),
                views == rule_ref_views(matching@),
                scoped == (|r: RuleView| !fully_open(r)),
                rule_ref_views(out@) == views.take(i as int).filter(scoped),
            decreases matching.len() - i,
        {
            let rule = matching[i];
            let ghost before = rule_ref_views(out@);
            proof {
                reveal(Seq::filter);
                assert(views.take(i + 1).drop_last() =~= views.take(i as int));
                assert(views.take(i + 1).last() == rule@);
            }
            if !rule.is_fully_open() {
                out.push(rule);
                assert(rule_ref_views(out@) =~= before.push(rule@));
            }
            i += 1;
        }
        proof {
            assert(views.take(views.len() as int) =~= views);
            lemma_restricted_of_matching(all, port, proto@);
        }
        out
    }
}

/// The restricted rules are the matching ones that are not fully open.
pub proof fn lemma_restricted_of_matching(rules: Seq<RuleView>, port: u16, proto: Seq<char>)
    ensures
        matching_rules(rules, port, proto).filter(|r: RuleView| !fully_open(r))
            == restricted_rules(rules, port, proto),
    decreases rules.len(),
{
    reveal(Seq::filter);
    let wanted = |r: RuleView| concerns(r, port, proto);
    let scoped = |r: RuleView| !fully_open(r);
    if rules.len() > 0 {
        lemma_restricted_of_matching(rules.drop_last(), port, proto);
        let sub = rules.drop_last().filter(wanted);
        if wanted(rules.last()) {
            assert(sub.push(rules.last()).drop_last() =~= sub);
        }
    }
}

/// The part of `s` before the first `c`, or all of it.
pub open spec fn before(s: Seq<char>, c: char) -> Seq<char> {
    s.take(span(s, other_than(c)) as int)
}

/// Whether a line, up to its comment, lets traffic in: its action says so, or is
/// an "ALLOW" that names no direction. What names outbound or forwarded traffic
/// does not.
pub open spec fn lets_in(rule: Seq<char>) -> bool {
    if contains(rule, "ALLOW IN"@) {
        !contains(rule, "ALLOW OUT"@)
    } else {
        contains(rule, "ALLOW"@) && !contains(rule, "OUT"@) && !contains(rule, "ALLOW FWD"@)
    }
}

/// The `From` column of a line, up to its comment: what stands after the first
/// "ALLOW IN", up to the next one; empty where there is no "ALLOW IN".
pub open spec fn source_of(rule: Seq<char>) -> Seq<char> {
    match find(rule, "ALLOW IN"@) {
        Some(i) => {
            let after = rule.skip(i + "ALLOW IN"@.len());
            trim(
                match find(after, "ALLOW IN"@) {
                    Some(j) => after.take(j),
                    None => after,
                },
            )
        },
        None => seq![],
    }
}

/// The rule that a line, without the white space around it, writes down: it lets
/// traffic in, and begins with a port that fits its range. A comment is no part of
/// it.
pub open spec fn rule_of(line: Seq<char>) -> Option<RuleView> {
    let rule = before(line, '#');
    if !lets_in(rule) {
        None
    } else {
        match rule_match(line) {
            Some(m) => match unsigned(m.port, 0xffff) {
                Some(port) => Some(
                    RuleView {
                        port: port as u16,
                        proto: transport(m.proto),
                        dest: m.dest,
                        source: source_of(rule),
                    },
                ),
                None => None,
            },
            None => None,
        }
    }
}

/// The firewall after one more line: a status line says whether it is on, and a
/// rule is added behind the others.
pub open spec fn after_line(state: UfwView, line: Seq<char>) -> UfwView {
    let t = trim(line);
    if starts_with(t, "Status:"@) {
        UfwView {
            active: trim(t.skip("Status:"@.len() as int)) == "active"@,
            rules: state.rules,
        }
    } else {
        match rule_of(t) {
            Some(rule) => UfwView { active: state.active, rules: state.rules.push(rule) },
            None => state,
        }
    }
}

/// The firewall that some lines describe, from one that is off and has no rule.
pub open spec fn state_of(lines: Seq<Seq<char>>) -> UfwView
    decreases lines.len(),
{
    if lines.len() == 0 {
        UfwView { active: false, rules: seq![] }
    } else {
        after_line(state_of(lines.drop_last()), lines.last())
    }
}

fn allows_inbound(rule: &[char]) -> (r: bool)
    ensures
        r == lets_in(rule@),
{
    if scan::contains(rule, "ALLOW IN") {
        !scan::contains(rule, "ALLOW OUT")
    } else {
        scan::contains(rule, "ALLOW") && !scan::contains(rule, "OUT") && !scan::contains(
            rule,
            "ALLOW FWD",
        )
    }
}

fn source_column(rule: &[char]) -> (r: String)
    ensures
        r@ == source_of(rule@),
{
    proof {
        reveal_strlit("ALLOW IN");
    }
    match scan::find(rule, "ALLOW IN") {
        Some(i) => {
            let n: usize = rule.len();
            let after = slice_subrange(rule, i + 8, n);
            assert(after@ =~= rule@.skip(i + "ALLOW IN"@.len()));
            let column = match scan::find(after, "ALLOW IN") {
                Some(j) => slice_subrange(after, 0, j),
                None => after,
            };
            scan::to_text(scan::trim(column))
        },
        None => String::new(),
    }
}

fn read_rule(line: &[char]) -> (r: Option<Rule>)
    ensures
        match r {
            Some(rule) => rule_of(line@) == Some(rule@),
            None => rule_of(line@) is None,
        },
{
    let end: usize = scan::find_char(line, '#');
    let rule = slice_subrange(line, 0, end);
    assert(rule@ =~= before(line@, '#'));
    if !allows_inbound(rule) {
        return None;  // only inbound allow rules matter for "can something reach in"
    }
    let text = scan::to_text(line);
    match match_rule(text.as_str()) {
        Some((dest, digits, proto)) => {
            let digits = scan::to_chars(digits.as_str());
            match read_unsigned(digits.as_slice(), 0xffff) {
                Some(port) => Some(
                    Rule {
                        port: port as u16,
                        proto: transport_name(proto.as_str()),
                        dest,
                        source: source_column(rule),
                    },
                ),
                None => None,
            }
        },
        None => None,
    }
}

/// The firewall that the output of `ufw status verbose` describes.
pub fn parse(text: &str) -> (r: UfwState)
    ensures
        r@ == state_of(lines(text@)),
{
    let chars = scan::to_chars(text);
    let all = scan::lines(chars.as_slice());
    let ghost views = slice_views(all@);
    let mut state = UfwState { active: false, rules: Vec::new() };
    let mut i: usize = 0;
    assert(views.take(0) =~= seq![]);
    assert(rule_views(state.rules@) =~= seq![]);
    while i < all.len()
        invariant
            i <= all.len(),
            views == slice_views(all@),
            state@ == state_of(views.take(i as int)),
        decreases all.len() - i,
    {
        let line = scan::trim(all[i]);
        let ghost prior = state@;
        proof {
            assert(views.take(i + 1).drop_last() =~= views.take(i as int));
            assert(views.take(i + 1).last() == all@[i as int]@);
            reveal_strlit("Status:");
        }
        if scan::starts_with(line, "Status:") {
            let n: usize = line.len();
            let rest = slice_subrange(line, 7, n);
            assert(rest@ =~= line@.skip("Status:"@.len() as int));
            let status = scan::to_text(scan::trim(rest));
            state.active = scan::same(status.as_str(), "active");
        } else {
            match read_rule(line) {
                Some(rule) => {
                    let ghost view = rule@;
                    state.rules.push(rule);
                    assert(rule_views(state.rules@) =~= prior.rules.push(view));
                },
                None => {},
            }
        }
        i += 1;
    }
    assert(views.take(views.len() as int) =~= views);
    state
}

} // verus!
