//! Renders findings: as a report for a terminal, and as JSON.
use crate::audit::{finding_views, label_of, Finding, FindingView, Severity};
use crate::ip::ip_text;
use crate::json::{
    self, compact_text, entries, entry_maps, is_bracketed, is_one_line, pretty_text, written,
    Object, Scalar, ValueView,
};
use crate::numeral::{decimal, push_numeral};
use crate::palette::{color_of, is_palette, Palette, PaletteView};
use crate::ss::{BindAddr, BindView};
use crate::text::text_view;
use vstd::prelude::*;
use vstd::string::{StrSliceExecFns, StringExecFns};

verus! {

/// `n` spaces.
pub open spec fn spaces(n: nat) -> Seq<char> {
    Seq::new(n, |i: int| ' ')
}

/// `s`, with spaces behind it up to a length of `width`.
pub open spec fn padded(s: Seq<char>, width: nat) -> Seq<char> {
    if s.len() < width {
        s + spaces((width - s.len()) as nat)
    } else {
        s
    }
}

/// Where a socket is bound, as a report shows it.
pub open spec fn addr_note(addr: BindView) -> Seq<char> {
    match addr {
        BindView::Wildcard => "0.0.0.0/[::]"@,
        BindView::Loopback => "127.0.0.1"@,
        BindView::Specific(ip) => ip_text(ip),
    }
}

/// `before`, the text and `after` where there is a text, and nothing elsewhere.
pub open spec fn note(before: Seq<char>, text: Option<Seq<char>>, after: Seq<char>) -> Seq<char> {
    match text {
        Some(text) => before + text + after,
        None => seq![],
    }
}

/// The line of a report about a finding.
pub open spec fn line_of(f: FindingView, palette: Option<PaletteView>) -> Seq<char> {
    let (c, r) = match palette {
        Some(p) => (color_of(p, f.severity), p.reset),
        None => (seq![], seq![]),
    };
    let process = match f.socket.process {
        Some(process) => process,
        None => "?"@,
    };
    c + "["@ + padded(label_of(f.severity), 28) + "]"@ + r + " "@ + decimal(f.socket.port as nat)
        + "/"@ + padded(f.socket.proto, 4) + " "@ + padded(addr_note(f.socket.addr), 14)
        + " process="@ + process + note(" (container: "@, f.docker_container, ")"@) + note(
        " ["@,
        f.scope_note,
        "]"@,
    ) + "\n"@
}

/// The lines of a report; those about sockets that are safe only where
/// `show_safe` says so.
pub open spec fn lines_of(
    findings: Seq<FindingView>,
    palette: Option<PaletteView>,
    show_safe: bool,
) -> Seq<char>
    decreases findings.len(),
{
    if findings.len() == 0 {
        seq![]
    } else {
        let before = lines_of(findings.drop_last(), palette, show_safe);
        if findings.last().severity is Safe && !show_safe {
            before
        } else {
            before + line_of(findings.last(), palette)
        }
    }
}

/// How many findings have a severity.
pub open spec fn count_of(findings: Seq<FindingView>, severity: Severity) -> nat
    decreases findings.len(),
{
    if findings.len() == 0 {
        0
    } else {
        count_of(findings.drop_last(), severity) + if findings.last().severity == severity {
            1nat
        } else {
            0nat
        }
    }
}

/// The last line of a report: how many findings there are of each severity.
pub open spec fn summary_of(findings: Seq<FindingView>) -> Seq<char> {
    "\n"@ + decimal(findings.len()) + " sockets total — "@ + decimal(
        count_of(findings, Severity::Safe),
    ) + " safe, "@ + decimal(count_of(findings, Severity::Blocked)) + " blocked by ufw, "@
        + decimal(count_of(findings, Severity::ExposedRestricted)) + " exposed (ufw-scoped), "@
        + decimal(count_of(findings, Severity::ExposedAllowed)) + " exposed (ufw-allowed), "@
        + decimal(count_of(findings, Severity::ExposedDocker))
        + " exposed (docker bypasses ufw)\n"@
}

/// A report on some findings.
pub open spec fn report_of(
    findings: Seq<FindingView>,
    palette: Option<PaletteView>,
    show_safe: bool,
) -> Seq<char> {
    lines_of(findings, palette, show_safe) + summary_of(findings)
}

fn push_padded(out: &mut String, s: &str, width: usize)
    ensures
        final(out)@ == old(out)@ + padded(s@, width as nat),
{
    out.append(s);
    let n: usize = s.unicode_len();
    let mut i: usize = n;
    assert(out@ =~= old(out)@ + (s@ + spaces(0)));
    while i < width
        invariant
            n == s@.len(),
            n <= i,
            i <= width || i == n,
            out@ == old(out)@ + (s@ + spaces((i - n) as nat)),
        decreases width - i,
    {
        out.push(' ');
        i += 1;
        assert(out@ =~= old(out)@ + (s@ + spaces((i - n) as nat)));
    }
    assert(s@ + spaces(0) =~= s@);
}

fn push_note(out: &mut String, before: &str, text: &Option<String>, after: &str)
    ensures
        final(out)@ == old(out)@ + note(before@, text_view(*text), after@),
{
    match text {
        Some(text) => {
            out.append(before);
            out.append(text.as_str());
            out.append(after);
        },
        None => {},
    }
    assert(out@ =~= old(out)@ + note(before@, text_view(*text), after@));
}

fn push_addr(out: &mut String, addr: &BindAddr)
    ensures
        final(out)@ == old(out)@ + padded(addr_note(addr@), 14),
{
    match addr {
        BindAddr::Wildcard => push_padded(out, "0.0.0.0/[::]", 14),
        BindAddr::Loopback => push_padded(out, "127.0.0.1", 14),
        BindAddr::Specific(ip) => push_padded(out, ip.text().as_str(), 14),
    }
}

fn render_line(f: &Finding, palette: Option<&Palette>) -> (out: String)
    ensures
        out@ == line_of(f@, palette_view(palette)),
{
    let (c, r) = match palette {
        Some(p) => (p.color(f.severity), p.reset.as_str()),
        None => ("", ""),
    };
    proof {
        reveal_strlit("");
        assert(palette is None ==> c@ =~= seq![] && r@ =~= seq![]);
    }
    let process = match &f.socket.process {
        Some(process) => process.as_str(),
        None => "?",
    };
    let mut out = c.to_owned();
    out.append("[");
    push_padded(&mut out, f.severity.label(), 28);
    out.append("]");
    out.append(r);
    out.append(" ");
    push_numeral(&mut out, f.socket.port as u64, 10);
    out.append("/");
    push_padded(&mut out, f.socket.proto, 4);
    out.append(" ");
    push_addr(&mut out, &f.socket.addr);
    out.append(" process=");
    out.append(process);
    push_note(&mut out, " (container: ", &f.docker_container, ")");
    push_note(&mut out, " [", &f.scope_note, "]");
    out.append("\n");
    out
}

/// What a palette holds, where there is one.
pub open spec fn palette_view(palette: Option<&Palette>) -> Option<PaletteView> {
    match palette {
        Some(p) => Some(p@),
        None => None,
    }
}

/// The report on some findings in the colors of `palette`, or without any.
pub fn render_report_in(findings: &[Finding], palette: Option<&Palette>, show_safe: bool) -> (out:
    String)
    ensures
        out@ == report_of(finding_views(findings@), palette_view(palette), show_safe),
{
    let ghost views = finding_views(findings@);
    let ghost p = palette_view(palette);
    let mut out = String::new();
    let mut safe: usize = 0;
    let mut blocked: usize = 0;
    let mut restricted: usize = 0;
    let mut allowed: usize = 0;
    let mut docker: usize = 0;
    let mut i: usize = 0;
    assert(views.take(0) =~= seq![]);
    while i < findings.len()
        invariant
            i <= findings.len(),
            views == finding_views(findings@),
            p == palette_view(palette),
            out@ == lines_of(views.take(i as int), p, show_safe),
            safe == count_of(views.take(i as int), Severity::Safe) && safe <= i,
            blocked == count_of(views.take(i as int), Severity::Blocked) && blocked <= i,
            restricted == count_of(views.take(i as int), Severity::ExposedRestricted) && restricted
                <= i,
            allowed == count_of(views.take(i as int), Severity::ExposedAllowed) && allowed <= i,
            docker == count_of(views.take(i as int), Severity::ExposedDocker) && docker <= i,
        decreases findings.len() - i,
    {
        let f = &findings[i];
        proof {
            assert(views.take(i + 1).drop_last() =~= views.take(i as int));
            assert(views.take(i + 1).last() == f@);
        }
        match f.severity {
            Severity::Safe => safe += 1,
            Severity::Blocked => blocked += 1,
            Severity::ExposedRestricted => restricted += 1,
            Severity::ExposedAllowed => allowed += 1,
            Severity::ExposedDocker => docker += 1,
        }
        if f.severity != Severity::Safe || show_safe {
            out.append(render_line(f, palette).as_str());
        }
        i += 1;
    }
    assert(views.take(views.len() as int) =~= views);
    out.append("\n");
    push_numeral(&mut out, findings.len() as u64, 10);
    out.append(" sockets total — ");
    push_numeral(&mut out, safe as u64, 10);
    out.append(" safe, ");
    push_numeral(&mut out, blocked as u64, 10);
    out.append(" blocked by ufw, ");
    push_numeral(&mut out, restricted as u64, 10);
    out.append(" exposed (ufw-scoped), ");
    push_numeral(&mut out, allowed as u64, 10);
    out.append(" exposed (ufw-allowed), ");
    push_numeral(&mut out, docker as u64, 10);
    out.append(" exposed (docker bypasses ufw)\n");
    assert(out@ =~= report_of(views, p, show_safe));
    out
}

/// The report on some findings: a line for each one, and how many there are of
/// each severity. Sockets that are safe have a line only where `show_safe` says
/// so. The colors are those of the theme that is in force.
pub fn render_report(findings: &[Finding], color_on: bool, show_safe: bool) -> (out: String)
    ensures
        !color_on ==> out@ == report_of(finding_views(findings@), None, show_safe),
        color_on ==> exists|p: PaletteView|
            is_palette(p) && out@ == #[trigger] report_of(
                finding_views(findings@),
                Some(p),
                show_safe,
            ),
{
    if color_on {
        let palette = Palette::load();
        render_report_in(findings, Some(&palette), show_safe)
    } else {
        render_report_in(findings, None, show_safe)
    }
}

/// Where a socket is bound, as JSON shows it.
pub open spec fn bind_name(addr: BindView) -> Seq<char> {
    match addr {
        BindView::Wildcard => "wildcard"@,
        BindView::Loopback => "loopback"@,
        BindView::Specific(ip) => ip_text(ip),
    }
}

/// A text where there is one, and null elsewhere.
pub open spec fn text_or_null(text: Option<Seq<char>>) -> ValueView {
    match text {
        Some(text) => ValueView::Text(text),
        None => ValueView::Null,
    }
}

/// What the JSON object about a finding holds.
pub open spec fn record_of(f: FindingView) -> Map<Seq<char>, ValueView> {
    Map::<Seq<char>, ValueView>::empty().insert(
        "port"@,
        ValueView::Number(f.socket.port as u64),
    ).insert("proto"@, ValueView::Text(f.socket.proto)).insert(
        "bind"@,
        ValueView::Text(bind_name(f.socket.addr)),
    ).insert("process"@, text_or_null(f.socket.process)).insert(
        "pid"@,
        match f.socket.pid {
            Some(pid) => ValueView::Number(pid as u64),
            None => ValueView::Null,
        },
    ).insert("severity"@, ValueView::Text(label_of(f.severity))).insert(
        "docker_container"@,
        text_or_null(f.docker_container),
    ).insert("scope_note"@, text_or_null(f.scope_note))
}

/// What the JSON objects about some findings hold, in order.
pub open spec fn records_of(findings: Seq<FindingView>) -> Seq<Map<Seq<char>, ValueView>> {
    Seq::new(findings.len(), |i: int| record_of(findings[i]))
}

/// A text where there is one, and an empty one elsewhere.
pub open spec fn text_or_empty(text: Option<Seq<char>>) -> Seq<char> {
    match text {
        Some(text) => text,
        None => seq![],
    }
}

fn text_scalar(text: &Option<String>) -> (r: Scalar)
    ensures
        r@ == text_or_null(text_view(*text)),
{
    match text {
        Some(text) => Scalar::Text(text.clone()),
        None => Scalar::Null,
    }
}

/// The JSON object about a finding.
pub fn record(f: &Finding) -> (r: Object)
    ensures
        entries(r) == record_of(f@),
{
    let bind = match &f.socket.addr {
        BindAddr::Wildcard => "wildcard".to_owned(),
        BindAddr::Loopback => "loopback".to_owned(),
        BindAddr::Specific(ip) => ip.text(),
    };
    let pid = match f.socket.pid {
        Some(pid) => Scalar::Number(pid as u64),
        None => Scalar::Null,
    };
    let mut r = json::new_object();
    json::insert(&mut r, "port", Scalar::Number(f.socket.port as u64));
    json::insert(&mut r, "proto", Scalar::Text(f.socket.proto.to_owned()));
    json::insert(&mut r, "bind", Scalar::Text(bind));
    json::insert(&mut r, "process", text_scalar(&f.socket.process));
    json::insert(&mut r, "pid", pid);
    json::insert(&mut r, "severity", Scalar::Text(f.severity.label().to_owned()));
    json::insert(&mut r, "docker_container", text_scalar(&f.docker_container));
    json::insert(&mut r, "scope_note", text_scalar(&f.scope_note));
    r
}

/// The text that came out of writing JSON, or an empty one where that failed.
pub fn or_empty(r: Result<String, serde_json::Error>) -> (out: String)
    ensures
        out@ == text_or_empty(written(r)),
{
    match r {
        Ok(text) => text,
        Err(_) => String::new(),
    }
}

/// The findings as a JSON array with an object for each one, on one line unless
/// `pretty` asks for more.
pub fn render_json(findings: &[Finding], pretty: bool) -> (out: String)
    ensures
        out@ == if pretty {
            pretty_text(records_of(finding_views(findings@)))
        } else {
            compact_text(records_of(finding_views(findings@)))
        },
        is_bracketed(out@),
        !pretty ==> is_one_line(out@),
{
    let ghost views = finding_views(findings@);
    let mut records: Vec<Object> = Vec::new();
    let mut i: usize = 0;
    while i < findings.len()
        invariant
            i <= findings.len(),
            views == finding_views(findings@),
            records@.len() == i,
            forall|j: int| 0 <= j < i ==> entries(#[trigger] records@[j]) == record_of(views[j]),
        decreases findings.len() - i,
    {
        assert(views[i as int] == findings@[i as int]@);
        records.push(record(&findings[i]));
        i += 1;
    }
    assert(entry_maps(records@) =~= records_of(views));
    or_empty(
        if pretty {
            json::write_pretty(&records)
        } else {
            json::write_compact(&records)
        },
    )
}

} // verus!
