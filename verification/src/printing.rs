//! What the report and the JSON show, told by the parts of the findings.
use crate::audit::{label_of, FindingView, Severity};
use crate::format::{
    addr_note, bind_name, count_of, line_of, lines_of, note, padded, record_of, records_of, report_of,
    summary_of, text_or_empty, text_or_null,
};
use crate::ip::{ip_text, IpView};
use crate::json::{written, ValueView};
use crate::numeral::decimal;
use crate::palette::{color_code, color_of, is_palette, PaletteView};
use crate::ss::BindView;
use vstd::prelude::*;

verus! {

/// The lines of a report go finding by finding and keep the order: those on two
/// lists one behind the other are those on the first and behind them those on the
/// second, whatever the findings are.
pub proof fn report_lines_go_finding_by_finding(
    a: Seq<FindingView>,
    b: Seq<FindingView>,
    palette: Option<PaletteView>,
    show_safe: bool,
)
    ensures
        lines_of(a + b, palette, show_safe) == lines_of(a, palette, show_safe) + lines_of(
            b,
            palette,
            show_safe,
        ),
    decreases b.len(),
{
    if b.len() == 0 {
        assert(a + b =~= a);
    } else {
        assert((a + b).drop_last() =~= a + b.drop_last());
        report_lines_go_finding_by_finding(a, b.drop_last(), palette, show_safe);
    }
    assert(lines_of(a + b, palette, show_safe) =~= lines_of(a, palette, show_safe) + lines_of(
        b,
        palette,
        show_safe,
    ));
}

/// One finding has its line in the report, whatever it is, unless it is safe and
/// the safe ones are hidden; then it has none.
pub proof fn one_finding_has_one_line(
    f: FindingView,
    palette: Option<PaletteView>,
    show_safe: bool,
)
    ensures
        lines_of(seq![f], palette, show_safe) == if f.severity == Severity::Safe && !show_safe {
            seq![]
        } else {
            line_of(f, palette)
        },
{
    reveal_with_fuel(lines_of, 2);
    assert(seq![f].drop_last() =~= seq![]);
    assert(lines_of(seq![f], palette, show_safe) =~= if f.severity == Severity::Safe && !show_safe {
        seq![]
    } else {
        line_of(f, palette)
    });
}

/// With one finding more, a report has the same lines and behind them its line,
/// and none but a safe finding can be left out.
pub proof fn one_finding_more_is_one_line_more(
    findings: Seq<FindingView>,
    f: FindingView,
    palette: Option<PaletteView>,
)
    ensures
        lines_of(findings.push(f), palette, true) == lines_of(findings, palette, true) + line_of(
            f,
            palette,
        ),
        f.severity != Severity::Safe ==> lines_of(findings.push(f), palette, false) == lines_of(
            findings,
            palette,
            false,
        ) + line_of(f, palette),
        f.severity == Severity::Safe ==> lines_of(findings.push(f), palette, false) == lines_of(
            findings,
            palette,
            false,
        ),
{
    assert(findings.push(f) =~= findings + seq![f]);
    report_lines_go_finding_by_finding(findings, seq![f], palette, true);
    report_lines_go_finding_by_finding(findings, seq![f], palette, false);
    one_finding_has_one_line(f, palette, true);
    one_finding_has_one_line(f, palette, false);
    assert(lines_of(findings, palette, false) + seq![] =~= lines_of(findings, palette, false));
}

/// A padded text begins with the text, goes on with spaces alone, and is as long as
/// the column, or as the text where that is longer.
pub proof fn padding_adds_spaces_behind(s: Seq<char>, width: nat)
    ensures
        padded(s, width).len() == if s.len() < width {
            width
        } else {
            s.len()
        },
        s.is_prefix_of(padded(s, width)),
        forall|i: int|
            s.len() <= i < padded(s, width).len() ==> #[trigger] padded(s, width)[i] == ' ',
{
}

/// A line without color shows the label, the port and the protocol, where the
/// socket is bound, the process or a question mark, and the container and the scope
/// where there are any.
pub proof fn a_plain_line_shows_every_part(f: FindingView)
    ensures
        line_of(f, None) == "["@ + padded(label_of(f.severity), 28) + "]"@ + " "@ + decimal(
            f.socket.port as nat,
        ) + "/"@ + padded(f.socket.proto, 4) + " "@ + padded(
            match f.socket.addr {
                BindView::Wildcard => "0.0.0.0/[::]"@,
                BindView::Loopback => "127.0.0.1"@,
                BindView::Specific(ip) => ip_text(ip),
            },
            14,
        ) + " process="@ + (match f.socket.process {
            Some(process) => process,
            None => "?"@,
        }) + (match f.docker_container {
            Some(container) => " (container: "@ + container + ")"@,
            None => seq![],
        }) + (match f.scope_note {
            Some(scope) => " ["@ + scope + "]"@,
            None => seq![],
        }) + "\n"@,
{
    assert(Seq::<char>::empty() + "["@ =~= "["@);
    let head = "["@ + padded(label_of(f.severity), 28) + "]"@;
    assert(head + Seq::<char>::empty() =~= head);
}

/// A line in color is the plain line with the color of the severity before it, and
/// the end of the color behind the bracket of the label.
pub proof fn color_stands_around_the_label(f: FindingView, p: PaletteView)
    ensures
        ({
            let plain = line_of(f, None);
            let n = padded(label_of(f.severity), 28).len() as int + "["@.len() + "]"@.len();
            let color = match f.severity {
                Severity::Safe => p.safe,
                Severity::Blocked => p.blocked,
                Severity::ExposedRestricted => p.restricted,
                Severity::ExposedAllowed => p.allowed,
                Severity::ExposedDocker => p.docker,
            };
            &&& color_of(p, f.severity) == color
            &&& line_of(f, Some(p)) == color + plain.take(n) + p.reset + plain.skip(n)
        }),
{
    let label = padded(label_of(f.severity), 28);
    let head = "["@ + label + "]"@;
    let color = color_of(p, f.severity);
    let at = padded(addr_note(f.socket.addr), 14);
    let process = match f.socket.process {
        Some(process) => process,
        None => "?"@,
    };
    let tail = seq![
        " "@,
        decimal(f.socket.port as nat),
        "/"@,
        padded(f.socket.proto, 4),
        " "@,
        at,
        " process="@,
        process,
        note(" (container: "@, f.docker_container, ")"@),
        note(" ["@, f.scope_note, "]"@),
        "\n"@,
    ];
    let none = Seq::<char>::empty();
    lemma_behind(none + "["@ + label + "]"@ + none, tail);
    lemma_behind(color + "["@ + label + "]"@ + p.reset, tail);
    assert(none + "["@ + label + "]"@ + none =~= head);
    assert(color + "["@ + label + "]"@ + p.reset =~= color + head + p.reset);
    lemma_cut_behind(head, glued(tail));
    assert(color + head + p.reset + glued(tail) == line_of(f, Some(p)));
}

/// Some texts one behind the other.
spec fn glued(parts: Seq<Seq<char>>) -> Seq<char> {
    parts.fold_left(Seq::<char>::empty(), |a: Seq<char>, b: Seq<char>| a + b)
}

/// Eleven texts one by one behind another are all of them at once behind it.
proof fn lemma_behind(head: Seq<char>, t: Seq<Seq<char>>)
    requires
        t.len() == 11,
    ensures
        head + t[0] + t[1] + t[2] + t[3] + t[4] + t[5] + t[6] + t[7] + t[8] + t[9] + t[10] == head
            + glued(t),
{
    lemma_glued(head, t);
    reveal_with_fuel(Seq::fold_left, 12);
}

proof fn lemma_glued(head: Seq<char>, t: Seq<Seq<char>>)
    ensures
        t.fold_left(head, |a: Seq<char>, b: Seq<char>| a + b) == head + glued(t),
    decreases t.len(),
{
    if t.len() == 0 {
        assert(head + glued(t) =~= head);
    } else {
        lemma_glued(head, t.drop_last());
        assert(glued(t) == glued(t.drop_last()) + t.last());
        assert(head + (glued(t.drop_last()) + t.last()) =~= head + glued(t.drop_last()) + t.last());
    }
}

proof fn lemma_cut_behind(head: Seq<char>, tail: Seq<char>)
    ensures
        (head + tail).take(head.len() as int) == head,
        (head + tail).skip(head.len() as int) == tail,
{
    assert((head + tail).take(head.len() as int) =~= head);
    assert((head + tail).skip(head.len() as int) =~= tail);
}

/// The counts go finding by finding: those on two lists add up, and one finding
/// counts once, for its own severity.
pub proof fn counts_go_finding_by_finding(
    a: Seq<FindingView>,
    b: Seq<FindingView>,
    f: FindingView,
    severity: Severity,
)
    ensures
        count_of(a + b, severity) == count_of(a, severity) + count_of(b, severity),
        count_of(seq![f], severity) == if f.severity == severity {
            1nat
        } else {
            0nat
        },
    decreases b.len(),
{
    if b.len() == 0 {
        assert(a + b =~= a);
    } else {
        assert((a + b).drop_last() =~= a + b.drop_last());
        counts_go_finding_by_finding(a, b.drop_last(), f, severity);
    }
    reveal_with_fuel(count_of, 2);
    assert(seq![f].drop_last() =~= seq![]);
}

/// A report is its lines and then how many findings there are in all and of each
/// severity, shown or not.
pub proof fn a_report_ends_with_the_counts(
    findings: Seq<FindingView>,
    palette: Option<PaletteView>,
    show_safe: bool,
)
    ensures
        report_of(findings, palette, show_safe) == lines_of(findings, palette, show_safe)
            + summary_of(findings),
        summary_of(findings) == "\n"@ + decimal(findings.len()) + " sockets total — "@ + decimal(
            count_of(findings, Severity::Safe),
        ) + " safe, "@ + decimal(count_of(findings, Severity::Blocked)) + " blocked by ufw, "@
            + decimal(count_of(findings, Severity::ExposedRestricted)) + " exposed (ufw-scoped), "@
            + decimal(count_of(findings, Severity::ExposedAllowed)) + " exposed (ufw-allowed), "@
            + decimal(count_of(findings, Severity::ExposedDocker))
            + " exposed (docker bypasses ufw)\n"@,
{
}

/// Where a socket is bound is shown by a word or an address, and a part that a
/// finding lacks is null.
pub proof fn binds_and_texts_are_shown_as_they_are(ip: IpView, text: Seq<char>)
    ensures
        addr_note(BindView::Specific(ip)) == ip_text(ip),
        addr_note(BindView::Wildcard) == "0.0.0.0/[::]"@,
        addr_note(BindView::Loopback) == "127.0.0.1"@,
        bind_name(BindView::Specific(ip)) == ip_text(ip),
        bind_name(BindView::Wildcard) == "wildcard"@,
        bind_name(BindView::Loopback) == "loopback"@,
        text_or_null(Some(text)) == ValueView::Text(text),
        text_or_null(None) == ValueView::Null,
        text_or_empty(Some(text)) == text,
        text_or_empty(None) == Seq::<char>::empty(),
        forall|w: String| #[trigger] written(Ok(w)) == Some(w@),
        forall|e: serde_json::Error| #[trigger] written(Err(e)) is None,
{
}

/// A palette in force is five true colors and the end of a color.
pub proof fn a_palette_is_colors_and_their_end(p: PaletteView)
    ensures
        is_palette(p) <==> {
            &&& exists|r: u8, g: u8, b: u8| p.safe == color_code(r, g, b)
            &&& exists|r: u8, g: u8, b: u8| p.blocked == color_code(r, g, b)
            &&& exists|r: u8, g: u8, b: u8| p.restricted == color_code(r, g, b)
            &&& exists|r: u8, g: u8, b: u8| p.allowed == color_code(r, g, b)
            &&& exists|r: u8, g: u8, b: u8| p.docker == color_code(r, g, b)
            &&& p.reset == "\u{1b}[0m"@
        },
        forall|r: u8, g: u8, b: u8| #[trigger]
            color_code(r, g, b) == "\u{1b}[38;2;"@ + decimal(r as nat) + ";"@ + decimal(g as nat)
                + ";"@ + decimal(b as nat) + "m"@,
{
}

/// There is a record for each finding, in order, and none more.
pub proof fn records_go_finding_by_finding(findings: Seq<FindingView>, i: int)
    requires
        0 <= i < findings.len(),
    ensures
        records_of(findings).len() == findings.len(),
        records_of(findings)[i] == record_of(findings[i]),
{
}

} // verus!
