//! Rendering reports as text, and the summary a machine-readable rendering of
//! several reports carries.

use vstd::prelude::*;

use crate::analyze::{grade_for, grade_of, label_of, FindingView, Report, ReportView, Severity};
use crate::text::{chars_of, contains, contains_at, decimal, push_char, push_chars, push_decimal, push_str};

verus! {

/// Switches ANSI styling off again.
pub open spec fn reset() -> Seq<char> {
    "\x1b[0m"@
}

/// `text` wrapped in an ANSI style when colour is on, bare otherwise.
pub open spec fn paint(text: Seq<char>, code: Seq<char>, colour: bool) -> Seq<char> {
    if colour {
        code + text + reset()
    } else {
        text
    }
}

/// The colour a severity label is shown in.
pub open spec fn severity_colour(s: Severity) -> Seq<char> {
    match s {
        Severity::High => "\x1b[31m"@,
        Severity::Medium => "\x1b[33m"@,
        Severity::Low => "\x1b[36m"@,
        Severity::Info => "\x1b[2m"@,
    }
}

/// The colour a grade is shown in: green for A and B, yellow for C and D,
/// red otherwise.
pub open spec fn grade_colour(grade: char) -> Seq<char> {
    if grade == 'A' || grade == 'B' {
        "\x1b[32m"@
    } else if grade == 'C' || grade == 'D' {
        "\x1b[33m"@
    } else {
        "\x1b[31m"@
    }
}

/// `s` padded with spaces on the right to `width` characters (`{:<width}`).
pub open spec fn pad_right(s: Seq<char>, width: nat) -> Seq<char> {
    if s.len() >= width {
        s
    } else {
        s + Seq::new((width - s.len()) as nat, |i: int| ' ')
    }
}

/// The first line of a report: URL, status, and the painted grade and score.
pub open spec fn heading_text(r: ReportView, colour: bool) -> Seq<char> {
    r.url + "  "@ + decimal(r.status as nat) + " "@ + paint(
        "grade "@ + seq![r.grade] + " ("@ + decimal(r.score as nat) + "/100)"@,
        grade_colour(r.grade),
        colour,
    )
}

/// The severity label, padded to eight columns.
pub open spec fn label_column(s: Severity, colour: bool) -> Seq<char> {
    pad_right(paint(label_of(s), severity_colour(s), colour), 8)
}

/// The first line shown for a finding: severity, header, message and code.
pub open spec fn finding_line(f: FindingView, colour: bool) -> Seq<char> {
    "  "@ + label_column(f.severity, colour) + " "@ + match f.header {
        Some(h) => h,
        None => "-"@,
    } + ": "@ + f.message + " "@ + paint("["@ + f.code + "]"@, "\x1b[2m"@, colour) + "\n"@
}

/// The second line shown for a finding: the remediation.
pub open spec fn fix_line(f: FindingView, colour: bool) -> Seq<char> {
    "           "@ + paint("fix:"@, "\x1b[2m"@, colour) + " "@ + f.remediation + "\n"@
}

/// The two lines shown for one finding.
pub open spec fn finding_text(f: FindingView, colour: bool) -> Seq<char> {
    finding_line(f, colour) + fix_line(f, colour)
}

/// The lines of every finding, in order.
pub open spec fn findings_text(fs: Seq<FindingView>, colour: bool) -> Seq<char>
    decreases fs.len(),
{
    if fs.len() == 0 {
        Seq::empty()
    } else {
        findings_text(fs.drop_last(), colour) + finding_text(fs.last(), colour)
    }
}

/// The text rendering of a report.
pub open spec fn report_text(r: ReportView, colour: bool) -> Seq<char> {
    paint(heading_text(r, colour), "\x1b[1m"@, colour) + "\n"@ + if r.findings.len() == 0 {
        "  no findings\n"@
    } else {
        findings_text(r.findings, colour)
    }
}

/// Appends `text`, painted when colour is on.
fn push_painted(out: &mut String, text: &[char], code: &str, colour: bool)
    ensures
        final(out)@ == old(out)@ + paint(text@, code@, colour),
{
    if colour {
        push_str(out, code);
        push_chars(out, text);
        push_str(out, "\x1b[0m");
    } else {
        push_chars(out, text);
    }
}

/// The escape sequence for a severity.
fn severity_colour_code(s: Severity) -> (r: &'static str)
    ensures
        r@ == severity_colour(s),
{
    match s {
        Severity::High => "\x1b[31m",
        Severity::Medium => "\x1b[33m",
        Severity::Low => "\x1b[36m",
        Severity::Info => "\x1b[2m",
    }
}

/// The escape sequence for a grade.
fn grade_colour_code(grade: char) -> (r: &'static str)
    ensures
        r@ == grade_colour(grade),
{
    if grade == 'A' || grade == 'B' {
        "\x1b[32m"
    } else if grade == 'C' || grade == 'D' {
        "\x1b[33m"
    } else {
        "\x1b[31m"
    }
}

/// Appends `text` padded with spaces to `width` characters.
fn push_padded(out: &mut String, text: &[char], width: usize)
    ensures
        final(out)@ == old(out)@ + pad_right(text@, width as nat),
{
    push_chars(out, text);
    let mut n: usize = text.len();
    let ghost mid = out@;
    while n < width
        invariant
            text@.len() <= n <= width || (n == text@.len() && n >= width),
            out@ == mid + Seq::new((n - text@.len()) as nat, |i: int| ' '),
        decreases width - n,
    {
        push_char(out, ' ');
        n = n + 1;
        assert(out@ =~= mid + Seq::new((n - text@.len()) as nat, |i: int| ' '));
    }
    proof {
        if text@.len() >= width {
            assert(out@ =~= mid);
        }
    }
    assert(out@ =~= old(out)@ + pad_right(text@, width as nat));
}

fn push_label(out: &mut String, s: Severity, colour: bool)
    ensures
        final(out)@ == old(out)@ + label_column(s, colour),
{
    let mut label = String::new();
    let label_chars = chars_of(s.label());
    push_painted(&mut label, label_chars.as_slice(), severity_colour_code(s), colour);
    let label_chars = chars_of(label.as_str());
    push_padded(out, label_chars.as_slice(), 8);
}

fn push_finding_line(out: &mut String, f: &crate::analyze::Finding, colour: bool)
    ensures
        final(out)@ == old(out)@ + finding_line(f@, colour),
{
    let ghost start = out@;
    push_str(out, "  ");
    push_label(out, f.severity, colour);
    push_str(out, " ");
    match &f.header {
        Some(h) => push_str(out, h.as_str()),
        None => push_str(out, "-"),
    }
    let ghost mid = out@;
    push_str(out, ": ");
    push_str(out, f.message.as_str());
    push_str(out, " ");
    let mut code = String::new();
    push_str(&mut code, "[");
    push_str(&mut code, f.code.as_str());
    push_str(&mut code, "]");
    let code_chars = chars_of(code.as_str());
    push_painted(out, code_chars.as_slice(), "\x1b[2m", colour);
    push_str(out, "\n");
    assert(out@ =~= start + finding_line(f@, colour));
}

fn push_fix_line(out: &mut String, f: &crate::analyze::Finding, colour: bool)
    ensures
        final(out)@ == old(out)@ + fix_line(f@, colour),
{
    let ghost start = out@;
    push_str(out, "           ");
    let fix = chars_of("fix:");
    push_painted(out, fix.as_slice(), "\x1b[2m", colour);
    push_str(out, " ");
    push_str(out, f.remediation.as_str());
    push_str(out, "\n");
    assert(out@ =~= start + fix_line(f@, colour));
}

fn push_finding_text(out: &mut String, f: &crate::analyze::Finding, colour: bool)
    ensures
        final(out)@ == old(out)@ + finding_text(f@, colour),
{
    let ghost start = out@;
    push_finding_line(out, f, colour);
    push_fix_line(out, f, colour);
    assert(out@ =~= start + finding_text(f@, colour));
}

/// Render a report as human-readable text.
pub fn render_text(report: &Report, colour: bool) -> (out: String)
    ensures
        out@ == report_text(report@, colour),
{
    let mut grade = String::new();
    push_str(&mut grade, "grade ");
    push_char(&mut grade, report.grade);
    push_str(&mut grade, " (");
    push_decimal(&mut grade, report.score as u64);
    push_str(&mut grade, "/100)");
    let mut heading = String::new();
    push_str(&mut heading, report.url.as_str());
    push_str(&mut heading, "  ");
    push_decimal(&mut heading, report.status as u64);
    push_str(&mut heading, " ");
    let grade_chars = chars_of(grade.as_str());
    push_painted(&mut heading, grade_chars.as_slice(), grade_colour_code(report.grade), colour);
    assert(heading@ =~= heading_text(report@, colour));
    let mut out = String::new();
    let heading_chars = chars_of(heading.as_str());
    push_painted(&mut out, heading_chars.as_slice(), "\x1b[1m", colour);
    push_str(&mut out, "\n");
    if report.findings.len() == 0 {
        push_str(&mut out, "  no findings\n");
        return out;
    }
    let ghost fs = report@.findings;
    let ghost top = out@;
    let mut i: usize = 0;
    assert(fs.take(0) =~= Seq::<FindingView>::empty());
    assert(out@ =~= top + findings_text(fs.take(0), colour));
    while i < report.findings.len()
        invariant
            i <= report.findings@.len(),
            fs == report@.findings,
            out@ == top + findings_text(fs.take(i as int), colour),
        decreases report.findings@.len() - i,
    {
        assert(fs.take(i + 1).drop_last() =~= fs.take(i as int));
        assert(fs.take(i + 1).last() == report.findings@[i as int]@);
        push_finding_text(&mut out, &report.findings[i], colour);
        i = i + 1;
        assert(out@ =~= top + findings_text(fs.take(i as int), colour));
    }
    assert(fs.take(i as int) =~= fs);
    out
}

/// The lowest score among reports, 100 when there are none.
pub open spec fn lowest_score(rs: Seq<ReportView>) -> u32
    decreases rs.len(),
{
    if rs.len() == 0 {
        100
    } else if rs.len() == 1 {
        rs[0].score
    } else {
        let rest = lowest_score(rs.drop_last());
        if rs.last().score < rest {
            rs.last().score
        } else {
            rest
        }
    }
}

/// How many findings the reports hold together.
pub open spec fn finding_count(rs: Seq<ReportView>) -> nat
    decreases rs.len(),
{
    if rs.len() == 0 {
        0
    } else {
        finding_count(rs.drop_last()) + rs.last().findings.len()
    }
}

/// The models of a list of reports.
pub open spec fn report_views(rs: Seq<Report>) -> Seq<ReportView> {
    rs.map_values(|r: Report| r@)
}

/// What a set of reports amounts to: how many targets, the worst score and
/// its grade, and how many findings in all.
#[derive(Debug, Clone, Copy, PartialEq, Eq, Structural)]
pub struct Summary {
    /// How many reports.
    pub targets: usize,
    /// The worst score, 100 when there are no reports.
    pub lowest_score: u32,
    /// The grade of the worst score.
    pub lowest_grade: char,
    /// Findings across all reports.
    pub findings: usize,
}

/// Summarise reports: the worst target, not the first or the mean.
pub fn summarize(reports: &[Report]) -> (s: Summary)
    requires
        finding_count(report_views(reports@)) <= usize::MAX,
    ensures
        s.targets == reports@.len(),
        s.lowest_score == lowest_score(report_views(reports@)),
        s.lowest_grade == grade_of(s.lowest_score as int),
        s.findings == finding_count(report_views(reports@)),
{
    let ghost rs = report_views(reports@);
    let mut worst: u32 = 100;
    let mut count: usize = 0;
    let mut i: usize = 0;
    while i < reports.len()
        invariant
            i <= reports@.len(),
            rs == report_views(reports@),
            finding_count(rs) <= usize::MAX,
            worst == lowest_score(rs.take(i as int)),
            count == finding_count(rs.take(i as int)),
        decreases reports@.len() - i,
    {
        assert(rs.take(i + 1).drop_last() =~= rs.take(i as int));
        assert(rs.take(i + 1).last() == reports@[i as int]@);
        proof {
            lemma_finding_count_prefix(rs, i + 1);
        }
        let score = reports[i].score;
        if i == 0 || score < worst {
            worst = score;
        }
        count = count + reports[i].findings.len();
        i = i + 1;
    }
    assert(rs.take(i as int) =~= rs);
    Summary { targets: reports.len(), lowest_score: worst, lowest_grade: grade_for(worst), findings: count }
}

proof fn lemma_finding_count_prefix(rs: Seq<ReportView>, i: int)
    requires
        0 <= i <= rs.len(),
    ensures
        finding_count(rs.take(i)) <= finding_count(rs),
    decreases rs.len() - i,
{
    if i < rs.len() {
        lemma_finding_count_prefix(rs, i + 1);
        assert(rs.take(i + 1).drop_last() =~= rs.take(i));
    } else {
        assert(rs.take(i) =~= rs);
    }
}

/// The lowest score is at most every report's score and is the score of
/// one of them; with no reports it is 100.
pub proof fn law_lowest_score(rs: Seq<ReportView>)
    ensures
        forall|i: int| 0 <= i < rs.len() ==> lowest_score(rs) <= #[trigger] rs[i].score,
        rs.len() > 0 ==> exists|i: int| 0 <= i < rs.len() && lowest_score(rs) == rs[i].score,
        rs.len() == 0 ==> lowest_score(rs) == 100,
    decreases rs.len(),
{
    if rs.len() > 1 {
        law_lowest_score(rs.drop_last());
        let t = rs.drop_last();
        assert forall|i: int| 0 <= i < rs.len() implies lowest_score(rs) <= #[trigger] rs[i].score by {
            if i < rs.len() - 1 {
                assert(rs[i] == t[i]);
            }
        }
        if rs.last().score >= lowest_score(t) {
            let i = choose|i: int| 0 <= i < t.len() && lowest_score(t) == t[i].score;
            assert(rs[i] == t[i]);
        } else {
            assert(rs[rs.len() - 1] == rs.last());
        }
    } else if rs.len() == 1 {
        assert(lowest_score(rs) == rs[0].score);
    }
}

/// Whether some report scores below `min_score`.
pub open spec fn any_below(rs: Seq<ReportView>, min_score: u32) -> bool {
    exists|i: int| 0 <= i < rs.len() && #[trigger] rs[i].score < min_score
}

/// The process exit status of a scan: 1 when a request failed or some target
/// scored below `min_score`, 0 otherwise.
pub fn exit_status(reports: &[Report], min_score: u32, failed: bool) -> (code: u8)
    ensures
        code == if failed || any_below(report_views(reports@), min_score) {
            1u8
        } else {
            0u8
        },
        forall|i: int| 0 <= i < reports@.len() && #[trigger] reports@[i].score < min_score ==> code
            == 1,
        code == 0 ==> !failed && forall|i: int|
            0 <= i < reports@.len() ==> #[trigger] reports@[i].score >= min_score,
        code == 0 || code == 1,
{
    let ghost rs = report_views(reports@);
    if failed {
        return 1;
    }
    let mut i: usize = 0;
    while i < reports.len()
        invariant
            i <= reports@.len(),
            rs == report_views(reports@),
            forall|j: int| 0 <= j < i ==> #[trigger] rs[j].score >= min_score,
        decreases reports@.len() - i,
    {
        assert(rs[i as int] == reports@[i as int]@);
        if reports[i].score < min_score {
            assert(rs[i as int].score < min_score);
            return 1;
        }
        i = i + 1;
    }
    proof {
        assert forall|j: int| 0 <= j < reports@.len() implies #[trigger] reports@[j].score
            >= min_score by {
            assert(rs[j] == reports@[j]@);
            assert(rs[j].score >= min_score);
        }
    }
    0
}

/// The CI gate: the exit status is 1 as soon as any target, the first
/// included, scores below the threshold or a request failed, and 0 only when
/// no request failed and every target meets the threshold.
pub proof fn law_exit_status_gate(rs: Seq<ReportView>, min_score: u32, failed: bool)
    ensures
        forall|i: int| 0 <= i < rs.len() && #[trigger] rs[i].score < min_score ==> any_below(
            rs,
            min_score,
        ),
        !(failed || any_below(rs, min_score)) <==> (!failed && forall|i: int|
            0 <= i < rs.len() ==> #[trigger] rs[i].score >= min_score),
{
}

proof fn lemma_contains_in_concat(a: Seq<char>, b: Seq<char>, t: Seq<char>)
    ensures
        contains(a, t) ==> contains(a + b, t),
        contains(b, t) ==> contains(a + b, t),
{
    if contains(a, t) {
        let k = choose|k: int| contains_at(a, t, k);
        assert((a + b).subrange(k, k + t.len()) =~= a.subrange(k, k + t.len()));
        assert(contains_at(a + b, t, k));
    }
    if contains(b, t) {
        let k = choose|k: int| contains_at(b, t, k);
        let j = a.len() + k;
        assert((a + b).subrange(j, j + t.len()) =~= b.subrange(k, k + t.len()));
        assert(contains_at(a + b, t, j));
    }
}

proof fn lemma_contains_trans(s: Seq<char>, u: Seq<char>, t: Seq<char>)
    requires
        contains(s, u),
        contains(u, t),
    ensures
        contains(s, t),
{
    let k = choose|k: int| contains_at(s, u, k);
    let j = choose|j: int| contains_at(u, t, j);
    let a = s.subrange(k + j, k + j + t.len());
    let b = u.subrange(j, j + t.len());
    assert(a =~= b) by {
        assert forall|x: int| 0 <= x < t.len() implies #[trigger] a[x] == b[x] by {
            assert(s.subrange(k, k + u.len())[j + x] == s[k + j + x]);
        }
    }
    assert(contains_at(s, t, k + j));
}

/// What a finding's line shows of it: its padded severity label, then its
/// header (`-` when it has none), a colon, and its message.
pub open spec fn shown_header(f: FindingView) -> Seq<char> {
    match f.header {
        Some(h) => h,
        None => "-"@,
    }
}

proof fn lemma_finding_text_names_header(f: FindingView, colour: bool)
    ensures
        contains(
            finding_text(f, colour),
            label_column(f.severity, colour) + " "@ + shown_header(f) + ": "@ + f.message,
        ),
{
    reveal_strlit("  ");
    let t = label_column(f.severity, colour) + " "@ + shown_header(f) + ": "@ + f.message;
    let rest = " "@ + paint("["@ + f.code + "]"@, "\x1b[2m"@, colour) + "\n"@;
    let line = finding_line(f, colour);
    assert(line =~= "  "@ + t + rest);
    assert(line.subrange(2, 2 + t.len() as int) =~= t);
    assert(contains_at(line, t, 2));
    lemma_contains_in_concat(line, fix_line(f, colour), t);
}

proof fn lemma_findings_text_contains(fs: Seq<FindingView>, i: int, colour: bool)
    requires
        0 <= i < fs.len(),
    ensures
        contains(findings_text(fs, colour), finding_text(fs[i], colour)),
    decreases fs.len(),
{
    let prev = findings_text(fs.drop_last(), colour);
    let last = finding_text(fs.last(), colour);
    if i == fs.len() - 1 {
        assert(fs[i] == fs.last());
        assert((prev + last).subrange(prev.len() as int, (prev.len() + last.len()) as int) =~= last);
        assert(contains_at(prev + last, last, prev.len() as int));
    } else {
        lemma_findings_text_contains(fs.drop_last(), i, colour);
        assert(fs.drop_last()[i] == fs[i]);
        lemma_contains_in_concat(prev, last, finding_text(fs[i], colour));
    }
}

/// Every finding of a report is shown in its text, with or without colour:
/// its padded severity label, then the header it concerns (`-` only when it
/// concerns none), a colon and its message.
pub proof fn law_rendered_findings_name_their_headers(r: ReportView, colour: bool, i: int)
    requires
        0 <= i < r.findings.len(),
    ensures
        contains(
            report_text(r, colour),
            label_column(r.findings[i].severity, colour) + " "@ + shown_header(r.findings[i]) + ": "@
                + r.findings[i].message,
        ),
        r.findings[i].header matches Some(h) ==> contains(
            report_text(r, colour),
            " "@ + h + ": "@ + r.findings[i].message,
        ),
{
    let f = r.findings[i];
    let t = label_column(f.severity, colour) + " "@ + shown_header(f) + ": "@ + f.message;
    lemma_finding_text_names_header(f, colour);
    lemma_findings_text_contains(r.findings, i, colour);
    lemma_contains_trans(findings_text(r.findings, colour), finding_text(f, colour), t);
    let head = paint(heading_text(r, colour), "\x1b[1m"@, colour) + "\n"@;
    assert(report_text(r, colour) == head + findings_text(r.findings, colour));
    lemma_contains_in_concat(head, findings_text(r.findings, colour), t);
    if f.header is Some {
        let u = " "@ + shown_header(f) + ": "@ + f.message;
        let l = label_column(f.severity, colour);
        assert(t =~= l + u);
        assert(t.subrange(l.len() as int, (l.len() + u.len()) as int) =~= u);
        assert(contains_at(t, u, l.len() as int));
        lemma_contains_trans(report_text(r, colour), t, u);
    }
}

/// Whether a string holds no ANSI escape character.
pub open spec fn escape_free(s: Seq<char>) -> bool {
    forall|i: int| 0 <= i < s.len() ==> s[i] != '\x1b'
}

proof fn lemma_escape_free_concat(a: Seq<char>, b: Seq<char>)
    requires
        escape_free(a),
        escape_free(b),
    ensures
        escape_free(a + b),
{
    assert forall|i: int| 0 <= i < (a + b).len() implies (a + b)[i] != '\x1b' by {
        if i < a.len() {
            assert((a + b)[i] == a[i]);
        } else {
            assert((a + b)[i] == b[i - a.len()]);
        }
    }
}

proof fn lemma_decimal_escape_free(n: nat)
    ensures
        escape_free(decimal(n)),
    decreases n,
{
    if n >= 10 {
        lemma_decimal_escape_free(n / 10);
        let d = ((n % 10 + 48) as u8) as char;
        assert(d as int == n % 10 + 48);
        lemma_escape_free_concat(decimal(n / 10), seq![d]);
    } else {
        let d = ((n + 48) as u8) as char;
        assert(d as int == n + 48);
    }
}

/// Whether a finding's own text holds no escape character.
pub open spec fn finding_escape_free(f: FindingView) -> bool {
    &&& escape_free(f.code)
    &&& escape_free(f.message)
    &&& escape_free(f.remediation)
    &&& (f.header matches Some(h) ==> escape_free(h))
}

proof fn lemma_finding_plain(f: FindingView)
    requires
        finding_escape_free(f),
    ensures
        escape_free(finding_text(f, false)),
{
    reveal_strlit("  ");
    reveal_strlit(" ");
    reveal_strlit("-");
    reveal_strlit(": ");
    reveal_strlit("[");
    reveal_strlit("]");
    reveal_strlit("\n");
    reveal_strlit("           ");
    reveal_strlit("fix:");
    reveal_strlit("info");
    reveal_strlit("low");
    reveal_strlit("medium");
    reveal_strlit("high");
    let label = label_of(f.severity);
    assert(escape_free(label));
    let pad = Seq::new((8 - label.len()) as nat, |i: int| ' ');
    if label.len() < 8 {
        lemma_escape_free_concat(label, pad);
    }
    let col = label_column(f.severity, false);
    let h = match f.header {
        Some(h) => h,
        None => "-"@,
    };
    assert(escape_free(h));
    let code = "["@ + f.code + "]"@;
    lemma_escape_free_concat("["@, f.code);
    lemma_escape_free_concat("["@ + f.code, "]"@);
    let l1 = "  "@ + col + " "@ + h + ": "@ + f.message + " "@ + code + "\n"@;
    lemma_escape_free_concat("  "@, col);
    lemma_escape_free_concat("  "@ + col, " "@);
    lemma_escape_free_concat("  "@ + col + " "@, h);
    lemma_escape_free_concat("  "@ + col + " "@ + h, ": "@);
    lemma_escape_free_concat("  "@ + col + " "@ + h + ": "@, f.message);
    lemma_escape_free_concat("  "@ + col + " "@ + h + ": "@ + f.message, " "@);
    lemma_escape_free_concat("  "@ + col + " "@ + h + ": "@ + f.message + " "@, code);
    lemma_escape_free_concat("  "@ + col + " "@ + h + ": "@ + f.message + " "@ + code, "\n"@);
    assert(finding_line(f, false) == l1);
    let l2 = "           "@ + "fix:"@ + " "@ + f.remediation + "\n"@;
    lemma_escape_free_concat("           "@, "fix:"@);
    lemma_escape_free_concat("           "@ + "fix:"@, " "@);
    lemma_escape_free_concat("           "@ + "fix:"@ + " "@, f.remediation);
    lemma_escape_free_concat("           "@ + "fix:"@ + " "@ + f.remediation, "\n"@);
    assert(fix_line(f, false) == l2);
    lemma_escape_free_concat(l1, l2);
}

proof fn lemma_findings_plain(fs: Seq<FindingView>)
    requires
        forall|i: int| 0 <= i < fs.len() ==> finding_escape_free(#[trigger] fs[i]),
    ensures
        escape_free(findings_text(fs, false)),
    decreases fs.len(),
{
    if fs.len() > 0 {
        lemma_findings_plain(fs.drop_last());
        assert(fs[fs.len() - 1] == fs.last());
        lemma_finding_plain(fs.last());
        lemma_escape_free_concat(findings_text(fs.drop_last(), false), finding_text(fs.last(), false));
    }
}

/// Colour is opt-in: with it the text always carries escape sequences; without
/// it the text holds none, unless the report's own text brings one.
pub proof fn law_colour_is_opt_in(r: ReportView)
    requires
        escape_free(r.url),
        r.grade != '\x1b',
        forall|i: int| 0 <= i < r.findings.len() ==> finding_escape_free(#[trigger] r.findings[i]),
    ensures
        escape_free(report_text(r, false)),
        !escape_free(report_text(r, true)),
{
    reveal_strlit("\x1b[1m");
    assert(report_text(r, true)[0] == '\x1b');
    reveal_strlit("  ");
    reveal_strlit(" ");
    reveal_strlit("grade ");
    reveal_strlit(" (");
    reveal_strlit("/100)");
    reveal_strlit("\n");
    reveal_strlit("  no findings\n");
    lemma_decimal_escape_free(r.status as nat);
    lemma_decimal_escape_free(r.score as nat);
    let g = "grade "@ + seq![r.grade] + " ("@ + decimal(r.score as nat) + "/100)"@;
    lemma_escape_free_concat("grade "@, seq![r.grade]);
    lemma_escape_free_concat("grade "@ + seq![r.grade], " ("@);
    lemma_escape_free_concat("grade "@ + seq![r.grade] + " ("@, decimal(r.score as nat));
    lemma_escape_free_concat("grade "@ + seq![r.grade] + " ("@ + decimal(r.score as nat), "/100)"@);
    let h = r.url + "  "@ + decimal(r.status as nat) + " "@ + g;
    lemma_escape_free_concat(r.url, "  "@);
    lemma_escape_free_concat(r.url + "  "@, decimal(r.status as nat));
    lemma_escape_free_concat(r.url + "  "@ + decimal(r.status as nat), " "@);
    lemma_escape_free_concat(r.url + "  "@ + decimal(r.status as nat) + " "@, g);
    assert(heading_text(r, false) == h);
    lemma_escape_free_concat(h, "\n"@);
    if r.findings.len() == 0 {
        lemma_escape_free_concat(h + "\n"@, "  no findings\n"@);
    } else {
        lemma_findings_plain(r.findings);
        lemma_escape_free_concat(h + "\n"@, findings_text(r.findings, false));
    }
}

} // verus!
