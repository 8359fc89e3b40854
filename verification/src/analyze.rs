//! The checks.
//!
//! Every check is a function of a [`Headers`] set plus the scheme the response
//! was served over, so the whole rule set is stated here over the header model
//! and proved without a network.

use vstd::prelude::*;

use crate::headers::{
    cookie_of, csp_containing, csp_effective, csp_of, field_key, hsts_of, lookup, lookup_all,
    parse_cookie, parse_hsts, Csp, CookieView, HeaderMap, Headers,
};
use crate::text::{
    chars_eq, chars_lt, chars_of, contains, contains_chars, decimal, has_digit, has_prefix,
    in_order, join, lemma_seq_lt_asymmetric, lemma_seq_lt_irreflexive, lemma_seq_lt_total,
    lemma_seq_lt_transitive, lower, push_chars, push_decimal, push_joined, push_str, seq_lt,
    starts_with, to_lower, trim, trim_chars, any_digit,
};

verus! {

// ---------------------------------------------------------------------------
// Severity, findings, reports
// ---------------------------------------------------------------------------

/// How serious a finding is.
#[derive(Debug, Clone, Copy, PartialEq, Eq, PartialOrd, Ord, Structural)]
pub enum Severity {
    /// Worth knowing, no action implied.
    Info,
    /// Weakens a defence.
    Low,
    /// A missing or misconfigured control.
    Medium,
    /// A control that is absent or actively defeated.
    High,
}

/// Position of a severity in the order `Info < Low < Medium < High`.
pub open spec fn rank(s: Severity) -> int {
    match s {
        Severity::Info => 0,
        Severity::Low => 1,
        Severity::Medium => 2,
        Severity::High => 3,
    }
}

/// Points deducted from the score for one finding of this severity.
pub open spec fn weight_of(s: Severity) -> nat {
    match s {
        Severity::Info => 0,
        Severity::Low => 3,
        Severity::Medium => 8,
        Severity::High => 15,
    }
}

/// The lowercase label of a severity.
pub open spec fn label_of(s: Severity) -> Seq<char> {
    match s {
        Severity::Info => "info"@,
        Severity::Low => "low"@,
        Severity::Medium => "medium"@,
        Severity::High => "high"@,
    }
}

impl Severity {
    /// Points deducted from the score.
    fn weight(self) -> (w: u32)
        ensures
            w == weight_of(self),
    {
        match self {
            Severity::Info => 0,
            Severity::Low => 3,
            Severity::Medium => 8,
            Severity::High => 15,
        }
    }

    /// Position in the order `Info < Low < Medium < High`.
    fn rank(self) -> (r: u8)
        ensures
            r == rank(self),
    {
        match self {
            Severity::Info => 0,
            Severity::Low => 1,
            Severity::Medium => 2,
            Severity::High => 3,
        }
    }

    /// Lowercase label.
    pub fn label(self) -> (r: &'static str)
        ensures
            r@ == label_of(self),
    {
        match self {
            Severity::Info => "info",
            Severity::Low => "low",
            Severity::Medium => "medium",
            Severity::High => "high",
        }
    }
}

/// One thing worth reporting about a response.
#[derive(Debug, Clone)]
pub struct Finding {
    /// Stable identifier, safe to grep for in CI logs.
    pub code: String,
    /// How serious it is.
    pub severity: Severity,
    /// The header the finding concerns, if any.
    pub header: Option<String>,
    /// What is wrong.
    pub message: String,
    /// What to do about it.
    pub remediation: String,
}

/// The model of a [`Finding`].
pub struct FindingView {
    pub code: Seq<char>,
    pub severity: Severity,
    pub header: Option<Seq<char>>,
    pub message: Seq<char>,
    pub remediation: Seq<char>,
}

impl View for Finding {
    type V = FindingView;

    open spec fn view(&self) -> FindingView {
        FindingView {
            code: self.code@,
            severity: self.severity,
            header: match self.header {
                Some(h) => Some(h@),
                None => None,
            },
            message: self.message@,
            remediation: self.remediation@,
        }
    }
}

/// The models of a list of findings.
pub open spec fn finding_views(fs: Seq<Finding>) -> Seq<FindingView> {
    fs.map_values(|f: Finding| f@)
}

/// A finding about a named header.
pub open spec fn fv(
    code: Seq<char>,
    severity: Severity,
    header: Seq<char>,
    message: Seq<char>,
    remediation: Seq<char>,
) -> FindingView {
    FindingView {
        code: code,
        severity: severity,
        header: Some(header),
        message: message,
        remediation: remediation,
    }
}

impl Finding {
    fn new(code: &str, severity: Severity, header: Option<&str>, message: String, remediation: &str) -> (f: Self)
        ensures
            f@ == (FindingView {
                code: code@,
                severity: severity,
                header: match header {
                    Some(h) => Some(h@),
                    None => None,
                },
                message: message@,
                remediation: remediation@,
            }),
    {
        Finding {
            code: code.to_owned(),
            severity,
            header: match header {
                Some(h) => Some(h.to_owned()),
                None => None,
            },
            message,
            remediation: remediation.to_owned(),
        }
    }
}

/// The result of auditing one response.
#[derive(Debug, Clone)]
pub struct Report {
    /// The URL audited.
    pub url: String,
    /// The HTTP status observed.
    pub status: u16,
    /// Score out of 100.
    pub score: u32,
    /// Letter grade derived from the score.
    pub grade: char,
    /// Everything found, most severe first.
    pub findings: Vec<Finding>,
}

/// The model of a [`Report`].
pub struct ReportView {
    pub url: Seq<char>,
    pub status: u16,
    pub score: u32,
    pub grade: char,
    pub findings: Seq<FindingView>,
}

impl View for Report {
    type V = ReportView;

    open spec fn view(&self) -> ReportView {
        ReportView {
            url: self.url@,
            status: self.status,
            score: self.score,
            grade: self.grade,
            findings: finding_views(self.findings@),
        }
    }
}

// ---------------------------------------------------------------------------
// Scoring and grading
// ---------------------------------------------------------------------------

/// The points all findings deduct together.
pub open spec fn total_weight(fs: Seq<FindingView>) -> nat
    decreases fs.len(),
{
    if fs.len() == 0 {
        0
    } else {
        total_weight(fs.drop_last()) + weight_of(fs.last().severity)
    }
}

/// 100 less the deductions, never below zero.
pub open spec fn score_of(fs: Seq<FindingView>) -> nat {
    if total_weight(fs) >= 100 {
        0
    } else {
        (100 - total_weight(fs)) as nat
    }
}

/// Letter grade for a score: A from 90, B from 80, C from 70, D from 60,
/// E from 50, F below.
pub open spec fn grade_of(score: int) -> char {
    if score >= 90 {
        'A'
    } else if score >= 80 {
        'B'
    } else if score >= 70 {
        'C'
    } else if score >= 60 {
        'D'
    } else if score >= 50 {
        'E'
    } else {
        'F'
    }
}

/// How many findings have a given severity.
pub open spec fn count_severity(fs: Seq<FindingView>, severity: Severity) -> nat
    decreases fs.len(),
{
    if fs.len() == 0 {
        0
    } else {
        count_severity(fs.drop_last(), severity) + if fs.last().severity == severity {
            1nat
        } else {
            0nat
        }
    }
}

/// Scoring deducts 15 per high, 8 per medium and 3 per low finding from 100,
/// never going below zero; informational findings cost nothing.
pub proof fn law_score_weights(fs: Seq<FindingView>)
    ensures
        total_weight(fs) == 15 * count_severity(fs, Severity::High) + 8 * count_severity(
            fs,
            Severity::Medium,
        ) + 3 * count_severity(fs, Severity::Low),
        score_of(fs) <= 100,
        score_of(fs) == if total_weight(fs) >= 100 {
            0
        } else {
            100 - total_weight(fs)
        },
    decreases fs.len(),
{
    if fs.len() > 0 {
        law_score_weights(fs.drop_last());
    }
}

/// A higher score never earns a worse grade, and every grade is one of A to F.
pub proof fn law_grade_monotone(a: int, b: int)
    requires
        a <= b,
    ensures
        grade_of(b) as int <= grade_of(a) as int,
        'A' as int <= grade_of(a) as int <= 'F' as int,
{
}

/// Letter grade for a score.
pub fn grade_for(score: u32) -> (g: char)
    ensures
        g == grade_of(score as int),
{
    if score >= 90 {
        'A'
    } else if score >= 80 {
        'B'
    } else if score >= 70 {
        'C'
    } else if score >= 60 {
        'D'
    } else if score >= 50 {
        'E'
    } else {
        'F'
    }
}

/// The score of a list of findings.
fn score_findings(findings: &Vec<Finding>) -> (s: u32)
    ensures
        s == score_of(finding_views(findings@)),
{
    let ghost fs = finding_views(findings@);
    let mut deductions: u32 = 0;
    let mut i: usize = 0;
    while i < findings.len()
        invariant
            i <= findings@.len(),
            fs == finding_views(findings@),
            deductions == if total_weight(fs.take(i as int)) >= 100 {
                100
            } else {
                total_weight(fs.take(i as int))
            },
        decreases findings@.len() - i,
    {
        assert(fs.take(i + 1).drop_last() =~= fs.take(i as int));
        let w = findings[i].severity.weight();
        deductions = if deductions + w >= 100 {
            100
        } else {
            deductions + w
        };
        i = i + 1;
    }
    assert(fs.take(i as int) =~= fs);
    100 - deductions
}

// ---------------------------------------------------------------------------
// The rules
// ---------------------------------------------------------------------------

/// Six months: the widely used floor below which HSTS buys little.
pub const HSTS_MIN_MAX_AGE: u64 = 15552000;

/// Findings about `max-age` of an HSTS value served over HTTPS.
pub open spec fn hsts_age_findings(max_age: Option<u64>) -> Seq<FindingView> {
    match max_age {
        None => seq![
            fv(
                "hsts-no-max-age"@,
                Severity::High,
                "Strict-Transport-Security"@,
                "has no parseable max-age, so the policy is not stored"@,
                "Add a max-age directive, for example max-age=31536000"@,
            ),
        ],
        Some(age) => if age == 0 {
            seq![
                fv(
                    "hsts-zero-max-age"@,
                    Severity::High,
                    "Strict-Transport-Security"@,
                    "uses max-age=0, which instructs browsers to forget the policy"@,
                    "Set max-age=31536000 unless you are deliberately rolling HSTS back"@,
                ),
            ]
        } else if age < HSTS_MIN_MAX_AGE {
            seq![
                fv(
                    "hsts-short-max-age"@,
                    Severity::Low,
                    "Strict-Transport-Security"@,
                    "max-age is "@ + decimal(age as nat)
                        + "s, below the six-month floor most guidance uses"@,
                    "Raise max-age to at least 15552000, ideally 31536000"@,
                ),
            ]
        } else {
            Seq::empty()
        },
    }
}

/// The HSTS rule: absent over HTTPS is high; absent over HTTP is only
/// informational; present over HTTP is ineffective; over HTTPS its `max-age`
/// and `includeSubDomains` are judged.
pub open spec fn hsts_findings(m: HeaderMap, is_https: bool) -> Seq<FindingView> {
    match lookup(m, "strict-transport-security"@) {
        None => if is_https {
            seq![
                fv(
                    "hsts-missing"@,
                    Severity::High,
                    "Strict-Transport-Security"@,
                    "not set, so a browser will still try plain HTTP on the next visit"@,
                    "Add: Strict-Transport-Security: max-age=31536000; includeSubDomains"@,
                ),
            ]
        } else {
            seq![
                fv(
                    "hsts-not-applicable"@,
                    Severity::Info,
                    "Strict-Transport-Security"@,
                    "not set, and would be ignored over plain HTTP anyway"@,
                    "Serve this origin over HTTPS, then set HSTS on the HTTPS response"@,
                ),
            ]
        },
        Some(value) => if !is_https {
            seq![
                fv(
                    "hsts-over-http"@,
                    Severity::Medium,
                    "Strict-Transport-Security"@,
                    "set on a plain HTTP response, where browsers ignore it entirely"@,
                    "Set HSTS on the HTTPS response instead; it has no effect here"@,
                ),
            ]
        } else {
            let h = hsts_of(value);
            hsts_age_findings(h.max_age) + if h.include_subdomains {
                Seq::empty()
            } else {
                seq![
                    fv(
                        "hsts-no-subdomains"@,
                        Severity::Low,
                        "Strict-Transport-Security"@,
                        "omits includeSubDomains, leaving subdomains reachable over HTTP"@,
                        "Add includeSubDomains once every subdomain is HTTPS-ready"@,
                    ),
                ]
            }
        },
    }
}

/// Appends one finding.
fn push_finding(findings: &mut Vec<Finding>, f: Finding)
    ensures
        finding_views(final(findings)@) == finding_views(old(findings)@).push(f@),
{
    findings.push(f);
    assert(finding_views(findings@) =~= finding_views(old(findings)@).push(f@));
}

fn check_hsts(headers: &Headers, is_https: bool, findings: &mut Vec<Finding>)
    ensures
        finding_views(final(findings)@) == finding_views(old(findings)@) + hsts_findings(
            headers@,
            is_https,
        ),
{
    let ghost start = finding_views(findings@);
    let value = match headers.get("strict-transport-security") {
        Some(value) => value,
        None => {
            if is_https {
                push_finding(
                    findings,
                    Finding::new(
                        "hsts-missing",
                        Severity::High,
                        Some("Strict-Transport-Security"),
                        "not set, so a browser will still try plain HTTP on the next visit".to_owned(),
                        "Add: Strict-Transport-Security: max-age=31536000; includeSubDomains",
                    ),
                );
            } else {
                push_finding(
                    findings,
                    Finding::new(
                        "hsts-not-applicable",
                        Severity::Info,
                        Some("Strict-Transport-Security"),
                        "not set, and would be ignored over plain HTTP anyway".to_owned(),
                        "Serve this origin over HTTPS, then set HSTS on the HTTPS response",
                    ),
                );
            }
            assert(finding_views(findings@) =~= start + hsts_findings(headers@, is_https));
            return ;
        },
    };

    // A browser ignores HSTS delivered over plain HTTP, so a site that sets it
    // there has a control that does nothing.
    if !is_https {
        push_finding(
            findings,
            Finding::new(
                "hsts-over-http",
                Severity::Medium,
                Some("Strict-Transport-Security"),
                "set on a plain HTTP response, where browsers ignore it entirely".to_owned(),
                "Set HSTS on the HTTPS response instead; it has no effect here",
            ),
        );
        assert(finding_views(findings@) =~= start + hsts_findings(headers@, is_https));
        return ;
    }
    let hsts = parse_hsts(value);
    match hsts.max_age {
        None => push_finding(
            findings,
            Finding::new(
                "hsts-no-max-age",
                Severity::High,
                Some("Strict-Transport-Security"),
                "has no parseable max-age, so the policy is not stored".to_owned(),
                "Add a max-age directive, for example max-age=31536000",
            ),
        ),
        Some(age) => {
            if age == 0 {
                push_finding(
                    findings,
                    Finding::new(
                        "hsts-zero-max-age",
                        Severity::High,
                        Some("Strict-Transport-Security"),
                        "uses max-age=0, which instructs browsers to forget the policy".to_owned(),
                        "Set max-age=31536000 unless you are deliberately rolling HSTS back",
                    ),
                );
            } else if age < HSTS_MIN_MAX_AGE {
                let mut message = String::new();
                push_str(&mut message, "max-age is ");
                push_decimal(&mut message, age);
                push_str(&mut message, "s, below the six-month floor most guidance uses");
                push_finding(
                    findings,
                    Finding::new(
                        "hsts-short-max-age",
                        Severity::Low,
                        Some("Strict-Transport-Security"),
                        message,
                        "Raise max-age to at least 15552000, ideally 31536000",
                    ),
                );
            }
        },
    }
    let ghost mid = finding_views(findings@);
    assert(mid =~= start + hsts_age_findings(hsts.max_age));
    if !hsts.include_subdomains {
        push_finding(
            findings,
            Finding::new(
                "hsts-no-subdomains",
                Severity::Low,
                Some("Strict-Transport-Security"),
                "omits includeSubDomains, leaving subdomains reachable over HTTP".to_owned(),
                "Add includeSubDomains once every subdomain is HTTPS-ready",
            ),
        );
    }
    assert(finding_views(findings@) =~= start + hsts_findings(headers@, is_https));
}

/// Whether some directive in the list is a script directive.
pub open spec fn any_script(names: Seq<Seq<char>>) -> bool {
    exists|i: int| 0 <= i < names.len() && starts_with(#[trigger] names[i], "script"@)
}

/// Findings about a declared, non-empty policy.
pub open spec fn csp_policy_findings(c: Map<Seq<char>, Seq<Seq<char>>>) -> Seq<FindingView> {
    let inline = in_order(csp_containing(c, "'unsafe-inline'"@));
    let eval = in_order(csp_containing(c, "'unsafe-eval'"@));
    (if !c.contains_key("default-src"@) {
        seq![
            fv(
                "csp-no-default-src"@,
                Severity::Medium,
                "Content-Security-Policy"@,
                "has no default-src, so undeclared resource types are unrestricted"@,
                "Add default-src 'self' (or 'none') as a backstop"@,
            ),
        ]
    } else {
        Seq::empty()
    }) + (if inline.len() > 0 {
        seq![
            fv(
                "csp-unsafe-inline"@,
                if any_script(inline) {
                    Severity::High
                } else {
                    Severity::Low
                },
                "Content-Security-Policy"@,
                "allows 'unsafe-inline' in: "@ + join(inline, ", "@),
                "Replace inline code with nonces or hashes, then drop 'unsafe-inline'"@,
            ),
        ]
    } else {
        Seq::empty()
    }) + (if eval.len() > 0 {
        seq![
            fv(
                "csp-unsafe-eval"@,
                Severity::Medium,
                "Content-Security-Policy"@,
                "allows 'unsafe-eval', which permits string-to-code evaluation"@,
                "Remove 'unsafe-eval'; most frameworks no longer need it"@,
            ),
        ]
    } else {
        Seq::empty()
    }) + (if csp_effective(c, "script-src"@) matches Some(sources) && sources.contains("*"@) {
        seq![
            fv(
                "csp-wildcard-script-src"@,
                Severity::High,
                "Content-Security-Policy"@,
                "allows scripts from any origin via a wildcard source"@,
                "Name the origins you actually load scripts from"@,
            ),
        ]
    } else {
        Seq::empty()
    }) + (if !c.contains_key("object-src"@) && !c.contains_key("default-src"@) {
        seq![
            fv(
                "csp-no-object-src"@,
                Severity::Low,
                "Content-Security-Policy"@,
                "does not restrict object-src, leaving plugin content unrestricted"@,
                "Add object-src 'none'"@,
            ),
        ]
    } else {
        Seq::empty()
    })
}

/// The CSP rule: a report-only policy is distinguished from none at all; an
/// enforced policy that declares nothing is high; otherwise its contents are
/// judged.
pub open spec fn csp_findings(m: HeaderMap) -> Seq<FindingView> {
    match lookup(m, "content-security-policy"@) {
        None => if m.contains_key(field_key("content-security-policy-report-only"@)) {
            seq![
                fv(
                    "csp-report-only"@,
                    Severity::Medium,
                    "Content-Security-Policy"@,
                    "only a report-only policy is set, so nothing is actually blocked"@,
                    "Promote the tested policy to Content-Security-Policy to enforce it"@,
                ),
            ]
        } else {
            seq![
                fv(
                    "csp-missing"@,
                    Severity::High,
                    "Content-Security-Policy"@,
                    "not set, so the page has no script-injection defence in depth"@,
                    "Start with: default-src 'self'; object-src 'none'; frame-ancestors 'none'"@,
                ),
            ]
        },
        Some(value) => {
            let c = csp_of(value);
            if c == Map::<Seq<char>, Seq<Seq<char>>>::empty() {
                seq![
                    fv(
                        "csp-empty"@,
                        Severity::High,
                        "Content-Security-Policy"@,
                        "is present but declares no directives"@,
                        "Set a real policy, or remove the header so its absence is honest"@,
                    ),
                ]
            } else {
                csp_policy_findings(c)
            }
        },
    }
}

/// Whether a directive name starts with `script`.
fn any_script_directive(names: &Vec<&str>) -> (r: bool)
    ensures
        r == any_script(names@.map_values(|p: &str| p@)),
{
    let ghost ns = names@.map_values(|p: &str| p@);
    let script = chars_of("script");
    let mut i: usize = 0;
    while i < names.len()
        invariant
            i <= names@.len(),
            ns == names@.map_values(|p: &str| p@),
            script@ == "script"@,
            forall|j: int| 0 <= j < i ==> !starts_with(#[trigger] ns[j], "script"@),
        decreases names@.len() - i,
    {
        let n = chars_of(names[i]);
        if has_prefix(n.as_slice(), script.as_slice()) {
            assert(starts_with(ns[i as int], "script"@));
            return true;
        }
        i = i + 1;
    }
    false
}

/// Whether a source list contains an exact token.
fn list_contains(list: &[String], token: &str) -> (r: bool)
    ensures
        r == list@.map_values(|s: String| s@).contains(token@),
{
    let ghost ls = list@.map_values(|s: String| s@);
    let t = chars_of(token);
    let mut i: usize = 0;
    while i < list.len()
        invariant
            i <= list@.len(),
            ls == list@.map_values(|s: String| s@),
            t@ == token@,
            forall|j: int| 0 <= j < i ==> #[trigger] ls[j] != token@,
        decreases list@.len() - i,
    {
        let s = chars_of(list[i].as_str());
        if chars_eq(s.as_slice(), t.as_slice()) {
            assert(ls[i as int] == token@);
            return true;
        }
        i = i + 1;
    }
    false
}

fn check_policy(csp: &Csp, findings: &mut Vec<Finding>)
    ensures
        finding_views(final(findings)@) == finding_views(old(findings)@) + csp_policy_findings(
            csp@,
        ),
{
    let ghost start = finding_views(findings@);
    let ghost c = csp@;
    if !csp.has("default-src") {
        push_finding(
            findings,
            Finding::new(
                "csp-no-default-src",
                Severity::Medium,
                Some("Content-Security-Policy"),
                "has no default-src, so undeclared resource types are unrestricted".to_owned(),
                "Add default-src 'self' (or 'none') as a backstop",
            ),
        );
    }
    let ghost s1 = finding_views(findings@);
    let unsafe_inline = csp.directives_containing("'unsafe-inline'");
    if unsafe_inline.len() > 0 {
        // Only script-src matters much; 'unsafe-inline' in style-src is a far
        // smaller problem and reporting both at High would be noise.
        let severity = if any_script_directive(&unsafe_inline) {
            Severity::High
        } else {
            Severity::Low
        };
        let mut message = String::new();
        push_str(&mut message, "allows 'unsafe-inline' in: ");
        push_joined(&mut message, &unsafe_inline, ", ");
        push_finding(
            findings,
            Finding::new(
                "csp-unsafe-inline",
                severity,
                Some("Content-Security-Policy"),
                message,
                "Replace inline code with nonces or hashes, then drop 'unsafe-inline'",
            ),
        );
    }
    let ghost s2 = finding_views(findings@);
    let unsafe_eval = csp.directives_containing("'unsafe-eval'");
    if unsafe_eval.len() > 0 {
        push_finding(
            findings,
            Finding::new(
                "csp-unsafe-eval",
                Severity::Medium,
                Some("Content-Security-Policy"),
                "allows 'unsafe-eval', which permits string-to-code evaluation".to_owned(),
                "Remove 'unsafe-eval'; most frameworks no longer need it",
            ),
        );
    }
    let ghost s3 = finding_views(findings@);
    match csp.effective("script-src") {
        Some(sources) => {
            if list_contains(sources, "*") {
                push_finding(
                    findings,
                    Finding::new(
                        "csp-wildcard-script-src",
                        Severity::High,
                        Some("Content-Security-Policy"),
                        "allows scripts from any origin via a wildcard source".to_owned(),
                        "Name the origins you actually load scripts from",
                    ),
                );
            }
        },
        None => {},
    }
    let ghost s4 = finding_views(findings@);
    if !csp.has("object-src") && !csp.has("default-src") {
        push_finding(
            findings,
            Finding::new(
                "csp-no-object-src",
                Severity::Low,
                Some("Content-Security-Policy"),
                "does not restrict object-src, leaving plugin content unrestricted".to_owned(),
                "Add object-src 'none'",
            ),
        );
    }
    assert(finding_views(findings@) =~= start + csp_policy_findings(c));
}

fn check_csp(headers: &Headers, findings: &mut Vec<Finding>)
    ensures
        finding_views(final(findings)@) == finding_views(old(findings)@) + csp_findings(
            headers@,
        ),
{
    let ghost start = finding_views(findings@);
    let value = match headers.get("content-security-policy") {
        Some(value) => value,
        None => {
            // Report-only is a real deployment stage, so say something useful
            // rather than treating it as equivalent to nothing.
            if headers.has("content-security-policy-report-only") {
                push_finding(
                    findings,
                    Finding::new(
                        "csp-report-only",
                        Severity::Medium,
                        Some("Content-Security-Policy"),
                        "only a report-only policy is set, so nothing is actually blocked".to_owned(),
                        "Promote the tested policy to Content-Security-Policy to enforce it",
                    ),
                );
            } else {
                push_finding(
                    findings,
                    Finding::new(
                        "csp-missing",
                        Severity::High,
                        Some("Content-Security-Policy"),
                        "not set, so the page has no script-injection defence in depth".to_owned(),
                        "Start with: default-src 'self'; object-src 'none'; frame-ancestors 'none'",
                    ),
                );
            }
            assert(finding_views(findings@) =~= start + csp_findings(headers@));
            return ;
        },
    };
    let csp = Csp::parse(value);
    if csp.is_empty() {
        push_finding(
            findings,
            Finding::new(
                "csp-empty",
                Severity::High,
                Some("Content-Security-Policy"),
                "is present but declares no directives".to_owned(),
                "Set a real policy, or remove the header so its absence is honest",
            ),
        );
        assert(finding_views(findings@) =~= start + csp_findings(headers@));
        return ;
    }
    check_policy(&csp, findings);
}

/// The clickjacking rule: covered by either `frame-ancestors` in an enforced
/// policy or by `X-Frame-Options`, whether or not any policy is present.
pub open spec fn clickjacking_findings(m: HeaderMap) -> Seq<FindingView> {
    let framed_by_csp = lookup(m, "content-security-policy"@) matches Some(v) && csp_of(
        v,
    ).contains_key("frame-ancestors"@);
    if framed_by_csp || m.contains_key(field_key("x-frame-options"@)) {
        Seq::empty()
    } else {
        seq![
            fv(
                "clickjacking-unprotected"@,
                Severity::Medium,
                "Content-Security-Policy"@,
                "neither frame-ancestors nor X-Frame-Options is set, so the page may be framed"@,
                "Add frame-ancestors 'none' (or 'self') to the policy, or set X-Frame-Options: DENY"@,
            ),
        ]
    }
}

/// Clickjacking is covered by either `frame-ancestors` or `X-Frame-Options`.
///
/// This deliberately lives outside [`check_csp`], which returns early when no
/// policy is present at all.
fn check_clickjacking(headers: &Headers, findings: &mut Vec<Finding>)
    ensures
        finding_views(final(findings)@) == finding_views(old(findings)@) + clickjacking_findings(
            headers@,
        ),
{
    let ghost start = finding_views(findings@);
    let framed_by_csp = match headers.get("content-security-policy") {
        Some(value) => Csp::parse(value).has("frame-ancestors"),
        None => false,
    };
    if framed_by_csp || headers.has("x-frame-options") {
        assert(finding_views(findings@) =~= start + clickjacking_findings(headers@));
        return ;
    }
    push_finding(
        findings,
        Finding::new(
            "clickjacking-unprotected",
            Severity::Medium,
            Some("Content-Security-Policy"),
            "neither frame-ancestors nor X-Frame-Options is set, so the page may be framed".to_owned(),
            "Add frame-ancestors 'none' (or 'self') to the policy, or set X-Frame-Options: DENY",
        ),
    );
    assert(finding_views(findings@) =~= start + clickjacking_findings(headers@));
}

/// What `format!("{:?}", s)` renders a string slice as: Rust's debug form of a
/// string, quoted and escaped.
pub uninterp spec fn debug_quoted(s: Seq<char>) -> Seq<char>;

/// The debug rendering of a string slice, `format!("{:?}", s)`. Its result is
/// named by `debug_quoted` and not stated further: the escaping rules of
/// `str::escape_debug` depend on Unicode tables.
#[verifier::external_body]
fn debug_str(s: &str) -> (r: String)
    ensures
        r@ == debug_quoted(s@),
{
    format!("{:?}", s)
}

/// The version-disclosure rule for one header: flagged only when its value
/// holds a digit, since a bare product name tells an attacker little.
pub open spec fn disclosure_findings(m: HeaderMap, name: Seq<char>) -> Seq<FindingView> {
    match lookup(m, name) {
        Some(value) => if has_digit(value) {
            seq![
                fv(
                    "version-disclosure"@,
                    Severity::Low,
                    name,
                    "discloses a version: "@ + debug_quoted(value),
                    "Suppress the version, or remove the header entirely"@,
                ),
            ]
        } else {
            Seq::empty()
        },
        None => Seq::empty(),
    }
}

/// The `X-Content-Type-Options` rule: it must be `nosniff`, ignoring case and
/// surrounding whitespace.
pub open spec fn nosniff_findings(m: HeaderMap) -> Seq<FindingView> {
    match lookup(m, "x-content-type-options"@) {
        None => seq![
            fv(
                "nosniff-missing"@,
                Severity::Medium,
                "X-Content-Type-Options"@,
                "not set, so browsers may MIME-sniff responses into a different type"@,
                "Add: X-Content-Type-Options: nosniff"@,
            ),
        ],
        Some(value) => if lower(trim(value)) != lower("nosniff"@) {
            seq![
                fv(
                    "nosniff-invalid"@,
                    Severity::Medium,
                    "X-Content-Type-Options"@,
                    "is "@ + debug_quoted(value) + ", but nosniff is the only valid value"@,
                    "Set exactly: X-Content-Type-Options: nosniff"@,
                ),
            ]
        } else {
            Seq::empty()
        },
    }
}

/// The `Referrer-Policy` rule: absent is low; `unsafe-url` anywhere in it,
/// ignoring case, is medium.
pub open spec fn referrer_findings(m: HeaderMap) -> Seq<FindingView> {
    match lookup(m, "referrer-policy"@) {
        None => seq![
            fv(
                "referrer-policy-missing"@,
                Severity::Low,
                "Referrer-Policy"@,
                "not set, so the browser default governs what leaks in the Referer header"@,
                "Add: Referrer-Policy: strict-origin-when-cross-origin"@,
            ),
        ],
        Some(value) => if contains(lower(value), "unsafe-url"@) {
            seq![
                fv(
                    "referrer-policy-unsafe"@,
                    Severity::Medium,
                    "Referrer-Policy"@,
                    "is unsafe-url, which sends full URLs including paths to other origins"@,
                    "Use strict-origin-when-cross-origin instead"@,
                ),
            ]
        } else {
            Seq::empty()
        },
    }
}

/// The rules that only ask for presence: `Permissions-Policy` and
/// `Cross-Origin-Opener-Policy`.
pub open spec fn presence_findings(m: HeaderMap) -> Seq<FindingView> {
    (if !m.contains_key(field_key("permissions-policy"@)) {
        seq![
            fv(
                "permissions-policy-missing"@,
                Severity::Low,
                "Permissions-Policy"@,
                "not set, so powerful features are governed only by browser defaults"@,
                "Add a policy disabling what you do not use, e.g. camera=(), geolocation=()"@,
            ),
        ]
    } else {
        Seq::empty()
    }) + (if !m.contains_key(field_key("cross-origin-opener-policy"@)) {
        seq![
            fv(
                "coop-missing"@,
                Severity::Low,
                "Cross-Origin-Opener-Policy"@,
                "not set, so the page shares a browsing context group with openers"@,
                "Add: Cross-Origin-Opener-Policy: same-origin"@,
            ),
        ]
    } else {
        Seq::empty()
    })
}

/// The single-header rules, then version disclosure in `Server`,
/// `X-Powered-By`, `X-AspNet-Version` and `X-AspNetMvc-Version`.
pub open spec fn simple_findings(m: HeaderMap) -> Seq<FindingView> {
    nosniff_findings(m) + referrer_findings(m) + presence_findings(m) + disclosure_findings(
        m,
        "server"@,
    ) + disclosure_findings(m, "x-powered-by"@) + disclosure_findings(m, "x-aspnet-version"@)
        + disclosure_findings(m, "x-aspnetmvc-version"@)
}

fn check_disclosure(headers: &Headers, name: &str, findings: &mut Vec<Finding>)
    ensures
        finding_views(final(findings)@) == finding_views(old(findings)@) + disclosure_findings(
            headers@,
            name@,
        ),
{
    let ghost start = finding_views(findings@);
    if let Some(value) = headers.get(name) {
        // A bare product name tells an attacker little; a version string
        // maps directly onto a CVE list, so only that is worth flagging.
        let chars = chars_of(value);
        if any_digit(chars.as_slice()) {
            let mut message = String::new();
            push_str(&mut message, "discloses a version: ");
            let quoted = debug_str(value);
            push_str(&mut message, quoted.as_str());
            push_finding(
                findings,
                Finding::new(
                    "version-disclosure",
                    Severity::Low,
                    Some(name),
                    message,
                    "Suppress the version, or remove the header entirely",
                ),
            );
        }
    }
    assert(finding_views(findings@) =~= start + disclosure_findings(headers@, name@));
}

/// Whether the trimmed value equals `word` ignoring ASCII case
/// (`trim().eq_ignore_ascii_case(word)`).
fn trimmed_eq_ignore_case(value: &str, word: &str) -> (r: bool)
    ensures
        r == (lower(trim(value@)) == lower(word@)),
{
    let v = chars_of(value);
    let t = trim_chars(v.as_slice());
    let a = to_lower(t.as_slice());
    let w = chars_of(word);
    let b = to_lower(w.as_slice());
    chars_eq(a.as_slice(), b.as_slice())
}

fn check_nosniff(headers: &Headers, findings: &mut Vec<Finding>)
    ensures
        finding_views(final(findings)@) == finding_views(old(findings)@) + nosniff_findings(
            headers@,
        ),
{
    let ghost start = finding_views(findings@);
    match headers.get("x-content-type-options") {
        None => push_finding(
            findings,
            Finding::new(
                "nosniff-missing",
                Severity::Medium,
                Some("X-Content-Type-Options"),
                "not set, so browsers may MIME-sniff responses into a different type".to_owned(),
                "Add: X-Content-Type-Options: nosniff",
            ),
        ),
        Some(value) => {
            if !trimmed_eq_ignore_case(value, "nosniff") {
                let mut message = String::new();
                push_str(&mut message, "is ");
                let quoted = debug_str(value);
                push_str(&mut message, quoted.as_str());
                push_str(&mut message, ", but nosniff is the only valid value");
                push_finding(
                    findings,
                    Finding::new(
                        "nosniff-invalid",
                        Severity::Medium,
                        Some("X-Content-Type-Options"),
                        message,
                        "Set exactly: X-Content-Type-Options: nosniff",
                    ),
                );
            }
        },
    }
    assert(finding_views(findings@) =~= start + nosniff_findings(headers@));
}

fn check_referrer(headers: &Headers, findings: &mut Vec<Finding>)
    ensures
        finding_views(final(findings)@) == finding_views(old(findings)@) + referrer_findings(
            headers@,
        ),
{
    let ghost start = finding_views(findings@);
    match headers.get("referrer-policy") {
        None => push_finding(
            findings,
            Finding::new(
                "referrer-policy-missing",
                Severity::Low,
                Some("Referrer-Policy"),
                "not set, so the browser default governs what leaks in the Referer header".to_owned(),
                "Add: Referrer-Policy: strict-origin-when-cross-origin",
            ),
        ),
        Some(value) => {
            let v = chars_of(value);
            let lowered = to_lower(v.as_slice());
            let needle = chars_of("unsafe-url");
            if contains_chars(lowered.as_slice(), needle.as_slice()) {
                push_finding(
                    findings,
                    Finding::new(
                        "referrer-policy-unsafe",
                        Severity::Medium,
                        Some("Referrer-Policy"),
                        "is unsafe-url, which sends full URLs including paths to other origins".to_owned(),
                        "Use strict-origin-when-cross-origin instead",
                    ),
                );
            }
        },
    }
    assert(finding_views(findings@) =~= start + referrer_findings(headers@));
}

fn check_presence(headers: &Headers, findings: &mut Vec<Finding>)
    ensures
        finding_views(final(findings)@) == finding_views(old(findings)@) + presence_findings(
            headers@,
        ),
{
    let ghost start = finding_views(findings@);
    if !headers.has("permissions-policy") {
        push_finding(
            findings,
            Finding::new(
                "permissions-policy-missing",
                Severity::Low,
                Some("Permissions-Policy"),
                "not set, so powerful features are governed only by browser defaults".to_owned(),
                "Add a policy disabling what you do not use, e.g. camera=(), geolocation=()",
            ),
        );
    }
    let ghost s1 = finding_views(findings@);
    if !headers.has("cross-origin-opener-policy") {
        push_finding(
            findings,
            Finding::new(
                "coop-missing",
                Severity::Low,
                Some("Cross-Origin-Opener-Policy"),
                "not set, so the page shares a browsing context group with openers".to_owned(),
                "Add: Cross-Origin-Opener-Policy: same-origin",
            ),
        );
    }
    assert(finding_views(findings@) =~= start + presence_findings(headers@));
}

fn check_simple_headers(headers: &Headers, findings: &mut Vec<Finding>)
    ensures
        finding_views(final(findings)@) == finding_views(old(findings)@) + simple_findings(
            headers@,
        ),
{
    let ghost start = finding_views(findings@);
    check_nosniff(headers, findings);
    check_referrer(headers, findings);
    check_presence(headers, findings);
    check_disclosure(headers, "server", findings);
    check_disclosure(headers, "x-powered-by", findings);
    check_disclosure(headers, "x-aspnet-version", findings);
    check_disclosure(headers, "x-aspnetmvc-version", findings);
    assert(finding_views(findings@) =~= start + simple_findings(headers@));
}

/// The CORS rule: a wildcard origin together with credentials.
pub open spec fn cors_findings(m: HeaderMap) -> Seq<FindingView> {
    match lookup(m, "access-control-allow-origin"@) {
        Some(origin) => {
            let credentials = lookup(m, "access-control-allow-credentials"@) matches Some(v)
                && lower(trim(v)) == lower("true"@);
            if trim(origin) == "*"@ && credentials {
                seq![
                    fv(
                        "cors-wildcard-with-credentials"@,
                        Severity::High,
                        "Access-Control-Allow-Origin"@,
                        "is * while credentials are allowed, which browsers reject and which signals the origin check is not being done"@,
                        "Echo a specific allowed origin instead of *, from an allowlist"@,
                    ),
                ]
            } else {
                Seq::empty()
            }
        },
        None => Seq::empty(),
    }
}

fn check_cors(headers: &Headers, findings: &mut Vec<Finding>)
    ensures
        finding_views(final(findings)@) == finding_views(old(findings)@) + cors_findings(
            headers@,
        ),
{
    let ghost start = finding_views(findings@);
    if let Some(origin) = headers.get("access-control-allow-origin") {
        let credentials = match headers.get("access-control-allow-credentials") {
            Some(v) => trimmed_eq_ignore_case(v, "true"),
            None => false,
        };
        let o = chars_of(origin);
        let trimmed = trim_chars(o.as_slice());
        let star = chars_of("*");
        if chars_eq(trimmed.as_slice(), star.as_slice()) && credentials {
            push_finding(
                findings,
                Finding::new(
                    "cors-wildcard-with-credentials",
                    Severity::High,
                    Some("Access-Control-Allow-Origin"),
                    "is * while credentials are allowed, which browsers reject and which signals the origin check is not being done".to_owned(),
                    "Echo a specific allowed origin instead of *, from an allowlist",
                ),
            );
        }
    }
    assert(finding_views(findings@) =~= start + cors_findings(headers@));
}

/// The name a cookie is reported under.
pub open spec fn cookie_label(c: CookieView) -> Seq<char> {
    if c.name.len() == 0 {
        "<unnamed>"@
    } else {
        c.name
    }
}

/// The cookie rules for one `Set-Cookie` value. `Secure` is only required over
/// HTTPS; `SameSite=None` without `Secure` is rejected by browsers.
pub open spec fn cookie_findings(raw: Seq<char>, is_https: bool) -> Seq<FindingView> {
    let c = cookie_of(raw);
    let name = cookie_label(c);
    (if !c.http_only {
        seq![
            fv(
                "cookie-no-httponly"@,
                Severity::Medium,
                "Set-Cookie"@,
                "cookie "@ + name + " is readable from JavaScript (no HttpOnly)"@,
                "Add HttpOnly unless a script genuinely needs to read it"@,
            ),
        ]
    } else {
        Seq::empty()
    }) + (if !c.secure && is_https {
        seq![
            fv(
                "cookie-no-secure"@,
                Severity::Medium,
                "Set-Cookie"@,
                "cookie "@ + name + " may be sent over plain HTTP (no Secure)"@,
                "Add Secure so the cookie is HTTPS-only"@,
            ),
        ]
    } else {
        Seq::empty()
    }) + match c.same_site {
        None => seq![
            fv(
                "cookie-no-samesite"@,
                Severity::Low,
                "Set-Cookie"@,
                "cookie "@ + name + " sets no SameSite, relying on the browser default"@,
                "Set SameSite=Lax, or Strict for session cookies"@,
            ),
        ],
        Some(s) => if s == "none"@ && !c.secure {
            seq![
                fv(
                    "cookie-samesite-none-insecure"@,
                    Severity::High,
                    "Set-Cookie"@,
                    "cookie "@ + name + " is SameSite=None without Secure, so browsers reject it"@,
                    "Add Secure alongside SameSite=None"@,
                ),
            ]
        } else {
            Seq::empty()
        },
    }
}

/// The cookie rules applied to every `Set-Cookie` value in order.
pub open spec fn cookies_findings(raws: Seq<Seq<char>>, is_https: bool) -> Seq<FindingView>
    decreases raws.len(),
{
    if raws.len() == 0 {
        Seq::empty()
    } else {
        cookies_findings(raws.drop_last(), is_https) + cookie_findings(raws.last(), is_https)
    }
}

/// A message about a cookie: `cookie <name><rest>`.
fn cookie_message(name: &[char], rest: &str) -> (m: String)
    ensures
        m@ == "cookie "@ + name@ + rest@,
{
    let mut m = String::new();
    push_str(&mut m, "cookie ");
    push_chars(&mut m, name);
    push_str(&mut m, rest);
    m
}

fn check_cookie(raw: &str, is_https: bool, findings: &mut Vec<Finding>)
    ensures
        finding_views(final(findings)@) == finding_views(old(findings)@) + cookie_findings(
            raw@,
            is_https,
        ),
{
    let ghost start = finding_views(findings@);
    let cookie = parse_cookie(raw);
    let given = chars_of(cookie.name.as_str());
    let name: Vec<char> = if given.len() == 0 {
        chars_of("<unnamed>")
    } else {
        given
    };
    assert(name@ == cookie_label(cookie@));
    if !cookie.http_only {
        push_finding(
            findings,
            Finding::new(
                "cookie-no-httponly",
                Severity::Medium,
                Some("Set-Cookie"),
                cookie_message(name.as_slice(), " is readable from JavaScript (no HttpOnly)"),
                "Add HttpOnly unless a script genuinely needs to read it",
            ),
        );
    }
    let ghost s1 = finding_views(findings@);
    if !cookie.secure && is_https {
        push_finding(
            findings,
            Finding::new(
                "cookie-no-secure",
                Severity::Medium,
                Some("Set-Cookie"),
                cookie_message(name.as_slice(), " may be sent over plain HTTP (no Secure)"),
                "Add Secure so the cookie is HTTPS-only",
            ),
        );
    }
    let ghost s2 = finding_views(findings@);
    match &cookie.same_site {
        None => push_finding(
            findings,
            Finding::new(
                "cookie-no-samesite",
                Severity::Low,
                Some("Set-Cookie"),
                cookie_message(name.as_slice(), " sets no SameSite, relying on the browser default"),
                "Set SameSite=Lax, or Strict for session cookies",
            ),
        ),
        Some(same_site) => {
            let s = chars_of(same_site.as_str());
            let none = chars_of("none");
            if chars_eq(s.as_slice(), none.as_slice()) && !cookie.secure {
                push_finding(
                    findings,
                    Finding::new(
                        "cookie-samesite-none-insecure",
                        Severity::High,
                        Some("Set-Cookie"),
                        cookie_message(
                            name.as_slice(),
                            " is SameSite=None without Secure, so browsers reject it",
                        ),
                        "Add Secure alongside SameSite=None",
                    ),
                );
            }
        },
    }
    assert(finding_views(findings@) =~= start + cookie_findings(raw@, is_https));
}

fn check_cookies(headers: &Headers, is_https: bool, findings: &mut Vec<Finding>)
    ensures
        finding_views(final(findings)@) == finding_views(old(findings)@) + cookies_findings(
            lookup_all(headers@, "set-cookie"@),
            is_https,
        ),
{
    let ghost start = finding_views(findings@);
    let raws = headers.get_all("set-cookie");
    let ghost rs = raws@.map_values(|x: String| x@);
    let mut i: usize = 0;
    assert(rs.take(0) =~= Seq::<Seq<char>>::empty());
    assert(finding_views(findings@) =~= start + cookies_findings(rs.take(0), is_https));
    while i < raws.len()
        invariant
            i <= raws@.len(),
            rs == raws@.map_values(|x: String| x@),
            finding_views(findings@) == start + cookies_findings(rs.take(i as int), is_https),
        decreases raws@.len() - i,
    {
        assert(rs.take(i + 1).drop_last() =~= rs.take(i as int));
        check_cookie(raws[i].as_str(), is_https, findings);
        i = i + 1;
        assert(finding_views(findings@) =~= start + cookies_findings(rs.take(i as int), is_https));
    }
    assert(rs.take(i as int) =~= rs);
}

// ---------------------------------------------------------------------------
// Ordering findings
// ---------------------------------------------------------------------------

/// `a` is listed before `b`: more severe first, then by code.
pub open spec fn precedes(a: FindingView, b: FindingView) -> bool {
    rank(a.severity) > rank(b.severity) || (a.severity == b.severity && seq_lt(a.code, b.code))
}

/// No finding is listed before an earlier one.
pub open spec fn most_severe_first(fs: Seq<FindingView>) -> bool {
    forall|i: int, j: int| 0 <= i < j < fs.len() ==> !precedes(fs[j], fs[i])
}

/// The findings with a given severity and code, in their order in `fs`.
pub open spec fn with_key(fs: Seq<FindingView>, severity: Severity, code: Seq<char>) -> Seq<
    FindingView,
>
    decreases fs.len(),
{
    if fs.len() == 0 {
        Seq::empty()
    } else {
        let r = with_key(fs.drop_last(), severity, code);
        if fs.last().severity == severity && fs.last().code == code {
            r.push(fs.last())
        } else {
            r
        }
    }
}

/// `fs` holds the findings of `raw`, with findings that share severity and code
/// kept in their order in `raw`.
pub open spec fn keeps_order_of(fs: Seq<FindingView>, raw: Seq<FindingView>) -> bool {
    forall|severity: Severity, code: Seq<char>|
        #[trigger] with_key(fs, severity, code) == with_key(raw, severity, code)
}

/// Every rule's findings, in the order the rules run.
pub open spec fn raw_findings(m: HeaderMap, is_https: bool) -> Seq<FindingView> {
    hsts_findings(m, is_https) + csp_findings(m) + clickjacking_findings(m) + simple_findings(m)
        + cors_findings(m) + cookies_findings(lookup_all(m, "set-cookie"@), is_https)
}

/// `r` is the audit of a response: its findings are those of every rule,
/// most severe first, then by code, findings alike in both keeping the order
/// the rules produced them in; the score and grade follow from them.
pub open spec fn is_audit_of(
    r: ReportView,
    url: Seq<char>,
    status: u16,
    m: HeaderMap,
    is_https: bool,
) -> bool {
    &&& r.url == url
    &&& r.status == status
    &&& most_severe_first(r.findings)
    &&& keeps_order_of(r.findings, raw_findings(m, is_https))
    &&& r.score == score_of(r.findings)
    &&& r.grade == grade_of(r.score as int)
}

proof fn lemma_precedes_asymmetric(a: FindingView, b: FindingView)
    requires
        precedes(a, b),
    ensures
        !precedes(b, a),
{
    if a.severity == b.severity && seq_lt(a.code, b.code) {
        lemma_seq_lt_asymmetric(a.code, b.code);
    }
}

/// If `x` comes before `y` and `z` does not come before `y`, then `x` comes
/// before `z`.
proof fn lemma_precedes_chain(x: FindingView, y: FindingView, z: FindingView)
    requires
        precedes(x, y),
        !precedes(z, y),
    ensures
        precedes(x, z),
{
    if y.severity == z.severity && y.code != z.code {
        lemma_seq_lt_total(y.code, z.code);
    }
    if x.severity == y.severity && y.severity == z.severity && seq_lt(x.code, y.code) && seq_lt(
        y.code,
        z.code,
    ) {
        lemma_seq_lt_transitive(x.code, y.code, z.code);
    }
}

proof fn lemma_with_key_concat(
    a: Seq<FindingView>,
    b: Seq<FindingView>,
    severity: Severity,
    code: Seq<char>,
)
    ensures
        with_key(a + b, severity, code) == with_key(a, severity, code) + with_key(
            b,
            severity,
            code,
        ),
    decreases b.len(),
{
    if b.len() == 0 {
        assert(a + b =~= a);
        assert(with_key(a, severity, code) + with_key(b, severity, code) =~= with_key(
            a,
            severity,
            code,
        ));
    } else {
        lemma_with_key_concat(a, b.drop_last(), severity, code);
        assert((a + b).drop_last() =~= a + b.drop_last());
        assert((a + b).last() == b.last());
        assert(with_key(a + b, severity, code) =~= with_key(a, severity, code) + with_key(
            b,
            severity,
            code,
        ));
    }
}

proof fn lemma_with_key_none(t: Seq<FindingView>, severity: Severity, code: Seq<char>)
    requires
        forall|j: int| 0 <= j < t.len() ==> !(t[j].severity == severity && t[j].code == code),
    ensures
        with_key(t, severity, code) == Seq::<FindingView>::empty(),
    decreases t.len(),
{
    if t.len() > 0 {
        lemma_with_key_none(t.drop_last(), severity, code);
    }
}

/// Inserting `x` after every finding it does not come before keeps the list
/// ordered and puts `x` last among the findings alike with it.
proof fn lemma_insert_ordered(s: Seq<FindingView>, p: int, x: FindingView)
    requires
        most_severe_first(s),
        0 <= p <= s.len(),
        forall|j: int| 0 <= j < p ==> !precedes(x, #[trigger] s[j]),
        p < s.len() ==> precedes(x, s[p]),
    ensures
        most_severe_first(s.insert(p, x)),
        forall|severity: Severity, code: Seq<char>|
            #[trigger] with_key(s.insert(p, x), severity, code) == if x.severity == severity
                && x.code == code {
                with_key(s, severity, code).push(x)
            } else {
                with_key(s, severity, code)
            },
{
    assert forall|j: int| p <= j < s.len() implies precedes(x, #[trigger] s[j]) by {
        if j > p {
            lemma_precedes_chain(x, s[p], s[j]);
        }
    }
    let t = s.insert(p, x);
    assert forall|i: int, j: int| 0 <= i < j < t.len() implies !precedes(t[j], t[i]) by {
        if i == p {
            lemma_precedes_asymmetric(x, s[j - 1]);
        } else if j == p {
        } else if i < p && j > p {
            assert(!precedes(s[j - 1], s[i]));
        } else if i > p {
            assert(!precedes(s[j - 1], s[i - 1]));
        } else {
            assert(!precedes(s[j], s[i]));
        }
    }
    assert forall|severity: Severity, code: Seq<char>|
        #[trigger] with_key(t, severity, code) == if x.severity == severity && x.code == code {
            with_key(s, severity, code).push(x)
        } else {
            with_key(s, severity, code)
        } by {
        let a = s.take(p);
        let b = s.skip(p);
        assert(t =~= a + seq![x] + b);
        assert(s =~= a + b);
        lemma_with_key_concat(a + seq![x], b, severity, code);
        lemma_with_key_concat(a, seq![x], severity, code);
        lemma_with_key_concat(a, b, severity, code);
        assert(seq![x].drop_last() =~= Seq::<FindingView>::empty());
        assert(with_key(Seq::<FindingView>::empty(), severity, code) =~= Seq::<FindingView>::empty());
        let single = with_key(seq![x], severity, code);
        if x.severity == severity && x.code == code {
            assert(single =~= seq![x]);
        } else {
            assert(single =~= Seq::<FindingView>::empty());
        }
        if x.severity == severity && x.code == code {
            assert forall|j: int| 0 <= j < b.len() implies !(b[j].severity == severity
                && b[j].code == code) by {
                assert(precedes(x, s[p + j]));
                if s[p + j].severity == x.severity && s[p + j].code == x.code {
                    lemma_seq_lt_irreflexive(x.code);
                }
            }
            lemma_with_key_none(b, severity, code);
            assert(with_key(t, severity, code) =~= with_key(s, severity, code).push(x));
        } else {
            assert(with_key(t, severity, code) =~= with_key(s, severity, code));
        }
    }
}

/// Neither of two findings comes before the other only when they share
/// severity and code.
proof fn lemma_precedes_total(a: FindingView, b: FindingView)
    requires
        !precedes(a, b),
        !precedes(b, a),
    ensures
        a.severity == b.severity,
        a.code == b.code,
{
    if a.code != b.code {
        lemma_seq_lt_total(a.code, b.code);
    }
}

proof fn lemma_with_key_member(s: Seq<FindingView>, severity: Severity, code: Seq<char>)
    requires
        with_key(s, severity, code).len() > 0,
    ensures
        exists|j: int| 0 <= j < s.len() && s[j].severity == severity && s[j].code == code,
    decreases s.len(),
{
    if s.len() > 0 {
        if !(s.last().severity == severity && s.last().code == code) {
            lemma_with_key_member(s.drop_last(), severity, code);
            let j = choose|j: int|
                0 <= j < s.drop_last().len() && s.drop_last()[j].severity == severity
                    && s.drop_last()[j].code == code;
            assert(s[j] == s.drop_last()[j]);
        } else {
            assert(s[s.len() - 1] == s.last());
        }
    }
}

/// Two lists ordered most severe first, then by code, that agree on the
/// findings of every severity and code, are the same list.
proof fn lemma_ordered_unique(s1: Seq<FindingView>, s2: Seq<FindingView>)
    requires
        most_severe_first(s1),
        most_severe_first(s2),
        forall|severity: Severity, code: Seq<char>|
            #[trigger] with_key(s1, severity, code) == with_key(s2, severity, code),
    ensures
        s1 == s2,
    decreases s1.len() + s2.len(),
{
    if s1.len() == 0 && s2.len() == 0 {
        assert(s1 =~= s2);
    } else if s1.len() == 0 {
        let y = s2.last();
        assert(with_key(s2, y.severity, y.code).len() > 0);
        assert(with_key(s1, y.severity, y.code) =~= Seq::<FindingView>::empty());
    } else if s2.len() == 0 {
        let x = s1.last();
        assert(with_key(s1, x.severity, x.code).len() > 0);
        assert(with_key(s2, x.severity, x.code) =~= Seq::<FindingView>::empty());
    } else {
        let x = s1.last();
        let y = s2.last();
        let n1 = s1.len() - 1;
        let n2 = s2.len() - 1;
        if !(x.severity == y.severity && x.code == y.code) {
            if precedes(x, y) {
                assert(with_key(s2, y.severity, y.code).len() > 0);
                lemma_with_key_member(s1, y.severity, y.code);
                let j = choose|j: int|
                    0 <= j < s1.len() && s1[j].severity == y.severity && s1[j].code == y.code;
                assert(j != n1);
                assert(!precedes(s1[n1], s1[j]));
                assert(false);
            } else if precedes(y, x) {
                assert(with_key(s1, x.severity, x.code).len() > 0);
                lemma_with_key_member(s2, x.severity, x.code);
                let j = choose|j: int|
                    0 <= j < s2.len() && s2[j].severity == x.severity && s2[j].code == x.code;
                assert(j != n2);
                assert(!precedes(s2[n2], s2[j]));
                assert(false);
            } else {
                lemma_precedes_total(x, y);
            }
        }
        let t1 = s1.drop_last();
        let t2 = s2.drop_last();
        assert(with_key(s1, x.severity, x.code) == with_key(t1, x.severity, x.code).push(x));
        assert(with_key(s2, x.severity, x.code) == with_key(t2, x.severity, x.code).push(y));
        assert(x == with_key(s1, x.severity, x.code).last());
        assert(y == with_key(s2, x.severity, x.code).last());
        assert forall|severity: Severity, code: Seq<char>|
            #[trigger] with_key(t1, severity, code) == with_key(t2, severity, code) by {
            let w1 = with_key(s1, severity, code);
            let w2 = with_key(s2, severity, code);
            assert(w1 == w2);
            if severity == x.severity && code == x.code {
                assert(with_key(t1, severity, code) =~= w1.drop_last());
                assert(with_key(t2, severity, code) =~= w2.drop_last());
            }
        }
        assert(most_severe_first(t1)) by {
            assert forall|i: int, j: int| 0 <= i < j < t1.len() implies !precedes(t1[j], t1[i]) by {
                assert(t1[i] == s1[i] && t1[j] == s1[j]);
            }
        }
        assert(most_severe_first(t2)) by {
            assert forall|i: int, j: int| 0 <= i < j < t2.len() implies !precedes(t2[j], t2[i]) by {
                assert(t2[i] == s2[i] && t2[j] == s2[j]);
            }
        }
        lemma_ordered_unique(t1, t2);
        assert(s1 =~= t1.push(x));
        assert(s2 =~= t2.push(y));
    }
}

/// The contract of [`analyze`] leaves nothing open: two reports that both meet
/// it for the same response are the same report.
pub proof fn law_audit_is_determined(
    r1: ReportView,
    r2: ReportView,
    url: Seq<char>,
    status: u16,
    m: HeaderMap,
    is_https: bool,
)
    requires
        is_audit_of(r1, url, status, m, is_https),
        is_audit_of(r2, url, status, m, is_https),
    ensures
        r1 == r2,
{
    let raw = raw_findings(m, is_https);
    assert forall|severity: Severity, code: Seq<char>|
        #[trigger] with_key(r1.findings, severity, code) == with_key(r2.findings, severity, code) by {
        assert(with_key(r1.findings, severity, code) == with_key(raw, severity, code));
        assert(with_key(r2.findings, severity, code) == with_key(raw, severity, code));
    }
    lemma_ordered_unique(r1.findings, r2.findings);
}

proof fn lemma_with_key_contains(s: Seq<FindingView>, f: FindingView)
    ensures
        s.contains(f) == with_key(s, f.severity, f.code).contains(f),
    decreases s.len(),
{
    if s.len() > 0 {
        lemma_with_key_contains(s.drop_last(), f);
        let w = with_key(s.drop_last(), f.severity, f.code);
        if s.contains(f) {
            let j = choose|j: int| 0 <= j < s.len() && s[j] == f;
            if j < s.len() - 1 {
                assert(s.drop_last()[j] == f);
                let a = choose|a: int| 0 <= a < w.len() && w[a] == f;
                if s.last().severity == f.severity && s.last().code == f.code {
                    assert(w.push(s.last())[a] == f);
                }
            } else {
                assert(with_key(s, f.severity, f.code).last() == f);
            }
        }
        if with_key(s, f.severity, f.code).contains(f) {
            let a = choose|a: int|
                0 <= a < with_key(s, f.severity, f.code).len() && with_key(s, f.severity, f.code)[a]
                    == f;
            if s.last().severity == f.severity && s.last().code == f.code && a == w.len() {
                assert(s[s.len() - 1] == f);
            } else {
                assert(w[a] == f);
                let j = choose|j: int| 0 <= j < s.drop_last().len() && s.drop_last()[j] == f;
                assert(s[j] == f);
            }
        }
    }
}

/// A report holds exactly the findings its rules produce: nothing dropped,
/// nothing added.
pub proof fn law_audit_keeps_every_finding(
    r: ReportView,
    url: Seq<char>,
    status: u16,
    m: HeaderMap,
    is_https: bool,
    f: FindingView,
)
    requires
        is_audit_of(r, url, status, m, is_https),
    ensures
        r.findings.contains(f) == raw_findings(m, is_https).contains(f),
{
    let raw = raw_findings(m, is_https);
    lemma_with_key_contains(r.findings, f);
    lemma_with_key_contains(raw, f);
    assert(with_key(r.findings, f.severity, f.code) == with_key(raw, f.severity, f.code));
}

/// Every `Set-Cookie` value is audited, not only the first: whatever the
/// cookie rules find in any one of them is among the findings for all.
pub proof fn law_every_cookie_audited(raws: Seq<Seq<char>>, is_https: bool, i: int, j: int)
    requires
        0 <= i < raws.len(),
        0 <= j < cookie_findings(raws[i], is_https).len(),
    ensures
        cookies_findings(raws, is_https).contains(cookie_findings(raws[i], is_https)[j]),
    decreases raws.len(),
{
    let f = cookie_findings(raws[i], is_https)[j];
    let front = cookies_findings(raws.drop_last(), is_https);
    let back = cookie_findings(raws.last(), is_https);
    if i == raws.len() - 1 {
        assert((front + back)[front.len() + j] == f);
    } else {
        assert(raws.drop_last()[i] == raws[i]);
        law_every_cookie_audited(raws.drop_last(), is_https, i, j);
        let a = choose|a: int| 0 <= a < front.len() && front[a] == f;
        assert((front + back)[a] == f);
    }
}

/// The HSTS rule is scheme-aware: over plain HTTP it gives exactly one finding,
/// informational when the header is absent and a medium "ineffective" finding
/// when it is set, never a high one.
pub proof fn law_hsts_over_plain_http(m: HeaderMap)
    ensures
        hsts_findings(m, false).len() == 1,
        hsts_findings(m, false)[0].severity == if lookup(m, "strict-transport-security"@) is Some {
            Severity::Medium
        } else {
            Severity::Info
        },
{
}

/// `Secure` is only required over HTTPS: over plain HTTP no cookie is flagged
/// for lacking it; over HTTPS a cookie is flagged exactly when it lacks it.
pub proof fn law_secure_only_over_https(raw: Seq<char>)
    ensures
        forall|i: int|
            0 <= i < cookie_findings(raw, false).len() ==> #[trigger] cookie_findings(raw, false)[i].code
                != "cookie-no-secure"@,
        (exists|i: int|
            0 <= i < cookie_findings(raw, true).len() && #[trigger] cookie_findings(raw, true)[i].code
                == "cookie-no-secure"@) == !cookie_of(raw).secure,
{
    reveal_strlit("cookie-no-secure");
    reveal_strlit("cookie-no-httponly");
    reveal_strlit("cookie-no-samesite");
    reveal_strlit("cookie-samesite-none-insecure");
    let c = cookie_of(raw);
    let a = if !c.http_only {
        seq![
            fv(
                "cookie-no-httponly"@,
                Severity::Medium,
                "Set-Cookie"@,
                "cookie "@ + cookie_label(c) + " is readable from JavaScript (no HttpOnly)"@,
                "Add HttpOnly unless a script genuinely needs to read it"@,
            ),
        ]
    } else {
        Seq::empty()
    };
    let fs = cookie_findings(raw, false);
    let ts = cookie_findings(raw, true);
    assert forall|i: int| 0 <= i < fs.len() implies #[trigger] fs[i].code != "cookie-no-secure"@ by {
        if fs[i].code == "cookie-no-secure"@ {
            assert(fs[i].code.len() == 16);
        }
    }
    if !c.secure {
        assert(ts[a.len() as int].code == "cookie-no-secure"@);
    } else {
        assert forall|i: int| 0 <= i < ts.len() implies #[trigger] ts[i].code != "cookie-no-secure"@ by {
            if ts[i].code == "cookie-no-secure"@ {
                assert(ts[i].code.len() == 16);
            }
        }
    }
}

/// The findings in a list that carry a given code, in order.
pub open spec fn with_code(fs: Seq<FindingView>, code: Seq<char>) -> Seq<FindingView>
    decreases fs.len(),
{
    if fs.len() == 0 {
        Seq::empty()
    } else if fs.last().code == code {
        with_code(fs.drop_last(), code).push(fs.last())
    } else {
        with_code(fs.drop_last(), code)
    }
}

proof fn lemma_with_code_concat(a: Seq<FindingView>, b: Seq<FindingView>, code: Seq<char>)
    ensures
        with_code(a + b, code) == with_code(a, code) + with_code(b, code),
    decreases b.len(),
{
    if b.len() == 0 {
        assert(a + b =~= a);
        assert(with_code(a, code) + with_code(b, code) =~= with_code(a, code));
    } else {
        lemma_with_code_concat(a, b.drop_last(), code);
        assert((a + b).drop_last() =~= a + b.drop_last());
        assert((a + b).last() == b.last());
        assert(with_code(a + b, code) =~= with_code(a, code) + with_code(b, code));
    }
}

proof fn lemma_with_code_single(f: FindingView, code: Seq<char>)
    ensures
        with_code(seq![f], code) == if f.code == code {
            seq![f]
        } else {
            Seq::<FindingView>::empty()
        },
{
    let e = Seq::<FindingView>::empty();
    assert(seq![f].drop_last() =~= e);
    assert(seq![f].last() == f);
    assert(with_code(e, code) == e);
    assert(e.push(f) =~= seq![f]);
}

/// When no enforced policy is set and no report-only one either, the CSP rule
/// gives exactly one finding: `csp-missing`, high, about
/// `Content-Security-Policy`.
pub proof fn law_csp_missing(m: HeaderMap)
    requires
        lookup(m, "content-security-policy"@) is None,
        !m.contains_key(field_key("content-security-policy-report-only"@)),
    ensures
        csp_findings(m).len() == 1,
        csp_findings(m)[0].code == "csp-missing"@,
        csp_findings(m)[0].severity == Severity::High,
        csp_findings(m)[0].header == Some("Content-Security-Policy"@),
{
}

/// On an enforced policy that declares something, the CSP rule judges the
/// policy alone: there is one `csp-unsafe-inline` finding exactly when some
/// directive lists `'unsafe-inline'`; it is high when one of those directives
/// is a script directive and low otherwise, and its message names them all in
/// order, separated by `, `.
pub proof fn law_unsafe_inline(m: HeaderMap, v: Seq<char>)
    requires
        lookup(m, "content-security-policy"@) == Some(v),
        csp_of(v) != Map::<Seq<char>, Seq<Seq<char>>>::empty(),
    ensures
        ({
            let d = in_order(csp_containing(csp_of(v), "'unsafe-inline'"@));
            with_code(csp_findings(m), "csp-unsafe-inline"@) == if d.len() > 0 {
                seq![
                    fv(
                        "csp-unsafe-inline"@,
                        if any_script(d) {
                            Severity::High
                        } else {
                            Severity::Low
                        },
                        "Content-Security-Policy"@,
                        "allows 'unsafe-inline' in: "@ + join(d, ", "@),
                        "Replace inline code with nonces or hashes, then drop 'unsafe-inline'"@,
                    ),
                ]
            } else {
                Seq::<FindingView>::empty()
            }
        }),
{
    reveal_strlit("csp-unsafe-inline");
    reveal_strlit("csp-no-default-src");
    reveal_strlit("csp-unsafe-eval");
    reveal_strlit("csp-wildcard-script-src");
    reveal_strlit("csp-no-object-src");
    let c = csp_of(v);
    let code = "csp-unsafe-inline"@;
    assert("csp-no-default-src"@ != code) by {
        assert("csp-no-default-src"@.len() != code.len());
    }
    assert("csp-unsafe-eval"@ != code) by {
        assert("csp-unsafe-eval"@.len() != code.len());
    }
    assert("csp-wildcard-script-src"@ != code) by {
        assert("csp-wildcard-script-src"@.len() != code.len());
    }
    assert("csp-no-object-src"@ != code) by {
        assert("csp-no-object-src"@[4] != code[4]);
    }
    let inline = in_order(csp_containing(c, "'unsafe-inline'"@));
    let eval = in_order(csp_containing(c, "'unsafe-eval'"@));
    let p1: Seq<FindingView> = if !c.contains_key("default-src"@) {
        seq![
            fv(
                "csp-no-default-src"@,
                Severity::Medium,
                "Content-Security-Policy"@,
                "has no default-src, so undeclared resource types are unrestricted"@,
                "Add default-src 'self' (or 'none') as a backstop"@,
            ),
        ]
    } else {
        Seq::empty()
    };
    let p2: Seq<FindingView> = if inline.len() > 0 {
        seq![
            fv(
                "csp-unsafe-inline"@,
                if any_script(inline) {
                    Severity::High
                } else {
                    Severity::Low
                },
                "Content-Security-Policy"@,
                "allows 'unsafe-inline' in: "@ + join(inline, ", "@),
                "Replace inline code with nonces or hashes, then drop 'unsafe-inline'"@,
            ),
        ]
    } else {
        Seq::empty()
    };
    let p3: Seq<FindingView> = if eval.len() > 0 {
        seq![
            fv(
                "csp-unsafe-eval"@,
                Severity::Medium,
                "Content-Security-Policy"@,
                "allows 'unsafe-eval', which permits string-to-code evaluation"@,
                "Remove 'unsafe-eval'; most frameworks no longer need it"@,
            ),
        ]
    } else {
        Seq::empty()
    };
    let p4: Seq<FindingView> = if csp_effective(c, "script-src"@) matches Some(sources)
        && sources.contains("*"@) {
        seq![
            fv(
                "csp-wildcard-script-src"@,
                Severity::High,
                "Content-Security-Policy"@,
                "allows scripts from any origin via a wildcard source"@,
                "Name the origins you actually load scripts from"@,
            ),
        ]
    } else {
        Seq::empty()
    };
    let p5: Seq<FindingView> = if !c.contains_key("object-src"@) && !c.contains_key("default-src"@) {
        seq![
            fv(
                "csp-no-object-src"@,
                Severity::Low,
                "Content-Security-Policy"@,
                "does not restrict object-src, leaving plugin content unrestricted"@,
                "Add object-src 'none'"@,
            ),
        ]
    } else {
        Seq::empty()
    };
    assert(csp_findings(m) == p1 + p2 + p3 + p4 + p5);
    lemma_with_code_concat(p1 + p2 + p3 + p4, p5, code);
    lemma_with_code_concat(p1 + p2 + p3, p4, code);
    lemma_with_code_concat(p1 + p2, p3, code);
    lemma_with_code_concat(p1, p2, code);
    let e = Seq::<FindingView>::empty();
    assert(with_code(e, code) == e);
    if p1.len() > 0 {
        lemma_with_code_single(p1[0], code);
        assert(p1 == seq![p1[0]]);
    }
    if p2.len() > 0 {
        lemma_with_code_single(p2[0], code);
        assert(p2 == seq![p2[0]]);
    }
    if p3.len() > 0 {
        lemma_with_code_single(p3[0], code);
        assert(p3 == seq![p3[0]]);
    }
    if p4.len() > 0 {
        lemma_with_code_single(p4[0], code);
        assert(p4 == seq![p4[0]]);
    }
    if p5.len() > 0 {
        lemma_with_code_single(p5[0], code);
        assert(p5 == seq![p5[0]]);
    }
    assert(with_code(csp_findings(m), code) =~= with_code(p2, code));
}

proof fn lemma_with_code_empty(code: Seq<char>)
    ensures
        with_code(Seq::<FindingView>::empty(), code) == Seq::<FindingView>::empty(),
{
}

/// Over HTTPS a present HSTS value is judged on `includeSubDomains` on its own:
/// whatever its `max-age` and `preload`, the HSTS findings hold exactly one
/// `hsts-no-subdomains` finding, low and about `Strict-Transport-Security`,
/// when the parsed value lacks `includeSubDomains`, and none when it has it.
pub proof fn law_hsts_subdomains(m: HeaderMap, v: Seq<char>)
    requires
        lookup(m, "strict-transport-security"@) == Some(v),
    ensures
        with_code(hsts_findings(m, true), "hsts-no-subdomains"@).len() == if hsts_of(
            v,
        ).include_subdomains {
            0nat
        } else {
            1nat
        },
        !hsts_of(v).include_subdomains ==> with_code(hsts_findings(m, true), "hsts-no-subdomains"@)[0].severity
            == Severity::Low && with_code(hsts_findings(m, true), "hsts-no-subdomains"@)[0].header
            == Some("Strict-Transport-Security"@),
{
    reveal_strlit("hsts-no-subdomains");
    reveal_strlit("hsts-no-max-age");
    reveal_strlit("hsts-zero-max-age");
    reveal_strlit("hsts-short-max-age");
    let code = "hsts-no-subdomains"@;
    assert("hsts-no-max-age"@ != code) by {
        assert("hsts-no-max-age"@.len() != code.len());
    }
    assert("hsts-zero-max-age"@ != code) by {
        assert("hsts-zero-max-age"@.len() != code.len());
    }
    assert("hsts-short-max-age"@ != code) by {
        assert("hsts-short-max-age"@[5] != code[5]);
    }
    let h = hsts_of(v);
    let age = hsts_age_findings(h.max_age);
    let tail: Seq<FindingView> = if h.include_subdomains {
        Seq::empty()
    } else {
        seq![
            fv(
                "hsts-no-subdomains"@,
                Severity::Low,
                "Strict-Transport-Security"@,
                "omits includeSubDomains, leaving subdomains reachable over HTTP"@,
                "Add includeSubDomains once every subdomain is HTTPS-ready"@,
            ),
        ]
    };
    assert(hsts_findings(m, true) == age + tail);
    lemma_with_code_concat(age, tail, code);
    lemma_with_code_empty(code);
    if age.len() > 0 {
        assert(age == seq![age[0]]);
        lemma_with_code_single(age[0], code);
    }
    assert(with_code(age, code) == Seq::<FindingView>::empty());
    if tail.len() > 0 {
        lemma_with_code_single(tail[0], code);
    }
    assert(with_code(hsts_findings(m, true), code) =~= with_code(tail, code));
}

/// On an enforced policy that declares something, `default-src` is the
/// backstop for `object-src`: the CSP findings hold one `csp-no-object-src`
/// finding, low, exactly when the parsed policy declares neither `object-src`
/// nor `default-src`, and none otherwise; a policy declaring `default-src`
/// never gets one.
pub proof fn law_object_src_backstop(m: HeaderMap, v: Seq<char>)
    requires
        lookup(m, "content-security-policy"@) == Some(v),
        csp_of(v) != Map::<Seq<char>, Seq<Seq<char>>>::empty(),
    ensures
        with_code(csp_findings(m), "csp-no-object-src"@).len() == if !csp_of(v).contains_key(
            "object-src"@,
        ) && !csp_of(v).contains_key("default-src"@) {
            1nat
        } else {
            0nat
        },
        csp_of(v).contains_key("default-src"@) ==> with_code(csp_findings(m), "csp-no-object-src"@).len()
            == 0,
        with_code(csp_findings(m), "csp-no-object-src"@).len() > 0 ==> with_code(
            csp_findings(m),
            "csp-no-object-src"@,
        )[0].severity == Severity::Low,
{
    reveal_strlit("csp-unsafe-inline");
    reveal_strlit("csp-no-default-src");
    reveal_strlit("csp-unsafe-eval");
    reveal_strlit("csp-wildcard-script-src");
    reveal_strlit("csp-no-object-src");
    let c = csp_of(v);
    let code = "csp-no-object-src"@;
    assert("csp-no-default-src"@ != code) by {
        assert("csp-no-default-src"@.len() != code.len());
    }
    assert("csp-unsafe-eval"@ != code) by {
        assert("csp-unsafe-eval"@.len() != code.len());
    }
    assert("csp-wildcard-script-src"@ != code) by {
        assert("csp-wildcard-script-src"@.len() != code.len());
    }
    assert("csp-unsafe-inline"@ != code) by {
        assert("csp-unsafe-inline"@[4] != code[4]);
    }
    let inline = in_order(csp_containing(c, "'unsafe-inline'"@));
    let eval = in_order(csp_containing(c, "'unsafe-eval'"@));
    let p1: Seq<FindingView> = if !c.contains_key("default-src"@) {
        seq![
            fv(
                "csp-no-default-src"@,
                Severity::Medium,
                "Content-Security-Policy"@,
                "has no default-src, so undeclared resource types are unrestricted"@,
                "Add default-src 'self' (or 'none') as a backstop"@,
            ),
        ]
    } else {
        Seq::empty()
    };
    let p2: Seq<FindingView> = if inline.len() > 0 {
        seq![
            fv(
                "csp-unsafe-inline"@,
                if any_script(inline) {
                    Severity::High
                } else {
                    Severity::Low
                },
                "Content-Security-Policy"@,
                "allows 'unsafe-inline' in: "@ + join(inline, ", "@),
                "Replace inline code with nonces or hashes, then drop 'unsafe-inline'"@,
            ),
        ]
    } else {
        Seq::empty()
    };
    let p3: Seq<FindingView> = if eval.len() > 0 {
        seq![
            fv(
                "csp-unsafe-eval"@,
                Severity::Medium,
                "Content-Security-Policy"@,
                "allows 'unsafe-eval', which permits string-to-code evaluation"@,
                "Remove 'unsafe-eval'; most frameworks no longer need it"@,
            ),
        ]
    } else {
        Seq::empty()
    };
    let p4: Seq<FindingView> = if csp_effective(c, "script-src"@) matches Some(sources)
        && sources.contains("*"@) {
        seq![
            fv(
                "csp-wildcard-script-src"@,
                Severity::High,
                "Content-Security-Policy"@,
                "allows scripts from any origin via a wildcard source"@,
                "Name the origins you actually load scripts from"@,
            ),
        ]
    } else {
        Seq::empty()
    };
    let p5: Seq<FindingView> = if !c.contains_key("object-src"@) && !c.contains_key("default-src"@) {
        seq![
            fv(
                "csp-no-object-src"@,
                Severity::Low,
                "Content-Security-Policy"@,
                "does not restrict object-src, leaving plugin content unrestricted"@,
                "Add object-src 'none'"@,
            ),
        ]
    } else {
        Seq::empty()
    };
    assert(csp_findings(m) == p1 + p2 + p3 + p4 + p5);
    lemma_with_code_concat(p1 + p2 + p3 + p4, p5, code);
    lemma_with_code_concat(p1 + p2 + p3, p4, code);
    lemma_with_code_concat(p1 + p2, p3, code);
    lemma_with_code_concat(p1, p2, code);
    let e = Seq::<FindingView>::empty();
    assert(with_code(e, code) == e);
    if p1.len() > 0 {
        lemma_with_code_single(p1[0], code);
        assert(p1 == seq![p1[0]]);
    }
    if p2.len() > 0 {
        lemma_with_code_single(p2[0], code);
        assert(p2 == seq![p2[0]]);
    }
    if p3.len() > 0 {
        lemma_with_code_single(p3[0], code);
        assert(p3 == seq![p3[0]]);
    }
    if p4.len() > 0 {
        lemma_with_code_single(p4[0], code);
        assert(p4 == seq![p4[0]]);
    }
    if p5.len() > 0 {
        lemma_with_code_single(p5[0], code);
        assert(p5 == seq![p5[0]]);
    }
    assert(with_code(csp_findings(m), code) =~= with_code(p5, code));
}

/// `SameSite=None` is only a fault without `Secure`: for every `Set-Cookie`
/// value and either scheme, the cookie rules give one
/// `cookie-samesite-none-insecure` finding, high, exactly when the parsed
/// `SameSite` is `none` and the parsed cookie lacks `Secure`, and none
/// otherwise; a cookie with `Secure` never gets one.
pub proof fn law_samesite_none_needs_secure(raw: Seq<char>, is_https: bool)
    ensures
        with_code(cookie_findings(raw, is_https), "cookie-samesite-none-insecure"@).len() == if cookie_of(
            raw,
        ).same_site == Some("none"@) && !cookie_of(raw).secure {
            1nat
        } else {
            0nat
        },
        cookie_of(raw).secure ==> with_code(
            cookie_findings(raw, is_https),
            "cookie-samesite-none-insecure"@,
        ).len() == 0,
        with_code(cookie_findings(raw, is_https), "cookie-samesite-none-insecure"@).len() > 0
            ==> with_code(cookie_findings(raw, is_https), "cookie-samesite-none-insecure"@)[0].severity
            == Severity::High,
{
    reveal_strlit("cookie-samesite-none-insecure");
    reveal_strlit("cookie-no-httponly");
    reveal_strlit("cookie-no-secure");
    reveal_strlit("cookie-no-samesite");
    let code = "cookie-samesite-none-insecure"@;
    assert("cookie-no-httponly"@ != code) by {
        assert("cookie-no-httponly"@.len() != code.len());
    }
    assert("cookie-no-secure"@ != code) by {
        assert("cookie-no-secure"@.len() != code.len());
    }
    assert("cookie-no-samesite"@ != code) by {
        assert("cookie-no-samesite"@.len() != code.len());
    }
    let c = cookie_of(raw);
    let name = cookie_label(c);
    let a: Seq<FindingView> = if !c.http_only {
        seq![
            fv(
                "cookie-no-httponly"@,
                Severity::Medium,
                "Set-Cookie"@,
                "cookie "@ + name + " is readable from JavaScript (no HttpOnly)"@,
                "Add HttpOnly unless a script genuinely needs to read it"@,
            ),
        ]
    } else {
        Seq::empty()
    };
    let b: Seq<FindingView> = if !c.secure && is_https {
        seq![
            fv(
                "cookie-no-secure"@,
                Severity::Medium,
                "Set-Cookie"@,
                "cookie "@ + name + " may be sent over plain HTTP (no Secure)"@,
                "Add Secure so the cookie is HTTPS-only"@,
            ),
        ]
    } else {
        Seq::empty()
    };
    let d: Seq<FindingView> = match c.same_site {
        None => seq![
            fv(
                "cookie-no-samesite"@,
                Severity::Low,
                "Set-Cookie"@,
                "cookie "@ + name + " sets no SameSite, relying on the browser default"@,
                "Set SameSite=Lax, or Strict for session cookies"@,
            ),
        ],
        Some(x) => if x == "none"@ && !c.secure {
            seq![
                fv(
                    "cookie-samesite-none-insecure"@,
                    Severity::High,
                    "Set-Cookie"@,
                    "cookie "@ + name + " is SameSite=None without Secure, so browsers reject it"@,
                    "Add Secure alongside SameSite=None"@,
                ),
            ]
        } else {
            Seq::empty()
        },
    };
    assert(cookie_findings(raw, is_https) == a + b + d);
    lemma_with_code_concat(a + b, d, code);
    lemma_with_code_concat(a, b, code);
    lemma_with_code_empty(code);
    if a.len() > 0 {
        lemma_with_code_single(a[0], code);
        assert(a == seq![a[0]]);
    }
    if b.len() > 0 {
        lemma_with_code_single(b[0], code);
        assert(b == seq![b[0]]);
    }
    if d.len() > 0 {
        lemma_with_code_single(d[0], code);
        assert(d == seq![d[0]]);
    }
    assert(with_code(cookie_findings(raw, is_https), code) =~= with_code(d, code));
}

/// HSTS absent: over HTTPS one high `hsts-missing` finding, over plain HTTP one
/// informational `hsts-not-applicable` finding, both about
/// `Strict-Transport-Security`.
pub proof fn law_hsts_absent(m: HeaderMap, is_https: bool)
    requires
        lookup(m, "strict-transport-security"@) is None,
    ensures
        hsts_findings(m, is_https).len() == 1,
        hsts_findings(m, is_https)[0].header == Some("Strict-Transport-Security"@),
        hsts_findings(m, is_https)[0].code == if is_https {
            "hsts-missing"@
        } else {
            "hsts-not-applicable"@
        },
        hsts_findings(m, is_https)[0].severity == if is_https {
            Severity::High
        } else {
            Severity::Info
        },
{
}

/// Clickjacking is reported, once and at medium, exactly when neither an
/// enforced policy declares `frame-ancestors` nor `X-Frame-Options` is set.
pub proof fn law_clickjacking(m: HeaderMap)
    ensures
        ({
            let framed = lookup(m, "content-security-policy"@) matches Some(v) && csp_of(
                v,
            ).contains_key("frame-ancestors"@);
            let protected = framed || m.contains_key(field_key("x-frame-options"@));
            &&& protected ==> clickjacking_findings(m).len() == 0
            &&& !protected ==> clickjacking_findings(m).len() == 1
                && clickjacking_findings(m)[0].code == "clickjacking-unprotected"@
                && clickjacking_findings(m)[0].severity == Severity::Medium
        }),
{
}

/// A wildcard origin is reported, once and at high, only together with
/// credentials: the trimmed origin is `*` and the trimmed credentials value is
/// `true` ignoring case. A wildcard alone gives nothing.
pub proof fn law_cors_needs_credentials(m: HeaderMap)
    ensures
        ({
            let flagged = (lookup(m, "access-control-allow-origin"@) matches Some(o) && trim(o)
                == "*"@) && (lookup(m, "access-control-allow-credentials"@) matches Some(c)
                && lower(trim(c)) == lower("true"@));
            &&& !flagged ==> cors_findings(m).len() == 0
            &&& flagged ==> cors_findings(m).len() == 1
                && cors_findings(m)[0].code == "cors-wildcard-with-credentials"@
                && cors_findings(m)[0].severity == Severity::High
        }),
{
}

/// A version-disclosure header is flagged, once and at low with the header's
/// name, exactly when its value holds an ASCII digit: `Server: nginx` is not
/// flagged, `Server: nginx/1.18.0` is.
pub proof fn law_disclosure_needs_a_digit(m: HeaderMap, name: Seq<char>)
    ensures
        ({
            let flagged = lookup(m, name) matches Some(v) && has_digit(v);
            &&& !flagged ==> disclosure_findings(m, name).len() == 0
            &&& flagged ==> disclosure_findings(m, name).len() == 1
                && disclosure_findings(m, name)[0].code == "version-disclosure"@
                && disclosure_findings(m, name)[0].severity == Severity::Low
                && disclosure_findings(m, name)[0].header == Some(name)
        }),
{
}

/// Over plain HTTP no cookie, of however many, is flagged for lacking `Secure`.
pub proof fn law_no_secure_finding_over_http(raws: Seq<Seq<char>>)
    ensures
        forall|i: int|
            0 <= i < cookies_findings(raws, false).len() ==> #[trigger] cookies_findings(
                raws,
                false,
            )[i].code != "cookie-no-secure"@,
    decreases raws.len(),
{
    if raws.len() > 0 {
        law_no_secure_finding_over_http(raws.drop_last());
        law_secure_only_over_https(raws.last());
        let a = cookies_findings(raws.drop_last(), false);
        let b = cookie_findings(raws.last(), false);
        assert forall|i: int| 0 <= i < (a + b).len() implies #[trigger] (a + b)[i].code
            != "cookie-no-secure"@ by {
            if i < a.len() {
                assert((a + b)[i] == a[i]);
            } else {
                assert((a + b)[i] == b[i - a.len()]);
            }
        }
    }
}

/// A finding that names its header and has a code, a message and a
/// remediation that are not empty.
pub open spec fn complete(f: FindingView) -> bool {
    &&& f.header is Some
    &&& f.code.len() > 0
    &&& f.message.len() > 0
    &&& f.remediation.len() > 0
}

/// Every finding in the list is complete.
pub open spec fn all_complete(fs: Seq<FindingView>) -> bool {
    forall|i: int| 0 <= i < fs.len() ==> complete(#[trigger] fs[i])
}

proof fn lemma_all_complete_concat(a: Seq<FindingView>, b: Seq<FindingView>)
    requires
        all_complete(a),
        all_complete(b),
    ensures
        all_complete(a + b),
{
    assert forall|i: int| 0 <= i < (a + b).len() implies complete(#[trigger] (a + b)[i]) by {
        if i < a.len() {
            assert((a + b)[i] == a[i]);
        } else {
            assert((a + b)[i] == b[i - a.len()]);
        }
    }
}

proof fn lemma_complete_hsts_age_findings(max_age: Option<u64>)
    ensures
        all_complete(hsts_age_findings(max_age)),
{
    reveal_strlit("hsts-no-max-age");
    reveal_strlit("Strict-Transport-Security");
    reveal_strlit("has no parseable max-age, so the policy is not stored");
    reveal_strlit("Add a max-age directive, for example max-age=31536000");
    reveal_strlit("hsts-zero-max-age");
    reveal_strlit("uses max-age=0, which instructs browsers to forget the policy");
    reveal_strlit("Set max-age=31536000 unless you are deliberately rolling HSTS back");
    reveal_strlit("hsts-short-max-age");
    reveal_strlit("max-age is ");
    reveal_strlit("s, below the six-month floor most guidance uses");
    reveal_strlit("Raise max-age to at least 15552000, ideally 31536000");
}

proof fn lemma_complete_hsts_findings(m: HeaderMap, is_https: bool)
    ensures
        all_complete(hsts_findings(m, is_https)),
{
    reveal_strlit("strict-transport-security");
    reveal_strlit("hsts-missing");
    reveal_strlit("Strict-Transport-Security");
    reveal_strlit("not set, so a browser will still try plain HTTP on the next visit");
    reveal_strlit("Add: Strict-Transport-Security: max-age=31536000; includeSubDomains");
    reveal_strlit("hsts-not-applicable");
    reveal_strlit("not set, and would be ignored over plain HTTP anyway");
    reveal_strlit("Serve this origin over HTTPS, then set HSTS on the HTTPS response");
    reveal_strlit("hsts-over-http");
    reveal_strlit("set on a plain HTTP response, where browsers ignore it entirely");
    reveal_strlit("Set HSTS on the HTTPS response instead; it has no effect here");
    reveal_strlit("hsts-no-subdomains");
    reveal_strlit("omits includeSubDomains, leaving subdomains reachable over HTTP");
    reveal_strlit("Add includeSubDomains once every subdomain is HTTPS-ready");    if lookup(m, "strict-transport-security"@) is Some && is_https {
        let h = hsts_of(lookup(m, "strict-transport-security"@)->0);
        lemma_complete_hsts_age_findings(h.max_age);
        let tail: Seq<FindingView> = if h.include_subdomains {
            Seq::empty()
        } else {
            seq![
                fv(
                    "hsts-no-subdomains"@,
                    Severity::Low,
                    "Strict-Transport-Security"@,
                    "omits includeSubDomains, leaving subdomains reachable over HTTP"@,
                    "Add includeSubDomains once every subdomain is HTTPS-ready"@,
                ),
            ]
        };
        assert(all_complete(tail));
        lemma_all_complete_concat(hsts_age_findings(h.max_age), tail);
        assert(hsts_findings(m, is_https) == hsts_age_findings(h.max_age) + tail);
    }

}

proof fn lemma_complete_csp_policy_findings(c: Map<Seq<char>, Seq<Seq<char>>>)
    ensures
        all_complete(csp_policy_findings(c)),
{
    reveal_strlit("'unsafe-inline'");
    reveal_strlit("'unsafe-eval'");
    reveal_strlit("default-src");
    reveal_strlit("csp-no-default-src");
    reveal_strlit("Content-Security-Policy");
    reveal_strlit("has no default-src, so undeclared resource types are unrestricted");
    reveal_strlit("Add default-src 'self' (or 'none') as a backstop");
    reveal_strlit("csp-unsafe-inline");
    reveal_strlit("allows 'unsafe-inline' in: ");
    reveal_strlit(", ");
    reveal_strlit("Replace inline code with nonces or hashes, then drop 'unsafe-inline'");
    reveal_strlit("csp-unsafe-eval");
    reveal_strlit("allows 'unsafe-eval', which permits string-to-code evaluation");
    reveal_strlit("Remove 'unsafe-eval'; most frameworks no longer need it");
    reveal_strlit("script-src");
    reveal_strlit("*");
    reveal_strlit("csp-wildcard-script-src");
    reveal_strlit("allows scripts from any origin via a wildcard source");
    reveal_strlit("Name the origins you actually load scripts from");
    reveal_strlit("object-src");
    reveal_strlit("csp-no-object-src");
    reveal_strlit("does not restrict object-src, leaving plugin content unrestricted");
    reveal_strlit("Add object-src 'none'");
}

proof fn lemma_complete_csp_findings(m: HeaderMap)
    ensures
        all_complete(csp_findings(m)),
{
    reveal_strlit("content-security-policy");
    reveal_strlit("content-security-policy-report-only");
    reveal_strlit("csp-report-only");
    reveal_strlit("Content-Security-Policy");
    reveal_strlit("only a report-only policy is set, so nothing is actually blocked");
    reveal_strlit("Promote the tested policy to Content-Security-Policy to enforce it");
    reveal_strlit("csp-missing");
    reveal_strlit("not set, so the page has no script-injection defence in depth");
    reveal_strlit("Start with: default-src 'self'; object-src 'none'; frame-ancestors 'none'");
    reveal_strlit("csp-empty");
    reveal_strlit("is present but declares no directives");
    reveal_strlit("Set a real policy, or remove the header so its absence is honest");    if lookup(m, "content-security-policy"@) is Some {
        lemma_complete_csp_policy_findings(csp_of(lookup(m, "content-security-policy"@)->0));
    }

}

proof fn lemma_complete_clickjacking_findings(m: HeaderMap)
    ensures
        all_complete(clickjacking_findings(m)),
{
    reveal_strlit("content-security-policy");
    reveal_strlit("frame-ancestors");
    reveal_strlit("x-frame-options");
    reveal_strlit("clickjacking-unprotected");
    reveal_strlit("Content-Security-Policy");
    reveal_strlit("neither frame-ancestors nor X-Frame-Options is set, so the page may be framed");
    reveal_strlit("Add frame-ancestors 'none' (or 'self') to the policy, or set X-Frame-Options: DENY");
}

proof fn lemma_complete_nosniff_findings(m: HeaderMap)
    ensures
        all_complete(nosniff_findings(m)),
{
    reveal_strlit("x-content-type-options");
    reveal_strlit("nosniff-missing");
    reveal_strlit("X-Content-Type-Options");
    reveal_strlit("not set, so browsers may MIME-sniff responses into a different type");
    reveal_strlit("Add: X-Content-Type-Options: nosniff");
    reveal_strlit("nosniff");
    reveal_strlit("nosniff-invalid");
    reveal_strlit("is ");
    reveal_strlit(", but nosniff is the only valid value");
    reveal_strlit("Set exactly: X-Content-Type-Options: nosniff");
}

proof fn lemma_complete_referrer_findings(m: HeaderMap)
    ensures
        all_complete(referrer_findings(m)),
{
    reveal_strlit("referrer-policy");
    reveal_strlit("referrer-policy-missing");
    reveal_strlit("Referrer-Policy");
    reveal_strlit("not set, so the browser default governs what leaks in the Referer header");
    reveal_strlit("Add: Referrer-Policy: strict-origin-when-cross-origin");
    reveal_strlit("unsafe-url");
    reveal_strlit("referrer-policy-unsafe");
    reveal_strlit("is unsafe-url, which sends full URLs including paths to other origins");
    reveal_strlit("Use strict-origin-when-cross-origin instead");
}

proof fn lemma_complete_presence_findings(m: HeaderMap)
    ensures
        all_complete(presence_findings(m)),
{
    reveal_strlit("permissions-policy");
    reveal_strlit("permissions-policy-missing");
    reveal_strlit("Permissions-Policy");
    reveal_strlit("not set, so powerful features are governed only by browser defaults");
    reveal_strlit("Add a policy disabling what you do not use, e.g. camera=(), geolocation=()");
    reveal_strlit("cross-origin-opener-policy");
    reveal_strlit("coop-missing");
    reveal_strlit("Cross-Origin-Opener-Policy");
    reveal_strlit("not set, so the page shares a browsing context group with openers");
    reveal_strlit("Add: Cross-Origin-Opener-Policy: same-origin");
}

proof fn lemma_complete_disclosure_findings(m: HeaderMap, name: Seq<char>)
    ensures
        all_complete(disclosure_findings(m, name)),
{
    reveal_strlit("version-disclosure");
    reveal_strlit("discloses a version: ");
    reveal_strlit("Suppress the version, or remove the header entirely");
}

proof fn lemma_complete_cors_findings(m: HeaderMap)
    ensures
        all_complete(cors_findings(m)),
{
    reveal_strlit("access-control-allow-origin");
    reveal_strlit("access-control-allow-credentials");
    reveal_strlit("true");
    reveal_strlit("*");
    reveal_strlit("cors-wildcard-with-credentials");
    reveal_strlit("Access-Control-Allow-Origin");
    reveal_strlit("is * while credentials are allowed, which browsers reject and which signals the origin check is not being done");
    reveal_strlit("Echo a specific allowed origin instead of *, from an allowlist");
}

proof fn lemma_complete_cookie_findings(raw: Seq<char>, is_https: bool)
    ensures
        all_complete(cookie_findings(raw, is_https)),
{
    reveal_strlit("cookie-no-httponly");
    reveal_strlit("Set-Cookie");
    reveal_strlit("cookie ");
    reveal_strlit(" is readable from JavaScript (no HttpOnly)");
    reveal_strlit("Add HttpOnly unless a script genuinely needs to read it");
    reveal_strlit("cookie-no-secure");
    reveal_strlit(" may be sent over plain HTTP (no Secure)");
    reveal_strlit("Add Secure so the cookie is HTTPS-only");
    reveal_strlit("cookie-no-samesite");
    reveal_strlit(" sets no SameSite, relying on the browser default");
    reveal_strlit("Set SameSite=Lax, or Strict for session cookies");
    reveal_strlit("none");
    reveal_strlit("cookie-samesite-none-insecure");
    reveal_strlit(" is SameSite=None without Secure, so browsers reject it");
    reveal_strlit("Add Secure alongside SameSite=None");
}

proof fn lemma_complete_cookies(raws: Seq<Seq<char>>, is_https: bool)
    ensures
        all_complete(cookies_findings(raws, is_https)),
    decreases raws.len(),
{
    if raws.len() > 0 {
        lemma_complete_cookies(raws.drop_last(), is_https);
        lemma_complete_cookie_findings(raws.last(), is_https);
        lemma_all_complete_concat(
            cookies_findings(raws.drop_last(), is_https),
            cookie_findings(raws.last(), is_https),
        );
    }
}

/// Every finding an audit produces names the header it concerns and carries a
/// code, a message and a remediation, none of them empty.
pub proof fn law_findings_are_complete(m: HeaderMap, is_https: bool)
    ensures
        all_complete(raw_findings(m, is_https)),
{
    lemma_complete_hsts_findings(m, is_https);
    lemma_complete_csp_findings(m);
    lemma_complete_clickjacking_findings(m);
    lemma_complete_nosniff_findings(m);
    lemma_complete_referrer_findings(m);
    lemma_complete_presence_findings(m);
    lemma_complete_disclosure_findings(m, "server"@);
    lemma_complete_disclosure_findings(m, "x-powered-by"@);
    lemma_complete_disclosure_findings(m, "x-aspnet-version"@);
    lemma_complete_disclosure_findings(m, "x-aspnetmvc-version"@);
    lemma_complete_cors_findings(m);
    lemma_complete_cookies(lookup_all(m, "set-cookie"@), is_https);
    let a1 = nosniff_findings(m) + referrer_findings(m);
    lemma_all_complete_concat(nosniff_findings(m), referrer_findings(m));
    let a2 = a1 + presence_findings(m);
    lemma_all_complete_concat(a1, presence_findings(m));
    let a3 = a2 + disclosure_findings(m, "server"@);
    lemma_all_complete_concat(a2, disclosure_findings(m, "server"@));
    let a4 = a3 + disclosure_findings(m, "x-powered-by"@);
    lemma_all_complete_concat(a3, disclosure_findings(m, "x-powered-by"@));
    let a5 = a4 + disclosure_findings(m, "x-aspnet-version"@);
    lemma_all_complete_concat(a4, disclosure_findings(m, "x-aspnet-version"@));
    lemma_all_complete_concat(a5, disclosure_findings(m, "x-aspnetmvc-version"@));
    let b1 = hsts_findings(m, is_https) + csp_findings(m);
    lemma_all_complete_concat(hsts_findings(m, is_https), csp_findings(m));
    let b2 = b1 + clickjacking_findings(m);
    lemma_all_complete_concat(b1, clickjacking_findings(m));
    let b3 = b2 + simple_findings(m);
    lemma_all_complete_concat(b2, simple_findings(m));
    let b4 = b3 + cors_findings(m);
    lemma_all_complete_concat(b3, cors_findings(m));
    lemma_all_complete_concat(b4, cookies_findings(lookup_all(m, "set-cookie"@), is_https));
}

/// Every finding in an audit's report is complete: it names its header and
/// has a code, a message and a remediation, none of them empty.
pub proof fn law_report_findings_are_complete(
    r: ReportView,
    url: Seq<char>,
    status: u16,
    m: HeaderMap,
    is_https: bool,
)
    requires
        is_audit_of(r, url, status, m, is_https),
    ensures
        all_complete(r.findings),
{
    law_findings_are_complete(m, is_https);
    let raw = raw_findings(m, is_https);
    assert forall|i: int| 0 <= i < r.findings.len() implies complete(#[trigger] r.findings[i]) by {
        let f = r.findings[i];
        law_audit_keeps_every_finding(r, url, status, m, is_https, f);
        assert(r.findings.contains(f));
        let j = choose|j: int| 0 <= j < raw.len() && raw[j] == f;
        assert(complete(raw[j]));
    }
}

/// Whether `a` is listed before `b`.
fn precedes_exec(a: &Finding, b: &Finding) -> (r: bool)
    ensures
        r == precedes(a@, b@),
{
    let ra = a.severity.rank();
    let rb = b.severity.rank();
    if ra != rb {
        ra > rb
    } else {
        let ca = chars_of(a.code.as_str());
        let cb = chars_of(b.code.as_str());
        chars_lt(ca.as_slice(), cb.as_slice())
    }
}

/// Most severe first, then by code; a stable sort, so findings alike in both
/// keep the order they were produced in.
fn sort_findings(raw: Vec<Finding>) -> (out: Vec<Finding>)
    ensures
        most_severe_first(finding_views(out@)),
        keeps_order_of(finding_views(out@), finding_views(raw@)),
{
    let ghost r0 = finding_views(raw@);
    let mut rest = raw;
    let mut out: Vec<Finding> = Vec::new();
    let ghost mut done: int = 0;
    proof {
        assert(finding_views(rest@) =~= r0.skip(0));
        assert forall|severity: Severity, code: Seq<char>|
            #[trigger] with_key(finding_views(out@), severity, code) == with_key(
                r0.take(0),
                severity,
                code,
            ) by {
            assert(finding_views(out@) =~= r0.take(0));
        }
    }
    while rest.len() > 0
        invariant
            0 <= done <= r0.len(),
            finding_views(rest@) == r0.skip(done),
            most_severe_first(finding_views(out@)),
            forall|severity: Severity, code: Seq<char>|
                #[trigger] with_key(finding_views(out@), severity, code) == with_key(
                    r0.take(done),
                    severity,
                    code,
                ),
        decreases rest@.len(),
    {
        let ghost before = rest@;
        assert(finding_views(before).len() > 0);
        assert(done < r0.len());
        let f = rest.remove(0);
        assert(f == before[0]);
        assert(finding_views(before)[0] == f@);
        let ghost s = finding_views(out@);
        assert(f@ == r0[done]);
        let mut p: usize = 0;
        while p < out.len() && !precedes_exec(&f, &out[p])
            invariant
                p <= out@.len(),
                s == finding_views(out@),
                forall|j: int| 0 <= j < p ==> !precedes(f@, #[trigger] s[j]),
            decreases out@.len() - p,
        {
            p = p + 1;
        }
        proof {
            lemma_insert_ordered(s, p as int, f@);
        }
        out.insert(p, f);
        proof {
            assert(finding_views(out@) =~= s.insert(p as int, f@));
            assert(r0.take(done + 1).drop_last() =~= r0.take(done));
            assert(r0.take(done + 1).last() == f@);
            assert(rest@ =~= before.subrange(1, before.len() as int));
            assert forall|k: int| 0 <= k < rest@.len() implies #[trigger] finding_views(rest@)[k]
                == r0.skip(done + 1)[k] by {
                assert(rest@[k] == before[k + 1]);
                assert(finding_views(before)[k + 1] == r0.skip(done)[k + 1]);
            }
            assert(finding_views(rest@) =~= r0.skip(done + 1));
            done = done + 1;
        }
    }
    proof {
        assert(r0.skip(done).len() == 0);
        assert(r0.take(done) =~= r0);
    }
    out
}

/// Audit a response.
///
/// `is_https` changes several verdicts rather than only the wording: HSTS is
/// meaningless over plain HTTP, and a missing `Secure` cookie attribute is only
/// a finding when the response arrived over TLS.
pub fn analyze(url: &str, status: u16, headers: &Headers, is_https: bool) -> (r: Report)
    ensures
        is_audit_of(r@, url@, status, headers@, is_https),
{
    let mut findings: Vec<Finding> = Vec::new();
    check_hsts(headers, is_https, &mut findings);
    check_csp(headers, &mut findings);
    check_clickjacking(headers, &mut findings);
    check_simple_headers(headers, &mut findings);
    check_cors(headers, &mut findings);
    check_cookies(headers, is_https, &mut findings);
    assert(finding_views(findings@) =~= raw_findings(headers@, is_https));

    // Most severe first, then by code so output is stable run to run.
    let findings = sort_findings(findings);
    let score = score_findings(&findings);
    Report { url: url.to_owned(), status, score, grade: grade_for(score), findings }
}

} // verus!
