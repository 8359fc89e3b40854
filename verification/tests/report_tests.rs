use headerscan::analyze::{analyze, Finding, Report, Severity};
use headerscan::headers::Headers;
use headerscan::report::{exit_status, render_text, summarize};

fn clean_report() -> Report {
    let headers = Headers::from_pairs([
        (
            "strict-transport-security",
            "max-age=31536000; includeSubDomains",
        ),
        (
            "content-security-policy",
            "default-src 'self'; object-src 'none'; frame-ancestors 'none'",
        ),
        ("x-content-type-options", "nosniff"),
        ("referrer-policy", "strict-origin-when-cross-origin"),
        ("permissions-policy", "camera=()"),
        ("cross-origin-opener-policy", "same-origin"),
    ]);
    analyze("https://x.test", 200, &headers, true)
}

#[test]
fn a_clean_report_says_so() {
    let text = render_text(&clean_report(), false);
    assert!(text.contains("no findings"));
    assert!(text.contains("grade A"));
}

#[test]
fn findings_include_code_and_remediation() {
    let report = analyze("https://x.test", 200, &Headers::new(), true);
    let text = render_text(&report, false);
    assert!(text.contains("[hsts-missing]"));
    assert!(text.contains("fix:"));
}

#[test]
fn colour_is_opt_in() {
    let report = clean_report();
    assert!(!render_text(&report, false).contains('\x1b'));
    assert!(render_text(&report, true).contains('\x1b'));
}

// ---------------------------------------------------------------------------
// Further cases
// ---------------------------------------------------------------------------

#[test]
fn the_exact_text_of_a_clean_report() {
    assert_eq!(
        render_text(&clean_report(), false),
        "https://x.test  200 grade A (100/100)\n  no findings\n"
    );
    assert_eq!(
        render_text(&clean_report(), true),
        "\x1b[1mhttps://x.test  200 \x1b[32mgrade A (100/100)\x1b[0m\x1b[0m\n  no findings\n"
    );
}

#[test]
fn the_exact_text_of_one_finding() {
    let report = Report {
        url: "u".to_owned(),
        status: 404,
        score: 97,
        grade: 'A',
        findings: vec![Finding {
            code: "c".to_owned(),
            severity: Severity::Low,
            header: None,
            message: "m".to_owned(),
            remediation: "r".to_owned(),
        }],
    };
    assert_eq!(
        render_text(&report, false),
        "u  404 grade A (97/100)\n  low      -: m [c]\n           fix: r\n"
    );
    assert_eq!(
        render_text(&report, true),
        "\x1b[1mu  404 \x1b[32mgrade A (97/100)\x1b[0m\x1b[0m\n  \x1b[36mlow\x1b[0m -: m \x1b[2m[c]\x1b[0m\n           \x1b[2mfix:\x1b[0m r\n"
    );
}

#[test]
fn the_summary_reports_the_worst_target() {
    let good = clean_report();
    let bad = analyze("https://y.test", 200, &Headers::new(), true);
    let worst = bad.score;
    let count = good.findings.len() + bad.findings.len();
    let summary = summarize(&[good, bad]);
    assert_eq!(summary.targets, 2);
    assert_eq!(summary.lowest_score, worst);
    assert_eq!(summary.lowest_grade, 'F');
    assert_eq!(summary.findings, count);
}

#[test]
fn the_summary_of_no_targets_is_perfect() {
    let summary = summarize(&[]);
    assert_eq!(summary.targets, 0);
    assert_eq!(summary.lowest_score, 100);
    assert_eq!(summary.lowest_grade, 'A');
    assert_eq!(summary.findings, 0);
}

#[test]
fn the_exit_status_gates_on_failures_and_the_minimum_score() {
    let good = clean_report();
    let bad = analyze("https://y.test", 200, &Headers::new(), true);
    assert_eq!(exit_status(&[], 80, false), 0);
    assert_eq!(exit_status(&[], 0, true), 1);
    assert_eq!(exit_status(&[good.clone()], 100, false), 0);
    assert_eq!(exit_status(&[good.clone(), bad.clone()], 80, false), 1);
    assert_eq!(exit_status(&[good, bad], 0, false), 0);
}
