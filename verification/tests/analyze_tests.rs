use headerscan::analyze::{analyze, grade_for, Report, Severity};
use headerscan::headers::Headers;

fn codes(report: &Report) -> Vec<&str> {
    report.findings.iter().map(|f| f.code.as_str()).collect()
}

/// A response that should pass every check.
fn hardened() -> Headers {
    Headers::from_pairs([
        (
            "strict-transport-security",
            "max-age=31536000; includeSubDomains",
        ),
        (
            "content-security-policy",
            "default-src 'self'; object-src 'none'; frame-ancestors 'none'",
        ),
        ("x-content-type-options", "nosniff"),
        ("referrer-policy", "strict-origin-when-cross-origin"),
        ("permissions-policy", "camera=(), geolocation=()"),
        ("cross-origin-opener-policy", "same-origin"),
    ])
}

#[test]
fn a_hardened_response_scores_full_marks() {
    let report = analyze("https://x.test", 200, &hardened(), true);
    assert_eq!(report.findings.len(), 0, "unexpected: {:?}", codes(&report));
    assert_eq!(report.score, 100);
    assert_eq!(report.grade, 'A');
}

#[test]
fn a_bare_response_fails_badly() {
    let report = analyze("https://x.test", 200, &Headers::new(), true);
    assert!(codes(&report).contains(&"hsts-missing"));
    assert!(codes(&report).contains(&"csp-missing"));
    assert!(codes(&report).contains(&"nosniff-missing"));
    assert_eq!(report.grade, 'F');
}

#[test]
fn clickjacking_is_reported_when_there_is_no_csp_at_all() {
    let report = analyze("https://x.test", 200, &Headers::new(), true);
    assert!(
        codes(&report).contains(&"clickjacking-unprotected"),
        "got {:?}",
        codes(&report)
    );
}

#[test]
fn clickjacking_is_satisfied_by_x_frame_options_without_any_csp() {
    let headers = Headers::from_pairs([("x-frame-options", "DENY")]);
    let report = analyze("https://x.test", 200, &headers, true);
    assert!(!codes(&report).contains(&"clickjacking-unprotected"));
}

#[test]
fn clickjacking_is_satisfied_by_frame_ancestors() {
    let headers = Headers::from_pairs([(
        "content-security-policy",
        "default-src 'self'; frame-ancestors 'none'",
    )]);
    let report = analyze("https://x.test", 200, &headers, true);
    assert!(!codes(&report).contains(&"clickjacking-unprotected"));
}

#[test]
fn findings_are_ordered_most_severe_first() {
    let report = analyze("https://x.test", 200, &Headers::new(), true);
    let severities: Vec<_> = report.findings.iter().map(|f| f.severity).collect();
    let mut sorted = severities.clone();
    sorted.sort_by(|a, b| b.cmp(a));
    assert_eq!(severities, sorted);
}

#[test]
fn missing_over_http_is_only_informational() {
    let report = analyze("http://x.test", 200, &Headers::new(), false);
    assert!(codes(&report).contains(&"hsts-not-applicable"));
    assert!(!codes(&report).contains(&"hsts-missing"));
}

#[test]
fn set_over_http_is_flagged_as_ineffective() {
    let headers = Headers::from_pairs([("strict-transport-security", "max-age=31536000")]);
    let report = analyze("http://x.test", 200, &headers, false);
    assert!(codes(&report).contains(&"hsts-over-http"));
}

#[test]
fn zero_max_age_is_high_severity() {
    let headers = Headers::from_pairs([("strict-transport-security", "max-age=0")]);
    let report = analyze("https://x.test", 200, &headers, true);
    let finding = report
        .findings
        .iter()
        .find(|f| f.code == "hsts-zero-max-age")
        .expect("finding");
    assert_eq!(finding.severity, Severity::High);
}

#[test]
fn short_max_age_is_low_severity() {
    let headers = Headers::from_pairs([(
        "strict-transport-security",
        "max-age=600; includeSubDomains",
    )]);
    let report = analyze("https://x.test", 200, &headers, true);
    assert!(codes(&report).contains(&"hsts-short-max-age"));
}

#[test]
fn unparseable_max_age_is_reported() {
    let headers = Headers::from_pairs([("strict-transport-security", "includeSubDomains")]);
    let report = analyze("https://x.test", 200, &headers, true);
    assert!(codes(&report).contains(&"hsts-no-max-age"));
}

#[test]
fn report_only_is_distinguished_from_absent() {
    let headers = Headers::from_pairs([(
        "content-security-policy-report-only",
        "default-src 'self'",
    )]);
    let report = analyze("https://x.test", 200, &headers, true);
    assert!(codes(&report).contains(&"csp-report-only"));
    assert!(!codes(&report).contains(&"csp-missing"));
}

#[test]
fn unsafe_inline_in_script_src_is_high() {
    let headers = Headers::from_pairs([(
        "content-security-policy",
        "default-src 'self'; script-src 'unsafe-inline'; frame-ancestors 'none'",
    )]);
    let report = analyze("https://x.test", 200, &headers, true);
    let finding = report
        .findings
        .iter()
        .find(|f| f.code == "csp-unsafe-inline")
        .expect("finding");
    assert_eq!(finding.severity, Severity::High);
}

#[test]
fn unsafe_inline_in_style_src_only_is_low() {
    let headers = Headers::from_pairs([(
        "content-security-policy",
        "default-src 'self'; style-src 'unsafe-inline'; frame-ancestors 'none'",
    )]);
    let report = analyze("https://x.test", 200, &headers, true);
    let finding = report
        .findings
        .iter()
        .find(|f| f.code == "csp-unsafe-inline")
        .expect("finding");
    assert_eq!(finding.severity, Severity::Low);
}

#[test]
fn wildcard_script_src_is_flagged() {
    let headers = Headers::from_pairs([(
        "content-security-policy",
        "default-src 'self'; script-src *; frame-ancestors 'none'",
    )]);
    let report = analyze("https://x.test", 200, &headers, true);
    assert!(codes(&report).contains(&"csp-wildcard-script-src"));
}

#[test]
fn x_frame_options_satisfies_the_clickjacking_check() {
    let headers = Headers::from_pairs([
        ("content-security-policy", "default-src 'self'"),
        ("x-frame-options", "DENY"),
    ]);
    let report = analyze("https://x.test", 200, &headers, true);
    assert!(!codes(&report).contains(&"clickjacking-unprotected"));
}

#[test]
fn an_empty_policy_is_worse_than_a_partial_one() {
    let headers = Headers::from_pairs([("content-security-policy", "   ")]);
    let report = analyze("https://x.test", 200, &headers, true);
    assert!(codes(&report).contains(&"csp-empty"));
}

#[test]
fn invalid_nosniff_value_is_flagged() {
    let headers = Headers::from_pairs([("x-content-type-options", "sniff")]);
    let report = analyze("https://x.test", 200, &headers, true);
    assert!(codes(&report).contains(&"nosniff-invalid"));
}

#[test]
fn unsafe_referrer_policy_is_flagged() {
    let headers = Headers::from_pairs([("referrer-policy", "unsafe-url")]);
    let report = analyze("https://x.test", 200, &headers, true);
    assert!(codes(&report).contains(&"referrer-policy-unsafe"));
}

#[test]
fn a_versionless_server_header_is_not_flagged() {
    let bare = Headers::from_pairs([("server", "nginx")]);
    let versioned = Headers::from_pairs([("server", "nginx/1.18.0")]);
    assert!(!codes(&analyze("https://x.test", 200, &bare, true)).contains(&"version-disclosure"));
    assert!(codes(&analyze("https://x.test", 200, &versioned, true)).contains(&"version-disclosure"));
}

#[test]
fn wildcard_cors_with_credentials_is_high() {
    let headers = Headers::from_pairs([
        ("access-control-allow-origin", "*"),
        ("access-control-allow-credentials", "true"),
    ]);
    let report = analyze("https://x.test", 200, &headers, true);
    assert!(codes(&report).contains(&"cors-wildcard-with-credentials"));
}

#[test]
fn wildcard_cors_without_credentials_is_fine() {
    let headers = Headers::from_pairs([("access-control-allow-origin", "*")]);
    let report = analyze("https://x.test", 200, &headers, true);
    assert!(!codes(&report).contains(&"cors-wildcard-with-credentials"));
}

#[test]
fn a_bare_cookie_trips_every_attribute_check() {
    let headers = Headers::from_pairs([("set-cookie", "session=abc")]);
    let report = analyze("https://x.test", 200, &headers, true);
    let found = codes(&report);
    assert!(found.contains(&"cookie-no-httponly"));
    assert!(found.contains(&"cookie-no-secure"));
    assert!(found.contains(&"cookie-no-samesite"));
}

#[test]
fn a_hardened_cookie_passes() {
    let headers = Headers::from_pairs([(
        "set-cookie",
        "session=abc; Secure; HttpOnly; SameSite=Lax",
    )]);
    let report = analyze("https://x.test", 200, &headers, true);
    assert!(!codes(&report).iter().any(|c| c.starts_with("cookie-")));
}

#[test]
fn samesite_none_without_secure_is_high() {
    let headers = Headers::from_pairs([("set-cookie", "s=1; HttpOnly; SameSite=None")]);
    let report = analyze("https://x.test", 200, &headers, true);
    let finding = report
        .findings
        .iter()
        .find(|f| f.code == "cookie-samesite-none-insecure")
        .expect("finding");
    assert_eq!(finding.severity, Severity::High);
}

#[test]
fn missing_secure_is_not_flagged_over_plain_http() {
    let headers = Headers::from_pairs([("set-cookie", "s=1; HttpOnly; SameSite=Lax")]);
    let report = analyze("http://x.test", 200, &headers, false);
    assert!(!codes(&report).contains(&"cookie-no-secure"));
}

#[test]
fn every_cookie_is_checked_not_just_the_first() {
    let headers = Headers::from_pairs([
        ("set-cookie", "a=1; Secure; HttpOnly; SameSite=Lax"),
        ("set-cookie", "b=2"),
    ]);
    let report = analyze("https://x.test", 200, &headers, true);
    let messages: Vec<_> = report.findings.iter().map(|f| f.message.as_str()).collect();
    assert!(messages.iter().any(|m| m.contains("cookie b")));
}

#[test]
fn grade_boundaries_are_exact() {
    assert_eq!(grade_for(100), 'A');
    assert_eq!(grade_for(90), 'A');
    assert_eq!(grade_for(89), 'B');
    assert_eq!(grade_for(80), 'B');
    assert_eq!(grade_for(79), 'C');
    assert_eq!(grade_for(70), 'C');
    assert_eq!(grade_for(69), 'D');
    assert_eq!(grade_for(60), 'D');
    assert_eq!(grade_for(59), 'E');
    assert_eq!(grade_for(50), 'E');
    assert_eq!(grade_for(49), 'F');
    assert_eq!(grade_for(0), 'F');
}

#[test]
fn the_score_never_underflows() {
    let report = analyze("https://x.test", 200, &Headers::new(), true);
    assert!(report.score <= 100);
}

// ---------------------------------------------------------------------------
// Further cases
// ---------------------------------------------------------------------------

#[test]
fn a_bare_https_response_has_exactly_these_findings_in_this_order() {
    let report = analyze("https://x.test", 200, &Headers::new(), true);
    assert_eq!(
        codes(&report),
        [
            "csp-missing",
            "hsts-missing",
            "clickjacking-unprotected",
            "nosniff-missing",
            "coop-missing",
            "permissions-policy-missing",
            "referrer-policy-missing",
        ]
    );
    // 2 high, 2 medium, 3 low: 100 - 30 - 16 - 9 = 45.
    assert_eq!(report.score, 45);
    assert_eq!(report.grade, 'F');
    assert_eq!(report.url, "https://x.test");
    assert_eq!(report.status, 200);
}

#[test]
fn the_score_saturates_at_zero() {
    let headers = Headers::from_pairs([
        ("set-cookie", "a=1; SameSite=None"),
        ("set-cookie", "b=1; SameSite=None"),
        ("set-cookie", "c=1; SameSite=None"),
        ("set-cookie", "d=1; SameSite=None"),
    ]);
    let report = analyze("https://x.test", 200, &headers, true);
    assert_eq!(report.score, 0);
    assert_eq!(report.grade, 'F');
}

#[test]
fn alike_cookie_findings_keep_the_order_of_the_cookies() {
    let headers = Headers::from_pairs([
        ("set-cookie", "zeta=1; Secure; SameSite=Lax"),
        ("set-cookie", "alpha=1; Secure; SameSite=Lax"),
    ]);
    let report = analyze("https://x.test", 200, &headers, true);
    let messages: Vec<_> = report
        .findings
        .iter()
        .filter(|f| f.code == "cookie-no-httponly")
        .map(|f| f.message.as_str())
        .collect();
    assert_eq!(
        messages,
        [
            "cookie zeta is readable from JavaScript (no HttpOnly)",
            "cookie alpha is readable from JavaScript (no HttpOnly)",
        ]
    );
}

#[test]
fn a_short_max_age_message_names_the_value() {
    let headers = Headers::from_pairs([(
        "strict-transport-security",
        "max-age=600; includeSubDomains",
    )]);
    let report = analyze("https://x.test", 200, &headers, true);
    let finding = report
        .findings
        .iter()
        .find(|f| f.code == "hsts-short-max-age")
        .expect("finding");
    assert_eq!(
        finding.message,
        "max-age is 600s, below the six-month floor most guidance uses"
    );
    assert_eq!(finding.header.as_deref(), Some("Strict-Transport-Security"));
}

#[test]
fn quoted_values_appear_in_debug_form() {
    let headers = Headers::from_pairs([
        ("x-content-type-options", "sniff"),
        ("x-powered-by", "PHP/8.1"),
    ]);
    let report = analyze("https://x.test", 200, &headers, true);
    let message = |code: &str| {
        report
            .findings
            .iter()
            .find(|f| f.code == code)
            .map(|f| f.message.clone())
            .expect("finding")
    };
    assert_eq!(
        message("nosniff-invalid"),
        "is \"sniff\", but nosniff is the only valid value"
    );
    assert_eq!(message("version-disclosure"), "discloses a version: \"PHP/8.1\"");
}

#[test]
fn unsafe_inline_lists_every_directive_in_name_order() {
    let headers = Headers::from_pairs([(
        "content-security-policy",
        "style-src 'unsafe-inline'; script-src 'unsafe-inline' 'unsafe-eval'",
    )]);
    let report = analyze("https://x.test", 200, &headers, true);
    let finding = report
        .findings
        .iter()
        .find(|f| f.code == "csp-unsafe-inline")
        .expect("finding");
    assert_eq!(finding.message, "allows 'unsafe-inline' in: script-src, style-src");
    assert_eq!(finding.severity, Severity::High);
    assert!(codes(&report).contains(&"csp-unsafe-eval"));
    assert!(codes(&report).contains(&"csp-no-default-src"));
    assert!(codes(&report).contains(&"csp-no-object-src"));
}

#[test]
fn wildcard_default_src_covers_scripts() {
    let headers = Headers::from_pairs([("content-security-policy", "default-src *")]);
    let report = analyze("https://x.test", 200, &headers, true);
    assert!(codes(&report).contains(&"csp-wildcard-script-src"));
}

#[test]
fn an_unnamed_cookie_is_reported_as_such() {
    let headers = Headers::from_pairs([("set-cookie", "=1; Secure; SameSite=Lax")]);
    let report = analyze("https://x.test", 200, &headers, true);
    assert_eq!(report.findings.len(), 8);
    assert!(report
        .findings
        .iter()
        .any(|f| f.message == "cookie <unnamed> is readable from JavaScript (no HttpOnly)"));
}

#[test]
fn severity_labels_are_lowercase() {
    assert_eq!(Severity::Info.label(), "info");
    assert_eq!(Severity::Low.label(), "low");
    assert_eq!(Severity::Medium.label(), "medium");
    assert_eq!(Severity::High.label(), "high");
    assert!(Severity::High > Severity::Medium && Severity::Low > Severity::Info);
}

#[test]
fn the_same_response_always_gives_the_same_report() {
    let first = Headers::from_pairs([
        ("server", "nginx/1.18.0"),
        ("set-cookie", "b=2"),
        ("content-security-policy", "script-src 'unsafe-inline'"),
    ]);
    let second = Headers::from_pairs([
        ("Content-Security-Policy", "script-src 'unsafe-inline'"),
        ("SET-COOKIE", "b=2"),
        ("Server", "nginx/1.18.0"),
    ]);
    let a = analyze("https://x.test", 200, &first, true);
    let b = analyze("https://x.test", 200, &second, true);
    assert_eq!(format!("{a:?}"), format!("{b:?}"));
    assert_eq!(a.score, b.score);
}
