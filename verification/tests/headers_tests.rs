use headerscan::headers::{parse_cookie, parse_hsts, Csp, Headers};

#[test]
fn header_lookup_ignores_case() {
    let headers = Headers::from_pairs([("Content-Type", "text/html")]);
    assert_eq!(headers.get("content-type"), Some("text/html"));
    assert_eq!(headers.get("CONTENT-TYPE"), Some("text/html"));
    assert!(headers.has("Content-Type"));
}

#[test]
fn repeated_headers_are_all_kept() {
    let headers = Headers::from_pairs([("Set-Cookie", "a=1"), ("set-cookie", "b=2")]);
    assert_eq!(headers.get_all("Set-Cookie").len(), 2);
    assert_eq!(headers.get("set-cookie"), Some("a=1"));
}

#[test]
fn missing_header_yields_nothing() {
    let headers = Headers::new();
    assert!(headers.is_empty());
    assert_eq!(headers.get("x-nope"), None);
    assert!(headers.get_all("x-nope").is_empty());
}

#[test]
fn hsts_directives_are_parsed() {
    let hsts = parse_hsts("max-age=31536000; includeSubDomains; preload");
    assert_eq!(hsts.max_age, Some(31_536_000));
    assert!(hsts.include_subdomains);
    assert!(hsts.preload);
}

#[test]
fn hsts_parsing_is_case_insensitive_and_tolerates_quotes() {
    let hsts = parse_hsts("MAX-AGE=\"600\"; INCLUDESUBDOMAINS");
    assert_eq!(hsts.max_age, Some(600));
    assert!(hsts.include_subdomains);
}

#[test]
fn hsts_without_max_age_reports_none() {
    assert_eq!(parse_hsts("includeSubDomains").max_age, None);
    assert_eq!(parse_hsts("max-age=abc").max_age, None);
}

#[test]
fn csp_directives_are_split() {
    let csp = Csp::parse("default-src 'self'; script-src 'self' 'unsafe-inline'");
    assert_eq!(
        csp.directive("default-src"),
        Some(["'self'".to_owned()].as_slice())
    );
    assert!(csp.has("script-src"));
    assert!(!csp.has("object-src"));
}

#[test]
fn csp_finds_directives_containing_a_token() {
    let csp = Csp::parse("script-src 'unsafe-inline'; style-src 'unsafe-inline'");
    let mut found = csp.directives_containing("'unsafe-inline'");
    found.sort_unstable();
    assert_eq!(found, ["script-src", "style-src"]);
}

#[test]
fn csp_falls_back_to_default_src() {
    let csp = Csp::parse("default-src 'none'");
    assert_eq!(
        csp.effective("script-src"),
        Some(["'none'".to_owned()].as_slice())
    );
}

#[test]
fn empty_csp_is_detected() {
    assert!(Csp::parse("   ").is_empty());
    assert!(Csp::parse(";;").is_empty());
}

#[test]
fn cookie_attributes_are_parsed() {
    let cookie = parse_cookie("session=abc123; Path=/; Secure; HttpOnly; SameSite=Lax");
    assert_eq!(cookie.name, "session");
    assert!(cookie.secure);
    assert!(cookie.http_only);
    assert_eq!(cookie.same_site.as_deref(), Some("lax"));
}

#[test]
fn cookie_without_attributes_is_bare() {
    let cookie = parse_cookie("plain=1");
    assert_eq!(cookie.name, "plain");
    assert!(!cookie.secure);
    assert!(!cookie.http_only);
    assert_eq!(cookie.same_site, None);
}

// ---------------------------------------------------------------------------
// Further cases
// ---------------------------------------------------------------------------

#[test]
fn names_and_values_are_trimmed_on_insert() {
    let mut headers = Headers::new();
    headers.insert("  X-Frame-Options \t", "  DENY  ");
    assert_eq!(headers.get("x-frame-options"), Some("DENY"));
    assert_eq!(headers.len(), 1);
}

#[test]
fn a_later_value_does_not_replace_the_first() {
    let mut headers = Headers::new();
    headers.insert("Server", "one");
    headers.insert("SERVER", "two");
    assert_eq!(headers.get("server"), Some("one"));
    assert_eq!(headers.get_all("server"), ["one".to_owned(), "two".to_owned()]);
    assert_eq!(headers.len(), 1);
}

#[test]
fn distinct_names_are_counted() {
    let headers = Headers::from_pairs([("a", "1"), ("B", "2"), ("b", "3")]);
    assert_eq!(headers.len(), 2);
    assert!(!headers.is_empty());
    let copy = headers.clone();
    assert_eq!(copy.get_all("b").len(), 2);
}

#[test]
fn hsts_last_max_age_wins_and_bad_numbers_clear_it() {
    assert_eq!(parse_hsts("max-age=5; max-age=7").max_age, Some(7));
    assert_eq!(parse_hsts("max-age=5; max-age=x").max_age, None);
    assert_eq!(parse_hsts("max-age = 42").max_age, Some(42));
    assert_eq!(parse_hsts("max-age=+9").max_age, Some(9));
    assert_eq!(parse_hsts("max-age=-9").max_age, None);
    assert_eq!(parse_hsts("max-age=18446744073709551616").max_age, None);
    assert_eq!(
        parse_hsts("max-age=18446744073709551615").max_age,
        Some(u64::MAX)
    );
    assert_eq!(parse_hsts("max-age").max_age, None);
    assert!(!parse_hsts("").preload);
}

#[test]
fn csp_lowercases_and_later_directives_replace_earlier_ones() {
    let csp = Csp::parse("Script-Src 'SELF'; script-src https://a.test  https://b.test");
    assert_eq!(
        csp.directive("script-src"),
        Some(["https://a.test".to_owned(), "https://b.test".to_owned()].as_slice())
    );
    assert_eq!(csp.directive("Script-Src"), None);
    assert_eq!(csp.effective("img-src"), None);
}

#[test]
fn csp_directives_containing_comes_out_in_name_order() {
    let csp = Csp::parse("style-src 'x'; img-src 'x'; script-src 'x'; font-src 'y'");
    assert_eq!(
        csp.directives_containing("'x'"),
        ["img-src", "script-src", "style-src"]
    );
    assert!(csp.directives_containing("'z'").is_empty());
}

#[test]
fn cookie_name_stops_at_the_first_equals_sign() {
    let cookie = parse_cookie(" token = a=b ; SAMESITE= None ; secure");
    assert_eq!(cookie.name, "token");
    assert!(cookie.secure);
    assert_eq!(cookie.same_site.as_deref(), Some("none"));
    let unnamed = parse_cookie("=v");
    assert_eq!(unnamed.name, "");
}

#[test]
fn csp_fallback_follows_the_specification_lists() {
    let csp = Csp::parse("script-src 'self'; default-src *; child-src a.test");
    let list = |s: &str| Some(vec![s.to_owned()]);
    assert_eq!(csp.effective("script-src-elem").map(|s| s.to_vec()), list("'self'"));
    assert_eq!(csp.effective("script-src-attr").map(|s| s.to_vec()), list("'self'"));
    assert_eq!(csp.effective("worker-src").map(|s| s.to_vec()), list("a.test"));
    assert_eq!(csp.effective("frame-src").map(|s| s.to_vec()), list("a.test"));
    assert_eq!(csp.effective("style-src-elem").map(|s| s.to_vec()), list("*"));
    assert_eq!(csp.effective("img-src").map(|s| s.to_vec()), list("*"));
    assert_eq!(csp.effective("frame-ancestors").map(|s| s.to_vec()), list("*"));
    let framed = Csp::parse("frame-ancestors 'none'");
    assert_eq!(framed.effective("frame-ancestors").map(|s| s.to_vec()), list("'none'"));
    assert_eq!(framed.effective("base-uri"), None);
    let scripts_only = Csp::parse("script-src 'self'");
    assert_eq!(
        scripts_only.effective("worker-src").map(|s| s.to_vec()),
        list("'self'")
    );
    assert_eq!(scripts_only.effective("img-src"), None);
}

#[test]
fn headers_build_from_a_vec_of_pairs() {
    let pairs = vec![("Set-Cookie", "a=1"), ("set-cookie", "b=2"), ("Server", " nginx ")];
    let headers = Headers::from_slice(&pairs);
    assert_eq!(headers.len(), 2);
    assert_eq!(headers.get_all("set-cookie"), ["a=1".to_owned(), "b=2".to_owned()]);
    assert_eq!(headers.get("server"), Some("nginx"));
}
