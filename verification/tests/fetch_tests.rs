use headerscan::fetch::{is_https, normalize_url, request_url, response_from, FetchError};

#[test]
fn a_bare_host_gains_https() {
    assert_eq!(normalize_url("example.com"), "https://example.com");
}

#[test]
fn an_explicit_scheme_is_preserved() {
    assert_eq!(normalize_url("http://example.com"), "http://example.com");
    assert_eq!(normalize_url("https://example.com"), "https://example.com");
}

#[test]
fn surrounding_whitespace_is_trimmed() {
    assert_eq!(normalize_url("  example.com  "), "https://example.com");
}

#[test]
fn https_detection_matches_the_scheme() {
    assert!(is_https("https://example.com"));
    assert!(!is_https("http://example.com"));
}

// ---------------------------------------------------------------------------
// Further cases
// ---------------------------------------------------------------------------

#[test]
fn normalising_twice_changes_nothing() {
    for input in ["example.com", " http://a.test ", "", "  ", "HTTPS://x"] {
        let once = normalize_url(input);
        assert_eq!(normalize_url(&once), once);
    }
}

#[test]
fn an_empty_target_is_not_a_usable_url() {
    match request_url("   ") {
        Err(FetchError::InvalidUrl(message)) => {
            assert_eq!(message, "not a usable URL: https://");
        }
        _ => panic!("expected an invalid URL"),
    }
    match request_url("http://x") {
        Err(e) => assert_eq!(e.message(), "not a usable URL: http://x"),
        Ok(_) => panic!("expected an invalid URL"),
    }
    assert_eq!(request_url("example.com").ok(), Some("https://example.com".to_owned()));
}

#[test]
fn transport_errors_display_their_message() {
    let error = FetchError::Transport("connection refused".to_owned());
    assert_eq!(error.message(), "connection refused");
}

#[test]
fn a_response_keeps_every_value_of_a_repeated_field() {
    let fields = vec![
        ("Set-Cookie".to_owned(), "a=1".to_owned()),
        ("set-cookie".to_owned(), "b=2".to_owned()),
        ("X-Content-Type-Options".to_owned(), "nosniff".to_owned()),
    ];
    let response = response_from("https://x.test/".to_owned(), 404, &fields);
    assert_eq!(response.status, 404);
    assert!(response.is_https);
    assert_eq!(response.url, "https://x.test/");
    assert_eq!(response.headers.get_all("set-cookie").len(), 2);
    assert_eq!(response.headers.get("x-content-type-options"), Some("nosniff"));
    let plain = response_from("http://x.test/".to_owned(), 200, &[]);
    assert!(!plain.is_https);
    assert!(plain.headers.is_empty());
}

#[test]
fn a_scheme_in_capitals_is_recognised() {
    assert_eq!(normalize_url("HTTP://example.com"), "HTTP://example.com");
    assert_eq!(normalize_url(" Https://example.com "), "Https://example.com");
    assert!(is_https("HTTPS://example.com"));
    assert!(!is_https("HTTP://example.com"));
    match request_url("HTTPS://example.com") {
        Ok(url) => assert_eq!(url, "HTTPS://example.com"),
        Err(_) => panic!("a URL with a scheme in capitals is usable"),
    }
}
