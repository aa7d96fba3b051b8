use http_plugin::cookies::CookieJar;
use http_plugin::error::HttpError;
use http_plugin::registry::ReadStep;
use http_plugin::scope::Scope;
use http_plugin::scope::ScopePattern;
use http_plugin::scope::ScopeRule;
use http_plugin::scope::UrlParts;
use http_plugin::Http;
use http_plugin::TransportOutcome;

fn url(scheme: &str, host: &str, port: u16, path: &str) -> UrlParts {
    UrlParts {
        scheme: scheme.to_string(),
        host: host.to_string(),
        port,
        path: path.to_string(),
    }
}

fn pattern(scheme: Option<&str>, host: Option<&str>, port: Option<u16>, path: &str, prefix: bool) -> ScopePattern {
    ScopePattern::new(
        scheme.map(|s| s.to_string()),
        host.map(|s| s.to_string()),
        port,
        path.to_string(),
        prefix,
    )
    .expect("pattern should be well formed")
}

fn api_scope() -> Scope {
    Scope::new(vec![pattern(Some("https"), Some("api.example.com"), None, "/", true)])
}

#[test]
fn empty_scope_denies_everything() {
    let scope = Scope::new(Vec::new());
    assert!(!scope.permits(&url("https", "api.example.com", 443, "/")));
    assert!(!scope.permits(&url("http", "localhost", 80, "/index.html")));
}

#[test]
fn scheme_host_match_case_insensitive() {
    let scope = Scope::new(vec![pattern(Some("HTTPS"), Some("API.Example.COM"), None, "/", true)]);
    assert!(scope.permits(&url("https", "api.example.com", 443, "/v1")));
    assert!(scope.permits(&url("HttpS", "Api.ExaMple.Com", 8443, "/")));
}

#[test]
fn path_match_case_sensitive() {
    let scope = Scope::new(vec![pattern(None, None, None, "/API", false)]);
    assert!(scope.permits(&url("https", "h", 443, "/API")));
    assert!(!scope.permits(&url("https", "h", 443, "/api")));
}

#[test]
fn path_prefix_and_exact_rules() {
    let scope = Scope::new(vec![pattern(None, None, None, "/v1/", true)]);
    assert!(scope.permits(&url("https", "h", 443, "/v1/items")));
    assert!(!scope.permits(&url("https", "h", 443, "/v2/items")));
    let exact = Scope::new(vec![pattern(None, None, None, "/v1", false)]);
    assert!(exact.permits(&url("https", "h", 443, "/v1")));
    assert!(!exact.permits(&url("https", "h", 443, "/v1/items")));
}

#[test]
fn port_rule_matches_exactly() {
    let scope = Scope::new(vec![pattern(None, None, Some(8080), "/", true)]);
    assert!(scope.permits(&url("http", "h", 8080, "/")));
    assert!(!scope.permits(&url("http", "h", 80, "/")));
}

#[test]
fn malformed_pattern_is_configuration_error() {
    assert_eq!(
        ScopePattern::new(Some(String::new()), None, None, "/".to_string(), true).unwrap_err(),
        HttpError::ConfigurationError
    );
    assert_eq!(
        ScopePattern::new(None, Some("bad host!".to_string()), None, "/".to_string(), true)
            .unwrap_err(),
        HttpError::ConfigurationError
    );
    assert_eq!(
        ScopePattern::new(None, None, None, "/a*b".to_string(), false).unwrap_err(),
        HttpError::ConfigurationError
    );
    assert_eq!(
        ScopePattern::new(None, None, None, "no-slash".to_string(), false).unwrap_err(),
        HttpError::ConfigurationError
    );
}

#[test]
fn scope_load_fails_whole_on_one_bad_rule() {
    let good = ScopeRule {
        scheme: Some("https".to_string()),
        host: Some("ok.example.com".to_string()),
        port: None,
        path_stem: "/".to_string(),
        path_is_prefix: true,
    };
    let bad = ScopeRule {
        scheme: Some("https".to_string()),
        host: Some(String::new()),
        port: None,
        path_stem: "/".to_string(),
        path_is_prefix: true,
    };
    assert_eq!(Scope::load(vec![good, bad]).unwrap_err(), HttpError::ConfigurationError);
}

#[test]
fn fetch_rejects_malformed_method() {
    let ctx = Http::new(api_scope(), None);
    let r = ctx.fetch(
        "get it".to_string(),
        url("https", "api.example.com", 443, "/v1/items"),
        Vec::new(),
        None,
        None,
        None,
        false,
    );
    assert_eq!(r.err().unwrap(), HttpError::ConfigurationError);
}

#[test]
fn scenario_scope_gate_before_network() {
    // Allow-list holds only https://api.example.com/*.
    let mut ctx = Http::new(api_scope(), Some(CookieJar::new()));

    // The https URL passes validation and goes through to a 200 response.
    let pending = ctx
        .fetch(
            "GET".to_string(),
            url("https", "api.example.com", 443, "/v1/items"),
            Vec::new(),
            None,
            Some(30_000),
            None,
            false,
        )
        .expect("https URL is in scope");
    let (id, status) = ctx
        .fetch_send(pending, TransportOutcome::Headers(200, Vec::new()), Vec::new(), 1)
        .expect("dispatch succeeds");
    assert_eq!(status, 200);
    assert!(ctx.registry.contains(id));

    // The same URL under plain http fails closed before any network work:
    // fetch itself refuses, so nothing was ever handed to a transport.
    let r = ctx.fetch(
        "GET".to_string(),
        url("http", "api.example.com", 80, "/v1/items"),
        Vec::new(),
        None,
        Some(30_000),
        None,
        false,
    );
    assert_eq!(r.err().unwrap(), HttpError::ScopeViolation);
}

#[test]
fn failed_dispatch_allocates_no_id() {
    let mut ctx = Http::new(api_scope(), None);
    let mk = |c: &Http| {
        c.fetch(
            "GET".to_string(),
            url("https", "api.example.com", 443, "/v1"),
            Vec::new(),
            None,
            None,
            None,
            false,
        )
        .unwrap()
    };
    let p1 = mk(&ctx);
    assert_eq!(
        ctx.fetch_send(p1, TransportOutcome::NetworkFailure, Vec::new(), 0).unwrap_err(),
        HttpError::NetworkError
    );
    let p2 = mk(&ctx);
    assert_eq!(
        ctx.fetch_send(p2, TransportOutcome::TimedOut, Vec::new(), 0).unwrap_err(),
        HttpError::TimeoutError
    );
    // Both failures left the id counter untouched: the next success gets id 0.
    let p3 = mk(&ctx);
    let (id, _) = ctx
        .fetch_send(p3, TransportOutcome::Headers(204, Vec::new()), Vec::new(), 0)
        .unwrap();
    assert_eq!(id, 0);
}

#[test]
fn send_rechecks_scope() {
    let mut ctx = Http::new(api_scope(), None);
    let pending = http_plugin::PendingRequest {
        method: "GET".to_string(),
        url: url("http", "api.example.com", 80, "/v1"),
        headers: Vec::new(),
        body: None,
        timeout_ms: None,
        max_redirects: None,
        attach_cookies: false,
    };
    assert_eq!(
        ctx.fetch_send(pending, TransportOutcome::Headers(200, Vec::new()), Vec::new(), 0)
            .unwrap_err(),
        HttpError::ScopeViolation
    );
}

#[test]
fn read_body_streams_in_chunks() {
    let mut ctx = Http::new(api_scope(), None);
    let pending = ctx
        .fetch(
            "GET".to_string(),
            url("https", "api.example.com", 443, "/v1/items"),
            Vec::new(),
            None,
            None,
            None,
            false,
        )
        .unwrap();
    let (id, _) = ctx
        .fetch_send(pending, TransportOutcome::Headers(200, Vec::new()), Vec::new(), 0)
        .unwrap();
    // Nothing delivered yet: the caller must wait for the transport.
    assert!(matches!(ctx.fetch_read_body(id, 10, 1), Ok(ReadStep::Pending)));
    ctx.registry.deliver(id, vec![1, 2, 3, 4, 5]);
    match ctx.fetch_read_body(id, 2, 2) {
        Ok(ReadStep::Chunk(c)) => assert_eq!(c, vec![1, 2]),
        other => panic!("expected first chunk, got {:?}", other),
    }
    match ctx.fetch_read_body(id, 2, 3) {
        Ok(ReadStep::Chunk(c)) => assert_eq!(c, vec![3, 4]),
        other => panic!("expected second chunk, got {:?}", other),
    }
    ctx.registry.finish(id);
    match ctx.fetch_read_body(id, 10, 4) {
        Ok(ReadStep::Chunk(c)) => assert_eq!(c, vec![5]),
        other => panic!("expected last chunk, got {:?}", other),
    }
    assert!(matches!(ctx.fetch_read_body(id, 10, 5), Ok(ReadStep::EndOfBody)));
}

#[test]
fn stream_failure_surfaces_once_drained() {
    let mut ctx = Http::new(api_scope(), None);
    let pending = ctx
        .fetch(
            "GET".to_string(),
            url("https", "api.example.com", 443, "/v1"),
            Vec::new(),
            None,
            None,
            None,
            false,
        )
        .unwrap();
    let (id, _) = ctx
        .fetch_send(pending, TransportOutcome::Headers(200, Vec::new()), Vec::new(), 0)
        .unwrap();
    ctx.registry.deliver(id, vec![9]);
    ctx.registry.fail(id);
    match ctx.fetch_read_body(id, 10, 1) {
        Ok(ReadStep::Chunk(c)) => assert_eq!(c, vec![9]),
        other => panic!("expected buffered byte, got {:?}", other),
    }
    assert_eq!(ctx.fetch_read_body(id, 10, 2).unwrap_err(), HttpError::StreamError);
    // Failed is terminal: the entry is gone.
    assert_eq!(ctx.fetch_read_body(id, 10, 3).unwrap_err(), HttpError::UnknownRequestId);
}

#[test]
fn wildcard_scheme_and_host_match_anything() {
    let scope = Scope::new(vec![pattern(None, None, None, "/", true)]);
    assert!(scope.permits(&url("https", "one.example.com", 443, "/a")));
    assert!(scope.permits(&url("ftp", "two.example.org", 21, "/b/c")));
}

#[test]
fn response_metadata_is_captured_once() {
    let mut ctx = Http::new(api_scope(), None);
    let pending = ctx
        .fetch(
            "HEAD".to_string(),
            url("https", "api.example.com", 443, "/v1"),
            Vec::new(),
            None,
            None,
            None,
            false,
        )
        .unwrap();
    let headers = vec![("content-type".to_string(), "application/json".to_string())];
    let (id, status) = ctx
        .fetch_send(pending, TransportOutcome::Headers(418, headers), Vec::new(), 0)
        .unwrap();
    assert_eq!(status, 418);
    let entry = ctx.registry.get_entry(id).unwrap();
    assert_eq!(entry.status, 418);
    assert_eq!(entry.headers.len(), 1);
    assert_eq!(entry.headers[0].0, "content-type");
    assert_eq!(entry.headers[0].1, "application/json");
}
