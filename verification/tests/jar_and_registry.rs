use http_plugin::codec::load_jar;
use http_plugin::codec::save_jar;
use http_plugin::cookies::CookieJar;
use http_plugin::cookies::CookieRecord;
use http_plugin::cookies::SameSite;
use http_plugin::error::HttpError;
use http_plugin::registry::ReadStep;
use http_plugin::registry::Registry;
use http_plugin::scope::Scope;
use http_plugin::scope::ScopePattern;
use http_plugin::scope::UrlParts;
use http_plugin::Http;
use http_plugin::TransportOutcome;

fn cv(s: &str) -> Vec<char> {
    s.chars().collect()
}

fn cookie(domain: &str, path: &str, name: &str, value: &str) -> CookieRecord {
    CookieRecord {
        domain: cv(domain),
        path: cv(path),
        name: cv(name),
        value: cv(value),
        expiry: None,
        secure: false,
        http_only: false,
        same_site: SameSite::Unset,
    }
}

#[test]
fn set_and_get_cookie() {
    let mut jar = CookieJar::new();
    assert!(jar.set_cookie(cookie("example.com", "/", "a", "1")));
    assert!(jar.set_cookie(cookie("example.com", "/", "b", "2")));
    let got = jar.get_cookie(&cv("example.com"), &cv("/"), &cv("a")).unwrap();
    assert_eq!(got.value, cv("1"));
    assert!(jar.get_cookie(&cv("example.com"), &cv("/"), &cv("c")).is_none());
    assert_eq!(jar.len(), 2);
}

#[test]
fn set_cookie_overwrites_same_key() {
    let mut jar = CookieJar::new();
    assert!(jar.set_cookie(cookie("example.com", "/", "a", "old")));
    assert!(jar.set_cookie(cookie("example.com", "/", "a", "new")));
    assert_eq!(jar.len(), 1);
    let got = jar.get_cookie(&cv("example.com"), &cv("/"), &cv("a")).unwrap();
    assert_eq!(got.value, cv("new"));
}

#[test]
fn unserializable_text_is_refused() {
    let mut jar = CookieJar::new();
    assert!(!jar.set_cookie(cookie("example.com", "/", "a", "bad\"quote")));
    assert!(!jar.set_cookie(cookie("example.com", "/", "a", "bad\\slash")));
    assert_eq!(jar.len(), 0);
}

#[test]
fn distinct_names_all_survive_in_any_order() {
    // Requests running in parallel each set a distinct cookie name for the
    // same domain and path; whatever order the lock admits their stores,
    // none is lost.
    let writes = [("s1", "a"), ("s2", "b"), ("s3", "c"), ("s4", "d")];
    let mut forward = CookieJar::new();
    for (n, v) in writes.iter() {
        assert!(forward.set_cookie(cookie("example.com", "/", n, v)));
    }
    let mut backward = CookieJar::new();
    for (n, v) in writes.iter().rev() {
        assert!(backward.set_cookie(cookie("example.com", "/", n, v)));
    }
    for jar in [&forward, &backward] {
        assert_eq!(jar.len(), 4);
        for (n, v) in writes.iter() {
            let got = jar.get_cookie(&cv("example.com"), &cv("/"), &cv(n)).unwrap();
            assert_eq!(got.value, cv(v));
        }
    }
}

#[test]
fn document_round_trip_preserves_records() {
    let mut jar = CookieJar::new();
    let mut rec = cookie("example.com", "/app", "session", "tok-123");
    rec.expiry = Some(1_700_000_000);
    rec.secure = true;
    rec.http_only = true;
    rec.same_site = SameSite::Strict;
    assert!(jar.set_cookie(rec));
    assert!(jar.set_cookie(cookie("other.org", "/", "theme", "dark")));

    let doc = save_jar(&jar);
    let reloaded = load_jar(&doc).expect("own document parses");
    assert_eq!(reloaded.len(), 2);
    let a = reloaded.get_cookie(&cv("example.com"), &cv("/app"), &cv("session")).unwrap();
    assert_eq!(a.value, cv("tok-123"));
    assert_eq!(a.expiry, Some(1_700_000_000));
    assert!(a.secure);
    assert!(a.http_only);
    assert_eq!(a.same_site, SameSite::Strict);
    let b = reloaded.get_cookie(&cv("other.org"), &cv("/"), &cv("theme")).unwrap();
    assert_eq!(b.value, cv("dark"));
    assert_eq!(b.expiry, None);
    assert_eq!(b.same_site, SameSite::Unset);
}

#[test]
fn empty_jar_serializes_as_empty_array() {
    let jar = CookieJar::new();
    let doc = save_jar(&jar);
    let text: String = doc.iter().collect();
    assert_eq!(text, "[]");
    assert_eq!(load_jar(&doc).unwrap().len(), 0);
}

#[test]
fn document_has_exact_json_shape() {
    let mut jar = CookieJar::new();
    let mut rec = cookie("example.com", "/", "session", "abc");
    rec.expiry = Some(5);
    assert!(jar.set_cookie(rec));
    let text: String = save_jar(&jar).iter().collect();
    let expected = "[{\"domain\":\"example.com\",\"path\":\"/\",\"name\":\"session\",\"value\":\"abc\",\"expiry\":\"00000000000000000005\",\"secure\":false,\"http_only\":false,\"same_site\":\"unset\"}]";
    assert_eq!(text, expected);
}

#[test]
fn corrupt_document_is_an_error() {
    for bad in ["", "{", "[", "[}", "not json at all", "[]trailing", "[{\"domain\":\"x\"}]"] {
        let doc: Vec<char> = bad.chars().collect();
        assert_eq!(load_jar(&doc).unwrap_err(), HttpError::CorruptCookieStore, "doc: {bad}");
    }
}

#[test]
fn duplicate_keys_are_a_corrupt_store() {
    let mut jar = CookieJar::new();
    assert!(jar.set_cookie(cookie("example.com", "/", "a", "1")));
    let one = save_jar(&jar);
    let body: String = one.iter().collect();
    let inner = &body[1..body.len() - 1];
    let twice: Vec<char> = format!("[{inner},{inner}]").chars().collect();
    assert_eq!(load_jar(&twice).unwrap_err(), HttpError::CorruptCookieStore);
}

#[test]
fn scenario_cookie_persistence() {
    // Cookie file missing at startup: the store loads as the empty jar.
    let mut jar = CookieJar::new();
    assert_eq!(jar.len(), 0);
    // A response sets session=abc for Domain=example.com.
    assert!(jar.set_cookie(cookie("example.com", "/", "session", "abc")));
    // Save, then reload from the same path.
    let doc = save_jar(&jar);
    let reloaded = load_jar(&doc).expect("saved jar reloads");
    let got = reloaded.get_cookie(&cv("example.com"), &cv("/"), &cv("session")).unwrap();
    assert_eq!(got.value, cv("abc"));
}

#[test]
fn send_absorbs_response_cookies_into_shared_jar() {
    let scope = Scope::new(vec![ScopePattern::new(
        None,
        Some("api.example.com".to_string()),
        None,
        "/".to_string(),
        true,
    )
    .unwrap()]);
    let mut ctx = Http::new(scope, Some(CookieJar::new()));
    let pending = ctx
        .fetch(
            "GET".to_string(),
            UrlParts {
                scheme: "https".to_string(),
                host: "api.example.com".to_string(),
                port: 443,
                path: "/login".to_string(),
            },
            Vec::new(),
            None,
            None,
            None,
            true,
        )
        .unwrap();
    ctx.fetch_send(
        pending,
        TransportOutcome::Headers(200, Vec::new()),
        vec![cookie("api.example.com", "/", "sid", "xyz")],
        0,
    )
    .unwrap();
    let jar = ctx.jar.as_ref().unwrap();
    let got = jar.get_cookie(&cv("api.example.com"), &cv("/"), &cv("sid")).unwrap();
    assert_eq!(got.value, cv("xyz"));
}

#[test]
fn cancel_is_idempotent() {
    let mut reg = Registry::new();
    let id = reg.insert_response(200, Vec::new(), 0);
    reg.deliver(id, vec![1, 2, 3]);
    reg.cancel(id);
    assert!(!reg.contains(id));
    // A second cancel of the same id is a no-op, not an error.
    reg.cancel(id);
    assert!(!reg.contains(id));
    // Cancelling an id that never existed is also a no-op.
    reg.cancel(999);
}

#[test]
fn read_after_end_of_body_is_unknown_id() {
    let mut reg = Registry::new();
    let id = reg.insert_response(200, Vec::new(), 0);
    reg.deliver(id, vec![7, 8]);
    reg.finish(id);
    match reg.read_chunk(id, 16, 1) {
        Ok(ReadStep::Chunk(c)) => assert_eq!(c, vec![7, 8]),
        other => panic!("expected chunk, got {:?}", other),
    }
    assert!(matches!(reg.read_chunk(id, 16, 2), Ok(ReadStep::EndOfBody)));
    // EndOfBody evicted the entry: every further read is UnknownRequestId.
    assert_eq!(reg.read_chunk(id, 16, 3).unwrap_err(), HttpError::UnknownRequestId);
    assert_eq!(reg.read_chunk(id, 16, 4).unwrap_err(), HttpError::UnknownRequestId);
}

#[test]
fn ids_are_fresh_and_never_reused() {
    let mut reg = Registry::new();
    let a = reg.insert_response(200, Vec::new(), 0);
    let b = reg.insert_response(201, Vec::new(), 0);
    reg.cancel(a);
    let c = reg.insert_response(202, Vec::new(), 0);
    assert_ne!(a, b);
    assert_ne!(a, c);
    assert_ne!(b, c);
    assert_eq!(reg.get_entry(b).unwrap().status, 201);
    assert_eq!(reg.get_entry(c).unwrap().status, 202);
}

#[test]
fn idle_entries_are_swept() {
    let mut reg = Registry::new();
    let old_id = reg.insert_response(200, Vec::new(), 0);
    let fresh = reg.insert_response(200, Vec::new(), 90);
    let evicted = reg.evict_idle(100, 50);
    assert_eq!(evicted, vec![old_id]);
    assert!(!reg.contains(old_id));
    assert!(reg.contains(fresh));
    // A read refreshes the activity stamp, protecting the entry.
    reg.deliver(fresh, vec![1]);
    match reg.read_chunk(fresh, 1, 140) {
        Ok(ReadStep::Chunk(c)) => assert_eq!(c, vec![1]),
        other => panic!("expected chunk, got {:?}", other),
    }
    assert!(reg.evict_idle(150, 50).is_empty());
    assert!(reg.contains(fresh));
}

#[test]
fn scenario_cancel_mid_transfer() {
    let mut reg = Registry::new();
    // Seven earlier requests, so the next dispatch is handed id 7.
    for _ in 0..7 {
        let id = reg.insert_response(200, Vec::new(), 0);
        reg.cancel(id);
    }
    let id = reg.insert_response(200, Vec::new(), 0);
    assert_eq!(id, 7);
    // Mid-transfer: some of the body has been delivered, more is pending.
    reg.deliver(id, vec![1, 2, 3]);
    // The caller cancels; the embedding program aborts the transport, which
    // unblocks any reader waiting on it.
    reg.cancel(id);
    // A concurrent read then returns promptly with the cancellation
    // indication, not the remaining body.
    assert_eq!(reg.read_chunk(id, 1024, 1).unwrap_err(), HttpError::UnknownRequestId);
}

#[test]
fn delivery_after_departure_is_ignored() {
    let mut reg = Registry::new();
    let id = reg.insert_response(200, Vec::new(), 0);
    reg.cancel(id);
    // The transport may race the cancellation; late events change nothing.
    reg.deliver(id, vec![1, 2, 3]);
    reg.finish(id);
    reg.fail(id);
    assert!(!reg.contains(id));
    assert_eq!(reg.read_chunk(id, 8, 1).unwrap_err(), HttpError::UnknownRequestId);
}

#[test]
fn future_activity_stamp_is_not_idle() {
    let mut reg = Registry::new();
    // A stamp ahead of the sweep's clock (skew) counts as recent activity.
    let id = reg.insert_response(200, Vec::new(), 1_000);
    assert!(reg.evict_idle(10, 5).is_empty());
    assert!(reg.contains(id));
}

#[test]
fn send_without_attach_flag_leaves_jar_alone() {
    let scope = Scope::new(vec![ScopePattern::new(None, None, None, "/".to_string(), true)
        .unwrap()]);
    let mut ctx = Http::new(scope, Some(CookieJar::new()));
    let pending = ctx
        .fetch(
            "GET".to_string(),
            UrlParts {
                scheme: "https".to_string(),
                host: "a.example.com".to_string(),
                port: 443,
                path: "/".to_string(),
            },
            Vec::new(),
            None,
            None,
            None,
            false,
        )
        .unwrap();
    ctx.fetch_send(
        pending,
        TransportOutcome::Headers(200, Vec::new()),
        vec![cookie("a.example.com", "/", "sid", "x")],
        0,
    )
    .unwrap();
    assert_eq!(ctx.jar.as_ref().unwrap().len(), 0);
}
