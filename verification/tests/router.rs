use std::collections::HashMap;

use hickory_sni_proxy::pattern::CompiledRegex;
use hickory_sni_proxy::router::regex_or_config_error;
use hickory_sni_proxy::{RouteTable, SniProxyError};

fn pairs(map: HashMap<String, String>) -> Vec<(String, String)> {
    map.into_iter().collect()
}

fn table() -> RouteTable {
    let mut routes = HashMap::new();
    routes.insert("api.example.com".into(), "direct".into());
    routes.insert("login.example.com".into(), "direct".into());
    routes.insert("*.bkash.com".into(), "bd-relay".into());
    routes.insert("*.nagad.com".into(), "bd-relay".into());
    routes.insert("*.google.com".into(), "direct".into());
    routes.insert(
        r"regex:^staging\.[a-z0-9-]+\.example\.com$".into(),
        "staging".into(),
    );

    let mut backends = HashMap::new();
    backends.insert("bd-relay".into(), "10.10.0.1:443".into());
    backends.insert("direct".into(), "8.8.8.8:443".into());
    backends.insert("staging".into(), "10.0.0.50:443".into());

    RouteTable::from_config(&pairs(routes), &pairs(backends), None).unwrap()
}

#[test]
fn exact_match_api_and_login() {
    let t = table();
    assert_eq!(t.resolve("api.example.com").unwrap(), "8.8.8.8:443");
    assert_eq!(t.resolve("login.example.com").unwrap(), "8.8.8.8:443");
}

#[test]
fn wildcard_bkash_and_google() {
    let t = table();
    assert_eq!(t.resolve("pay.bkash.com").unwrap(), "10.10.0.1:443");
    assert_eq!(t.resolve("api.bkash.com").unwrap(), "10.10.0.1:443");
    assert_eq!(t.resolve("www.google.com").unwrap(), "8.8.8.8:443");
    assert_eq!(t.resolve("dns.google.com").unwrap(), "8.8.8.8:443");
}

#[test]
fn exact_beats_wildcard() {
    let t = table();
    assert_eq!(t.resolve("api.example.com").unwrap(), "8.8.8.8:443");
}

#[test]
fn regex_route() {
    let t = table();
    assert_eq!(
        t.resolve("staging.app.example.com").unwrap(),
        "10.0.0.50:443"
    );
}

#[test]
fn no_route_errors() {
    let t = table();
    assert!(matches!(
        t.resolve("unknown.test"),
        Err(SniProxyError::NoRoute { .. })
    ));
}

fn s(v: &str) -> String {
    v.to_string()
}

fn build(
    routes: &[(&str, &str)],
    backends: &[(&str, &str)],
    default_backend: Option<&str>,
) -> Result<RouteTable, SniProxyError> {
    let routes: Vec<(String, String)> = routes.iter().map(|(a, b)| (s(a), s(b))).collect();
    let backends: Vec<(String, String)> = backends.iter().map(|(a, b)| (s(a), s(b))).collect();
    RouteTable::from_config(&routes, &backends, default_backend.map(s))
}

fn config_error(res: Result<RouteTable, SniProxyError>) -> String {
    match res {
        Err(SniProxyError::Config(msg)) => msg,
        Err(other) => panic!("expected a configuration error, got {:?}", other),
        Ok(_) => panic!("expected a configuration error"),
    }
}

#[test]
fn resolve_ignores_case() {
    let t = table();
    assert_eq!(t.resolve("API.Example.COM").unwrap(), "8.8.8.8:443");
    assert_eq!(t.resolve("Pay.BKASH.com").unwrap(), "10.10.0.1:443");
    assert_eq!(t.resolve("STAGING.app.example.com").unwrap(), "10.0.0.50:443");
}

#[test]
fn upper_case_host_resolves_alike() {
    let t = table();
    for host in ["api.example.com", "pay.bkash.com", "staging.app.example.com"] {
        assert_eq!(
            t.resolve(&host.to_ascii_uppercase()).unwrap(),
            t.resolve(host).unwrap()
        );
    }
    assert!(matches!(
        t.resolve("UNKNOWN.TEST"),
        Err(SniProxyError::NoRoute { .. })
    ));
}

#[test]
fn error_messages_read_as_displayed() {
    let t = table();
    let err = t.resolve("Nowhere.Test").unwrap_err();
    assert_eq!(err.message(), "no route matched SNI \"nowhere.test\"");
    assert_eq!(
        SniProxyError::Config("bad".to_string()).message(),
        "failed to parse configuration: bad"
    );
    assert_eq!(
        SniProxyError::ClientHello("short".to_string()).message(),
        "TLS ClientHello parse error: short"
    );
    assert_eq!(SniProxyError::NoSni.message(), "no SNI hostname in ClientHello");
    assert_eq!(
        SniProxyError::UnknownBackend { backend: "b".to_string() }.message(),
        "unknown backend \"b\""
    );
    assert_eq!(
        SniProxyError::InvalidBackend {
            address: "x".to_string(),
            reason: "invalid socket address syntax".to_string()
        }
        .message(),
        "invalid backend address \"x\": invalid socket address syntax"
    );
    assert_eq!(SniProxyError::Io("gone".to_string()).message(), "I/O error: gone");
}

#[test]
fn exact_routes_are_matched_in_lower_case() {
    let t = build(&[("Shop.Example.COM", "a")], &[("a", "1.1.1.1:443")], None).unwrap();
    assert_eq!(t.resolve("shop.example.com").unwrap(), "1.1.1.1:443");
}

#[test]
fn wildcard_matches_its_bare_suffix() {
    let t = table();
    assert_eq!(t.resolve("bkash.com").unwrap(), "10.10.0.1:443");
    assert!(matches!(t.resolve("xbkash.com"), Err(SniProxyError::NoRoute { .. })));
}

#[test]
fn longest_wildcard_suffix_wins() {
    let backends = [("outer", "1.0.0.1:443"), ("inner", "1.0.0.2:443")];
    let t = build(&[("*.example.com", "outer"), ("*.eu.example.com", "inner")], &backends, None)
        .unwrap();
    assert_eq!(t.resolve("a.eu.example.com").unwrap(), "1.0.0.2:443");
    assert_eq!(t.resolve("a.us.example.com").unwrap(), "1.0.0.1:443");
    let t = build(&[("*.eu.example.com", "inner"), ("*.example.com", "outer")], &backends, None)
        .unwrap();
    assert_eq!(t.resolve("a.eu.example.com").unwrap(), "1.0.0.2:443");
}

#[test]
fn equal_wildcard_suffixes_first_wins() {
    let backends = [("one", "1.0.0.1:443"), ("two", "1.0.0.2:443")];
    let t = build(&[("*.Example.com", "one"), ("*.example.COM", "two")], &backends, None).unwrap();
    assert_eq!(t.resolve("x.example.com").unwrap(), "1.0.0.1:443");
}

#[test]
fn wildcard_beats_regex_and_first_regex_wins() {
    let backends = [("w", "1.0.0.1:443"), ("r1", "1.0.0.2:443"), ("r2", "1.0.0.3:443")];
    let t = build(
        &[("regex:example", "r1"), ("regex:.*", "r2"), ("*.example.com", "w")],
        &backends,
        None,
    )
    .unwrap();
    assert_eq!(t.resolve("a.example.com").unwrap(), "1.0.0.1:443");
    assert_eq!(t.resolve("example.org").unwrap(), "1.0.0.2:443");
    assert_eq!(t.resolve("other.net").unwrap(), "1.0.0.3:443");
}

#[test]
fn default_backend_catches_the_rest() {
    let t = build(
        &[("a.test", "one")],
        &[("one", "1.0.0.1:443"), ("fallback", "9.9.9.9:443")],
        Some("fallback"),
    )
    .unwrap();
    assert_eq!(t.resolve("a.test").unwrap(), "1.0.0.1:443");
    assert_eq!(t.resolve("b.test").unwrap(), "9.9.9.9:443");
}

#[test]
fn no_route_names_the_host_in_lower_case() {
    let t = table();
    match t.resolve("Unknown.TEST") {
        Err(SniProxyError::NoRoute { sni }) => assert_eq!(sni, "unknown.test"),
        other => panic!("unexpected {:?}", other),
    }
}

#[test]
fn unknown_route_backend_is_rejected() {
    let msg = config_error(build(&[("a.test", "missing")], &[("one", "1.0.0.1:443")], None));
    assert_eq!(msg, "route \"a.test\" references unknown backend \"missing\"");
}

#[test]
fn empty_wildcard_is_rejected() {
    let msg = config_error(build(&[("*.", "one")], &[("one", "1.0.0.1:443")], None));
    assert_eq!(msg, "invalid wildcard route \"*.\"");
}

#[test]
fn invalid_regex_is_rejected() {
    let msg = config_error(build(&[("regex:foo(bar", "one")], &[("one", "1.0.0.1:443")], None));
    assert!(msg.starts_with("invalid regex \"foo(bar\": "), "{msg}");
    assert!(msg.contains("unclosed group"), "{msg}");
}

#[test]
fn undefined_default_backend_is_rejected() {
    let msg = config_error(build(&[], &[("one", "1.0.0.1:443")], Some("nope")));
    assert_eq!(msg, "default_backend \"nope\" is not defined in [backends]");
}

#[test]
fn first_bad_route_decides_the_error() {
    let msg = config_error(build(
        &[("ok.test", "one"), ("*.", "one"), ("b.test", "missing")],
        &[("one", "1.0.0.1:443")],
        Some("nope"),
    ));
    assert_eq!(msg, "invalid wildcard route \"*.\"");
}

#[test]
fn debug_quoting_escapes_in_messages() {
    let msg = config_error(build(&[("a\"b", "mis\\sing")], &[], None));
    assert_eq!(msg, "route \"a\\\"b\" references unknown backend \"mis\\\\sing\"");
}

#[test]
fn regex_compile_error_is_quoted() {
    match regex_or_config_error("a(", Err("boom".to_string())) {
        Err(SniProxyError::Config(m)) => assert_eq!(m, "invalid regex \"a(\": boom"),
        _ => panic!("expected a configuration error"),
    }
    let compiled = CompiledRegex::compile("^a+$");
    assert!(regex_or_config_error("^a+$", compiled).is_ok());
    assert!(CompiledRegex::compile("a(").is_err());
}
