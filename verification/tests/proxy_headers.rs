use axum::http::{HeaderMap, HeaderValue};
use pulse::proxy::headers::{is_hop_by_hop, is_websocket_upgrade, listed_headers, strip_hop_headers};

fn map(pairs: &[(&'static str, &'static str)]) -> HeaderMap {
    let mut m = HeaderMap::new();
    for (k, v) in pairs {
        m.append(*k, HeaderValue::from_static(v));
    }
    m
}

fn names(m: &HeaderMap) -> Vec<String> {
    let mut v: Vec<String> = m.keys().map(|k| k.as_str().to_string()).collect();
    v.sort();
    v
}

#[test]
fn hop_by_hop_names() {
    assert!(is_hop_by_hop("keep-alive"));
    assert!(is_hop_by_hop("Transfer-Encoding"));
    assert!(is_hop_by_hop("TE"));
    assert!(is_hop_by_hop("trailers"));
    assert!(is_hop_by_hop("Proxy-Connection"));
    assert!(is_hop_by_hop("proxy-authenticate"));
    assert!(is_hop_by_hop("proxy-authorization"));
    assert!(!is_hop_by_hop("connection"));
    assert!(!is_hop_by_hop("upgrade"));
    assert!(!is_hop_by_hop("host"));
}

#[test]
fn connection_lists_are_trimmed_and_lowered() {
    assert_eq!(listed_headers(" Keep-Alive ,X-Foo,, upgrade "), vec!["keep-alive", "x-foo", "upgrade"]);
    assert!(listed_headers("").is_empty());
    assert!(listed_headers(" , ").is_empty());
}

#[test]
fn plain_http_strips_connection_and_what_it_lists() {
    let mut m = map(&[
        ("connection", "keep-alive, X-Foo, Upgrade"),
        ("x-foo", "1"),
        ("upgrade", "websocket"),
        ("te", "trailers"),
        ("host", "localhost"),
        ("transfer-encoding", "chunked"),
    ]);
    strip_hop_headers(&mut m, false);
    assert_eq!(names(&m), vec!["host"]);
    assert_eq!(m.get("host").unwrap(), "localhost");
}

#[test]
fn plain_http_keeps_an_upgrade_header_that_connection_does_not_list() {
    let mut m = map(&[("connection", "close"), ("upgrade", "h2c"), ("host", "a")]);
    strip_hop_headers(&mut m, false);
    assert_eq!(names(&m), vec!["host", "upgrade"]);
    let mut m = map(&[("connection", "Upgrade"), ("upgrade", "h2c"), ("host", "a")]);
    strip_hop_headers(&mut m, false);
    assert_eq!(names(&m), vec!["host"]);
}

#[test]
fn upgrades_keep_connection_and_upgrade() {
    let mut m = map(&[
        ("connection", "Upgrade"),
        ("upgrade", "websocket"),
        ("sec-websocket-key", "abc"),
        ("keep-alive", "timeout=5"),
    ]);
    strip_hop_headers(&mut m, true);
    assert_eq!(names(&m), vec!["connection", "sec-websocket-key", "upgrade"]);
}

#[test]
fn websocket_detection() {
    assert!(is_websocket_upgrade(&map(&[("connection", "keep-alive, Upgrade"), ("upgrade", "WebSocket")])));
    assert!(!is_websocket_upgrade(&map(&[("connection", "keep-alive"), ("upgrade", "websocket")])));
    assert!(!is_websocket_upgrade(&map(&[("connection", "upgrade"), ("upgrade", "h2c")])));
    assert!(!is_websocket_upgrade(&map(&[("upgrade", "websocket")])));
    assert!(!is_websocket_upgrade(&HeaderMap::new()));
}
