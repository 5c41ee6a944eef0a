use itadori::config::{GatewayConfig, RouteConfig, UrlError};
use itadori::proxy::{
    forwarded_headers, plan_forward, route_timeout_ms, send_failure, should_forward_header,
    upstream_after_body, upstream_request_headers, ProxyFailure, SendOutcome,
};
use itadori::route_headers::RouteHeaders;

#[test]
fn hop_by_hop_headers_stay_behind() {
    for h in ["host", "connection", "proxy-authenticate", "proxy-authorization", "te", "trailer", "transfer-encoding", "upgrade"] {
        assert!(!should_forward_header(h));
    }
    for h in ["accept", "authorization", "content-type", "x-team"] {
        assert!(should_forward_header(h));
    }
}

#[test]
fn request_headers_keep_order_and_add_route_headers() {
    let mut headers = RouteHeaders::new();
    headers.insert("x-team".to_string(), "platform".to_string());
    let route = RouteConfig {
        name: "jira".to_string(),
        prefix: "/jira".to_string(),
        upstream: "https://example.com/".to_string(),
        strip_prefix: true,
        headers,
        timeout_ms: Some(5),
    };
    let incoming = vec![
        ("host".to_string(), b"a".to_vec()),
        ("accept".to_string(), b"*/*".to_vec()),
        ("upgrade".to_string(), b"h2c".to_vec()),
        ("accept".to_string(), b"text/html".to_vec()),
    ];
    let out = upstream_request_headers(&incoming, &route);
    assert_eq!(
        out,
        vec![
            ("accept".to_string(), b"*/*".to_vec()),
            ("accept".to_string(), b"text/html".to_vec()),
            ("x-team".to_string(), b"platform".to_vec()),
        ]
    );
    assert_eq!(forwarded_headers(&incoming).len(), 2);
    assert_eq!(route_timeout_ms(&route, 30_000), 5);
}

#[test]
fn failures_map_to_status_and_text() {
    assert_eq!(ProxyFailure::NoRoute.status(), 404);
    assert_eq!(ProxyFailure::NoRoute.message(), "no route matches this path");
    assert_eq!(ProxyFailure::BodyTooLarge.status(), 413);
    assert_eq!(ProxyFailure::UpstreamTimeout.status(), 504);
    assert_eq!(ProxyFailure::UpstreamTimeout.message(), "upstream request timed out");
    assert_eq!(ProxyFailure::InvalidUpstream.status(), 502);
    assert_eq!(ProxyFailure::UpstreamFailed.message(), "upstream request failed");
}

#[test]
fn plans_forwarding_for_a_request() {
    let mut headers = RouteHeaders::new();
    headers.insert("x-team".to_string(), "platform".to_string());
    let config = GatewayConfig {
        server: Default::default(),
        routes: vec![RouteConfig {
            name: "jira".to_string(),
            prefix: "/jira".to_string(),
            upstream: "https://example.com/api".to_string(),
            strip_prefix: true,
            headers,
            timeout_ms: None,
        }],
    };
    let incoming = vec![("host".to_string(), b"localhost".to_vec())];
    let plan = plan_forward(&config, "/jira/issues", Some("a=1"), &incoming).unwrap();
    assert_eq!(plan.route_index, 0);
    assert_eq!(plan.max_body_bytes, 10 * 1024 * 1024);
    assert_eq!(plan.upstream, Ok("https://example.com/api/issues?a=1".to_string()));
    assert_eq!(plan.headers, vec![("x-team".to_string(), b"platform".to_vec())]);
    assert_eq!(plan.timeout_ms, 30_000);
    assert_eq!(
        plan_forward(&config, "/slack", None, &incoming).unwrap_err(),
        ProxyFailure::NoRoute
    );
    assert_eq!(upstream_after_body(&plan.upstream, false), Err(ProxyFailure::BodyTooLarge));
    let bad: Result<String, UrlError> = Err(UrlError::Invalid);
    assert_eq!(upstream_after_body(&bad, true), Err(ProxyFailure::InvalidUpstream));
    assert_eq!(upstream_after_body(&bad, false), Err(ProxyFailure::BodyTooLarge));
    assert_eq!(send_failure(SendOutcome::Replied), None);
    assert_eq!(send_failure(SendOutcome::Failed), Some(ProxyFailure::UpstreamFailed));
    assert_eq!(send_failure(SendOutcome::TimedOut), Some(ProxyFailure::UpstreamTimeout));
}
