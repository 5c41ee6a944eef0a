use itadori::config::{BindAddr, GatewayConfig, RouteConfig, ServerConfig};
use itadori::proxy::{apply_reload, ReloadError};
use itadori::route_headers::RouteHeaders;

fn config(bind: BindAddr, team: &str) -> GatewayConfig {
    let mut headers = RouteHeaders::new();
    headers.insert("x-team".to_string(), team.to_string());
    GatewayConfig {
        server: ServerConfig {
            bind,
            max_body_bytes: 10485760,
            request_timeout_ms: 30000,
        },
        routes: vec![RouteConfig {
            name: "jira".to_string(),
            prefix: "/jira".to_string(),
            upstream: "https://jira.internal.example.com/".to_string(),
            strip_prefix: true,
            headers,
            timeout_ms: None,
        }],
    }
}

fn local(port: u16) -> BindAddr {
    BindAddr::V4 { ip: 0x7f00_0001, port }
}

#[test]
fn reload_refuses_bind_changes() {
    let mut state = config(local(8787), "platform");
    let error = apply_reload(&mut state, config(local(8788), "platform")).unwrap_err();

    assert_eq!(
        error,
        ReloadError::BindChanged { from: local(8787), to: local(8788) }
    );
    assert_eq!(state.server.bind, local(8787));
}

#[test]
fn reload_accepts_content_changes_without_bind_changes() {
    let mut state = config(local(8787), "platform");
    apply_reload(&mut state, config(local(8787), "infra")).unwrap();

    assert_eq!(state.routes[0].headers.get("x-team").unwrap(), "infra");
}
