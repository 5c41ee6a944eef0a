use itadori::config::{
    config_dir, default_bind, default_config_path, default_max_body_bytes, default_pid_path,
    default_request_timeout_ms, default_true, home_dir, join_relative_path, merge_upstream_path,
    normalized_prefix, prefix_matches, sort_routes_by_prefix_len, url_edit_fits, BindAddr, ConfigError,
    GatewayConfig, RouteConfig, ServerConfig, UrlError,
};
use itadori::route_headers::RouteHeaders;

fn route(name: &str, prefix: &str, upstream: &str) -> RouteConfig {
    RouteConfig {
        name: name.to_string(),
        prefix: prefix.to_string(),
        upstream: upstream.to_string(),
        strip_prefix: true,
        headers: Default::default(),
        timeout_ms: None,
    }
}

#[test]
fn longest_matching_route_wins() {
    let config = GatewayConfig {
        server: Default::default(),
        routes: vec![
            route("root", "/", "https://example.com/"),
            route("jira", "/jira", "https://example.com/jira"),
            route("jira-api", "/jira/api", "https://example.com/api"),
        ],
    };

    assert_eq!(
        config.route_for_path("/jira/api/issues").unwrap().name,
        "jira-api"
    );
    assert_eq!(config.route_for_path("/jira/boards").unwrap().name, "jira");
}

#[test]
fn builds_upstream_url_with_prefix_stripping() {
    let route = route("jira", "/jira", "https://example.com/api");
    let url = route
        .upstream_url("/jira/issues/123", Some("expand=all"))
        .unwrap();

    assert_eq!(url.as_str(), "https://example.com/api/issues/123?expand=all");
}

#[test]
fn validates_duplicate_prefixes() {
    let mut config = GatewayConfig {
        server: Default::default(),
        routes: vec![
            route("one", "/a", "https://example.com/a"),
            route("two", "/a/", "https://example.com/b"),
        ],
    };

    assert!(config.validate().is_err());
}

#[test]
fn keeps_prefix_when_strip_prefix_is_disabled() {
    let mut route = route("docs", "/docs", "https://example.com/api");
    route.strip_prefix = false;

    let url = route
        .upstream_url("/docs/guide/getting-started", None)
        .unwrap();

    assert_eq!(url.as_str(), "https://example.com/api/docs/guide/getting-started");
}

#[test]
fn root_route_serves_unmatched_paths() {
    let config = GatewayConfig {
        server: Default::default(),
        routes: vec![
            route("root", "/", "https://example.com/"),
            route("jira", "/jira", "https://example.com/jira"),
        ],
    };
    assert_eq!(config.route_for_path("/slack").unwrap().name, "root");
    assert_eq!(config.route_index_for_path("/jira"), Some(1));
}

#[test]
fn no_route_for_unknown_path() {
    let config = GatewayConfig {
        server: Default::default(),
        routes: vec![route("jira", "/jira", "https://example.com/jira")],
    };
    assert!(config.route_for_path("/jirafoo").is_none());
    assert!(config.route_for_path("/").is_none());
    assert!(config.route_for_path("/jira").is_some());
}

#[test]
fn equally_long_prefixes_pick_the_last_route() {
    let config = GatewayConfig {
        server: Default::default(),
        routes: vec![
            route("short", "/a//", "https://example.com/a"),
            route("long", "/a/b", "https://example.com/b"),
        ],
    };
    assert_eq!(config.route_for_path("/a/b/c").unwrap().name, "long");
}

#[test]
fn validate_reports_route_faults_in_order() {
    let mut config = GatewayConfig {
        server: Default::default(),
        routes: vec![route("  ", "/x", "https://example.com/")],
    };
    let err = config.validate().unwrap_err();
    assert!(matches!(err, ConfigError::EmptyName));
    assert_eq!(err.message(), "route name cannot be empty");

    let mut config = GatewayConfig {
        server: Default::default(),
        routes: vec![route("x", " \t", "https://example.com/")],
    };
    assert_eq!(config.validate().unwrap_err().message(), "route prefix cannot be empty");

    let mut config = GatewayConfig {
        server: Default::default(),
        routes: vec![route("x", "jira", "https://example.com/")],
    };
    assert_eq!(
        config.validate().unwrap_err().message(),
        "route prefix must start with '/': jira"
    );

    let mut config = GatewayConfig {
        server: Default::default(),
        routes: vec![route("x", "///", "https://example.com/")],
    };
    assert_eq!(
        config.validate().unwrap_err().message(),
        "route prefix must contain a path segment: ///"
    );

    let mut config = GatewayConfig {
        server: Default::default(),
        routes: vec![
            route("x", "/a", "https://example.com/"),
            route("x", "/b", "https://example.com/"),
        ],
    };
    assert_eq!(config.validate().unwrap_err().message(), "duplicate route name: x");

    let mut config = GatewayConfig {
        server: Default::default(),
        routes: vec![
            route("one", "/a", "https://example.com/a"),
            route("two", "/a/", "https://example.com/b"),
        ],
    };
    let err = config.validate().unwrap_err();
    assert_eq!(err.message(), "duplicate route prefix: /a");
    assert_eq!(config.routes[0].name, "one");
    assert_eq!(config.routes[1].name, "two");
}

#[test]
fn validate_sorts_routes_by_prefix_length() {
    let mut config = GatewayConfig {
        server: Default::default(),
        routes: vec![
            route("root", "/", "https://example.com/"),
            route("b", "/bb", "https://example.com/"),
            route("jira-api", "/jira/api", "https://example.com/api"),
            route("c", "/cc", "https://example.com/"),
            route("jira", "/jira", "https://example.com/jira"),
        ],
    };
    config.validate().unwrap();
    let names: Vec<&str> = config.routes.iter().map(|r| r.name.as_str()).collect();
    assert_eq!(names, vec!["jira-api", "jira", "b", "c", "root"]);
}

#[test]
fn sort_keeps_order_of_equal_lengths() {
    let sorted = sort_routes_by_prefix_len(vec![
        route("a", "/x", "u"),
        route("b", "/yyy", "u"),
        route("c", "/z", "u"),
        route("d", "/www", "u"),
    ]);
    let names: Vec<&str> = sorted.iter().map(|r| r.name.as_str()).collect();
    assert_eq!(names, vec!["b", "d", "a", "c"]);
}

#[test]
fn normalizes_and_matches_prefixes() {
    assert_eq!(normalized_prefix("/"), "/");
    assert_eq!(normalized_prefix("/jira/"), "/jira");
    assert_eq!(normalized_prefix("/jira///"), "/jira");
    assert_eq!(normalized_prefix("//"), "");
    assert!(prefix_matches("/", "/anything"));
    assert!(prefix_matches("/jira", "/jira"));
    assert!(prefix_matches("/jira", "/jira/x"));
    assert!(prefix_matches("/jira/", "/jira/x"));
    assert!(!prefix_matches("/jira", "/jirax"));
    assert!(!prefix_matches("/jira", "/"));
}

#[test]
fn upstream_url_edge_cases() {
    let r = route("root", "/", "https://example.com/");
    assert_eq!(r.upstream_url("/", None).unwrap(), "https://example.com/");
    assert_eq!(r.upstream_url("/a/b", Some("x=1")).unwrap(), "https://example.com/a/b?x=1");
    let r = route("jira", "/jira/", "https://example.com/api/");
    assert_eq!(r.upstream_url("/jira", None).unwrap(), "https://example.com/api");
    assert_eq!(r.upstream_url("/jira//x", None).unwrap(), "https://example.com/api/x");
    let bad = route("bad", "/bad", "not a url");
    assert_eq!(bad.upstream_url("/bad", None), Err(UrlError::Invalid));
    assert_eq!(r.request_suffix("/jira/issues"), "issues");
}

#[test]
fn merges_upstream_paths() {
    assert_eq!(merge_upstream_path("/", ""), "/");
    assert_eq!(merge_upstream_path("/", "a"), "/a");
    assert_eq!(merge_upstream_path("/api/", ""), "/api");
    assert_eq!(merge_upstream_path("/api", "a/b"), "/api/a/b");
    assert_eq!(merge_upstream_path("", "x"), "/x");
}

#[test]
fn normalizes_upstream_text() {
    assert_eq!(
        itadori::config::normalize_upstream("https://jira.internal.example.com").unwrap(),
        "https://jira.internal.example.com/"
    );
    assert_eq!(itadori::config::normalize_upstream("::"), Err(UrlError::Invalid));
}

#[test]
fn defaults_match_the_server_section() {
    let s = ServerConfig::default();
    assert_eq!(s.bind, BindAddr::V4 { ip: 0x7f00_0001, port: 8787 });
    assert_eq!(default_bind(), s.bind);
    assert_eq!(s.max_body_bytes, 10 * 1024 * 1024);
    assert_eq!(default_max_body_bytes(), 10_485_760);
    assert_eq!(s.request_timeout_ms, 30_000);
    assert_eq!(default_request_timeout_ms(), 30_000);
    assert!(default_true());
    let g = GatewayConfig::default();
    assert!(g.routes.is_empty());
    assert_eq!(g.server, s);
}

#[test]
fn config_paths_follow_home() {
    assert_eq!(home_dir(Some("/home/me")), "/home/me");
    assert_eq!(home_dir(None), ".");
    assert_eq!(config_dir(Some("/home/me")), "/home/me/.config");
    assert_eq!(config_dir(Some("/home/me/")), "/home/me/.config");
    assert_eq!(config_dir(None), "./.config");
    assert_eq!(config_dir(Some("")), ".config");
    assert_eq!(default_config_path(Some("/home/me")), "/home/me/.config/itadori.toml");
    assert_eq!(default_pid_path(Some("/home/me")), "/home/me/.config/itadori.pid");
    assert_eq!(join_relative_path("a/", "b"), "a/b");
}

#[test]
fn example_config_names_two_routes() {
    let text = GatewayConfig::example_toml();
    assert!(text.contains("bind = \"127.0.0.1:8787\""));
    assert!(text.contains("prefix = \"/jira\""));
    assert!(text.contains("prefix = \"/slack\""));
}

#[test]
fn route_headers_behave_like_a_map() {
    let mut h = RouteHeaders::new();
    assert_eq!(h.insert("x-team".to_string(), "platform".to_string()), None);
    assert_eq!(h.insert("x-env".to_string(), "dev".to_string()), None);
    assert_eq!(
        h.insert("x-team".to_string(), "infra".to_string()),
        Some("platform".to_string())
    );
    assert_eq!(h.get("x-team").unwrap(), "infra");
    assert_eq!(h.get("x-env").unwrap(), "dev");
    assert!(h.get("x-other").is_none());
    assert_eq!(h.len(), 2);
    let c = h.clone();
    assert_eq!(c.entry(0), (&"x-team".to_string(), &"infra".to_string()));
}

#[test]
fn validated_config_validates_again() {
    let mut config = GatewayConfig {
        server: Default::default(),
        routes: vec![
            route("root", "/", "https://example.com/"),
            route("jira", "/jira/", "https://example.com/jira"),
            route("jira-api", "/jira/api", "https://example.com/api"),
        ],
    };
    config.validate().unwrap();
    let first: Vec<String> = config.routes.iter().map(|r| r.name.clone()).collect();
    config.validate().unwrap();
    let second: Vec<String> = config.routes.iter().map(|r| r.name.clone()).collect();
    assert_eq!(first, second);
    assert_eq!(first, vec!["jira-api", "jira", "root"]);
}

#[test]
fn long_paths_stay_within_the_url_limit() {
    let r = route("big", "/big", "https://example.com/");
    let tail = "a".repeat(1_000_001);
    let path = format!("/big/{}", tail);
    assert_eq!(
        r.upstream_url(&path, Some("q=1")).unwrap(),
        format!("https://example.com/{}?q=1", tail)
    );
}

#[test]
fn url_edit_limit_is_the_u32_serialization_bound() {
    assert!(url_edit_fits(20, 10, 0));
    assert!(url_edit_fits(4_294_967_293, 0, 0));
    assert!(!url_edit_fits(4_294_967_294, 0, 0));
    assert!(url_edit_fits(0, 1_431_655_764, 0));
    assert!(!url_edit_fits(0, 1_431_655_765, 0));
    assert!(!url_edit_fits(0, 0, 1_431_655_765));
    assert!(!url_edit_fits(u128::MAX, 0, 0));
}
