use itadori::config::{GatewayConfig, RouteConfig};
use itadori::tui::{empty_routes_hint, route_rows};
use itadori::cli::{init_allowed, resolve_config_path, Cli, CliAction, Command};
use itadori::tui::{initial_message, key_command, pid_status_text, reload_message, KeyCommand, ReloadOutcome};

#[test]
fn config_path_defaults_under_home() {
    assert_eq!(resolve_config_path(None, Some("/h")), "/h/.config/itadori.toml");
    assert_eq!(resolve_config_path(Some("x.toml".to_string()), Some("/h")), "x.toml");
}

#[test]
fn plans_each_command() {
    match Cli::new(Command::Serve { config: None }).plan(Some("/h")) {
        CliAction::Serve { config } => assert_eq!(config, "/h/.config/itadori.toml"),
        other => panic!("{:?}", other),
    }
    match Cli::new(Command::Tui { config: Some(String::new()) }).plan(Some("/h")) {
        CliAction::Tui { config } => assert_eq!(config, "/h/.config/itadori.toml"),
        other => panic!("{:?}", other),
    }
    match Cli::new(Command::Init { config: Some("c".to_string()), force: true }).plan(None) {
        CliAction::Init { config, force } => {
            assert_eq!(config, "c");
            assert!(force);
        }
        other => panic!("{:?}", other),
    }
    assert!(matches!(Cli::new(Command::Reload).plan(None), CliAction::Reload));
    assert!(matches!(Cli::new(Command::ExampleConfig).plan(None), CliAction::PrintExampleConfig));
    assert!(init_allowed(false, false));
    assert!(!init_allowed(true, false));
    assert!(init_allowed(true, true));
}

#[test]
fn dashboard_texts() {
    assert_eq!(initial_message(), "press r to reload, q to quit");
    assert_eq!(pid_status_text(Some(12), true), "running (pid 12)");
    assert_eq!(pid_status_text(Some(12), false), "stale pid file (pid 12)");
    assert_eq!(pid_status_text(None, true), "not running");
    assert_eq!(key_command('q'), KeyCommand::Quit);
    assert_eq!(key_command('r'), KeyCommand::Reload);
    assert_eq!(key_command('x'), KeyCommand::Ignore);
    assert_eq!(reload_message(&ReloadOutcome::Sent(9)), "sent reload signal to pid 9");
    assert_eq!(reload_message(&ReloadOutcome::Stale), "pid file is stale");
    assert_eq!(reload_message(&ReloadOutcome::SendFailed("e".to_string())), "reload failed: e");
}

#[test]
fn dashboard_lists_routes_in_order() {
    let mut config = GatewayConfig::default();
    assert!(route_rows(&config).is_empty());
    assert_eq!(empty_routes_hint(), "no routes yet. run itadori init");
    config.routes.push(RouteConfig {
        name: "jira".to_string(),
        prefix: "/jira".to_string(),
        upstream: "https://example.com/".to_string(),
        strip_prefix: true,
        headers: Default::default(),
        timeout_ms: None,
    });
    let rows = route_rows(&config);
    assert_eq!(rows.len(), 1);
    assert_eq!(rows[0].name, "jira");
    assert_eq!(rows[0].prefix, "/jira");
    assert_eq!(rows[0].upstream, "https://example.com/");
}
