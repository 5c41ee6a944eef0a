use itadori::self_update::{
    install_report, InstallReport,
    archived_binary_name, authorization_value, default_asset_name, find_asset,
    join_asset_names, latest_release_url, missing_asset_message, normalize_version,
    resolve_repo, should_install, swap_next, trim_end_pattern, update_dir_name, validate_repo,
    ReleaseAsset, SwapFailure, SwapState, SwapStep, UpdateError,
};

#[test]
fn validates_repo_format() {
    assert!(validate_repo("owner/repo").is_ok());
    assert!(validate_repo("owner").is_err());
    assert!(validate_repo("owner/repo/extra").is_err());
    assert!(validate_repo("/repo").is_err());
    assert!(validate_repo("owner/").is_err());
}

#[test]
fn normalizes_release_versions() {
    assert_eq!(normalize_version("v1.2.3"), "1.2.3");
    assert_eq!(normalize_version("  v1.2.3  "), "1.2.3");
    assert_eq!(normalize_version("1.2.3"), "1.2.3");
}

#[test]
fn default_asset_name_matches_release_workflow() {
    assert_eq!(
        default_asset_name("linux", "x86_64"),
        format!("itadori-{}-{}.tar.gz", "linux", "x86_64")
    );
}

#[test]
fn repo_errors_name_the_repository() {
    let err = validate_repo("a/b/c").unwrap_err();
    assert_eq!(err.message(), "repository must use owner/repo format: a/b/c");
    assert!(validate_repo("/").is_err());
    assert!(validate_repo("").is_err());
    assert!(validate_repo("a//b").is_err());
    assert!(validate_repo("a/b").is_ok());
}

#[test]
fn resolves_repo_from_argument_then_build() {
    assert_eq!(resolve_repo(Some("me/tool".to_string()), Some("x/y")).unwrap(), "me/tool");
    assert_eq!(resolve_repo(None, Some("x/y")).unwrap(), "x/y");
    assert!(matches!(
        resolve_repo(Some("bad".to_string()), Some("x/y")),
        Err(UpdateError::InvalidRepo(r)) if r == "bad"
    ));
    let err = resolve_repo(None, None).unwrap_err();
    assert!(matches!(err, UpdateError::MissingRepo));
    assert!(err.message().starts_with("missing update repository"));
}

#[test]
fn installs_only_new_versions_unless_forced() {
    assert!(!should_install("v1.2.3", "1.2.3", false));
    assert!(should_install("v1.2.3", "1.2.3", true));
    assert!(should_install("v1.3.0", "1.2.3", false));
    assert!(!should_install(" vv0.1.0 ", "0.1.0", false));
}

#[test]
fn finds_assets_and_reports_missing_ones() {
    let assets = vec![
        ReleaseAsset { name: "a.tar.gz".to_string(), url: "u1".to_string() },
        ReleaseAsset { name: "b".to_string(), url: "u2".to_string() },
        ReleaseAsset { name: "b".to_string(), url: "u3".to_string() },
    ];
    assert_eq!(find_asset(&assets, "b"), Some(1));
    assert_eq!(find_asset(&assets, "c"), None);
    assert_eq!(join_asset_names(&assets), "a.tar.gz, b, b");
    assert_eq!(join_asset_names(&vec![]), "");
    assert_eq!(
        missing_asset_message("v2", "c", &assets),
        "release v2 does not contain asset c; available assets: a.tar.gz, b, b"
    );
}

#[test]
fn archives_name_their_executable() {
    assert_eq!(archived_binary_name("itadori-linux-x86_64.tar.gz"), Some("itadori-linux-x86_64"));
    assert_eq!(archived_binary_name("x.tar.gz.tar.gz"), Some("x"));
    assert_eq!(archived_binary_name("itadori"), None);
    assert_eq!(trim_end_pattern("abab", "ab"), "");
    assert_eq!(trim_end_pattern("abc", ""), "abc");
}

#[test]
fn bearer_token_only_when_not_blank() {
    assert_eq!(authorization_value(Some("  tok ")), Some("Bearer tok".to_string()));
    assert_eq!(authorization_value(Some("   ")), None);
    assert_eq!(authorization_value(None), None);
}

#[test]
fn builds_release_addresses() {
    assert_eq!(
        latest_release_url("me/tool"),
        "https://api.github.com/repos/me/tool/releases/latest"
    );
    assert_eq!(update_dir_name(42), ".itadori-update-42");
}

#[test]
fn swap_rolls_back_when_install_fails() {
    let mut state = SwapState::Next(SwapStep::RemoveStaleReplacement);
    let outcomes = [true, true, true, true, true, false, true];
    for ok in outcomes {
        if let SwapState::Next(step) = state {
            state = swap_next(step, ok);
        }
    }
    assert_eq!(state, SwapState::Failed(SwapFailure::Install));
    assert_eq!(swap_next(SwapStep::RollBack, false), SwapState::Failed(SwapFailure::InstallAndRollBack));
    assert_eq!(swap_next(SwapStep::DiscardBackup, false), SwapState::Done);
    assert_eq!(
        swap_next(SwapStep::InstallReplacement, true),
        SwapState::Next(SwapStep::DiscardBackup)
    );
}

#[test]
fn swap_stops_at_the_first_failed_step() {
    assert_eq!(
        swap_next(SwapStep::RemoveStaleReplacement, false),
        SwapState::Failed(SwapFailure::RemoveStaleReplacement)
    );
    assert_eq!(
        swap_next(SwapStep::RemoveStaleBackup, false),
        SwapState::Failed(SwapFailure::RemoveStaleBackup)
    );
    assert_eq!(
        swap_next(SwapStep::StageReplacement, false),
        SwapState::Failed(SwapFailure::StageReplacement)
    );
    assert_eq!(
        swap_next(SwapStep::MarkExecutable, false),
        SwapState::Failed(SwapFailure::MarkExecutable)
    );
    assert_eq!(
        swap_next(SwapStep::MoveCurrentAside, false),
        SwapState::Failed(SwapFailure::MoveCurrentAside)
    );
    assert_eq!(
        swap_next(SwapStep::InstallReplacement, false),
        SwapState::Next(SwapStep::RollBack)
    );
    let mut state = SwapState::Next(SwapStep::RemoveStaleReplacement);
    let mut steps = 0;
    while let SwapState::Next(step) = state {
        state = swap_next(step, true);
        steps += 1;
    }
    assert_eq!(state, SwapState::Done);
    assert_eq!(steps, 7);
}

#[test]
fn install_reports_cleanup_only_on_failure() {
    assert_eq!(install_report(true, false), InstallReport::Installed);
    assert_eq!(install_report(true, true), InstallReport::Installed);
    assert_eq!(install_report(false, true), InstallReport::Failed);
    assert_eq!(install_report(false, false), InstallReport::FailedAndLeftScratch);
}
