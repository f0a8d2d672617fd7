use int_vault::workspace::{check_names, follow_step, index_is_stale, is_single, select, FollowStep, SelectError, WorkspaceError};

fn vaults(items: &[(&str, &str)]) -> Vec<(String, String)> {
    items.iter().map(|(n, r)| (n.to_string(), r.to_string())).collect()
}

#[test]
fn single_vault_needs_no_name() {
    let open = vaults(&[("solo", "/tmp/ws/solo")]);
    assert_eq!(select(&open, None), Ok(0));
}

#[test]
fn multiple_vaults_require_a_name() {
    let open = vaults(&[("team", "/tmp/ws/team"), ("personal", "/tmp/ws/personal")]);
    match select(&open, None) {
        Err(SelectError::NameRequired(names)) => {
            assert!(names.contains(&"team".to_string()) && names.contains(&"personal".to_string()));
        }
        other => panic!("expected a name to be required, got {other:?}"),
    }
    assert_eq!(select(&open, Some("TEAM")).map(|i| open[i].0.clone()), Ok("team".to_string()));
    assert!(select(&open, Some("nope")).is_err());
}

#[test]
fn selects_by_root_path_when_no_name_matches() {
    let open = vaults(&[("team", "/tmp/ws/team"), ("personal", "/tmp/ws/personal")]);
    assert_eq!(select(&open, Some(" /tmp/ws//personal/ ")), Ok(1));
    assert_eq!(
        select(&open, Some(" other ")),
        Err(SelectError::UnknownVault("other".to_string(), vec!["team".to_string(), "personal".to_string()]))
    );
}

#[test]
fn rejects_duplicate_vault_names() {
    assert_eq!(check_names(&vec!["dupe".to_string(), "dupe".to_string()]), Err(WorkspaceError::DuplicateNames));
    assert_eq!(check_names(&vec!["Team".to_string(), "team".to_string()]), Err(WorkspaceError::DuplicateNames));
    assert_eq!(check_names(&vec!["team".to_string(), "personal".to_string()]), Ok(()));
    assert_eq!(check_names(&Vec::new()), Err(WorkspaceError::NoVaultConfigured));
}

#[test]
fn follows_whichever_vault_the_app_reports() {
    // The `vault` argument stays optional even before a vault is reported.
    assert!(is_single(true, 0));
    assert!(!is_single(false, 2));
    // Nothing open yet.
    assert_eq!(follow_step(None, None), FollowStep::NoVaultOpen);
    assert_eq!(follow_step(None, Some("/s/First")), FollowStep::Open("/s/First".to_string()));
    assert_eq!(follow_step(Some("/s/First"), Some("/s/First/")), FollowStep::Keep);
    // The app switches vault: the server follows.
    assert_eq!(follow_step(Some("/s/First"), Some("/s/Second")), FollowStep::Open("/s/Second".to_string()));
    // The app closes its vault.
    assert_eq!(follow_step(Some("/s/Second"), None), FollowStep::NoVaultOpen);
}

#[test]
fn index_rebuilds_after_external_change() {
    assert!(index_is_stale(None, 7));
    assert!(!index_is_stale(Some(7), 7));
    assert!(index_is_stale(Some(7), 8));
}
