use int_vault::app_state::{active_vault, default_interval_seconds, state_dir, state_path, sync_due, sync_settings, AppState, VaultSync};

#[test]
fn state_lives_under_the_home_directory() {
    assert_eq!(state_dir(Some("/home/me")).as_deref(), Some("/home/me/.intentio/knowledge"));
    assert_eq!(state_dir(Some("/home/me/")).as_deref(), Some("/home/me/.intentio/knowledge"));
    assert_eq!(state_path(Some("/home/me")).as_deref(), Some("/home/me/.intentio/knowledge/state.json"));
    assert_eq!(state_dir(Some("")), None);
    assert_eq!(state_path(None), None);
}

#[test]
fn round_trips_the_active_vault() {
    let mut state = AppState::default();
    assert!(active_vault(None).is_none());
    assert!(active_vault(Some(&state)).is_none());

    assert!(state.record_active_vault(Some("/v/Notes".to_string()), 1000));
    assert_eq!(state.active_vault.as_deref(), Some("/v/Notes"));
    assert_eq!(state.recent_vaults.len(), 1);
    assert_eq!(state.updated_at, 1000);
    assert_eq!(active_vault(Some(&state)).as_deref(), Some("/v/Notes"));

    // Writing the same value again must not bump the timestamp.
    assert!(!state.record_active_vault(Some("/v/Notes".to_string()), 2000));
    assert_eq!(state.updated_at, 1000);

    // A second vault moves to the front of the history.
    assert!(state.record_active_vault(Some("/v/Team".to_string()), 3000));
    assert_eq!(state.recent_vaults, vec!["/v/Team", "/v/Notes"]);

    // Clearing keeps the history but drops the active vault.
    assert!(state.record_active_vault(None, 4000));
    assert!(state.active_vault.is_none());
    assert_eq!(state.recent_vaults.len(), 2);

    // Reopening an older vault brings it to the front, once.
    assert!(state.record_active_vault(Some("/v/Notes".to_string()), 5000));
    assert_eq!(state.recent_vaults, vec!["/v/Notes", "/v/Team"]);

    // Sync settings live alongside, keyed per vault.
    assert!(!sync_settings(Some(&state), "/v/Notes").enabled, "off until asked for");
    assert_eq!(sync_settings(Some(&state), "/v/Notes").interval_seconds, 180, "three minutes by default");
    let before_recent = state.recent_vaults.clone();
    state.record_sync_settings("/v/Notes", VaultSync { enabled: true, interval_seconds: 900 }, 6000);
    let saved = sync_settings(Some(&state), "/v/Notes");
    assert!(saved.enabled);
    assert_eq!(saved.interval_seconds, 900);
    assert_eq!(state.recent_vaults, before_recent, "history untouched");
    assert_eq!(state.active_vault.as_deref(), Some("/v/Notes"), "active vault untouched");
    assert!(!sync_settings(Some(&state), "/v/Other").enabled, "settings do not leak between vaults");
}

#[test]
fn history_keeps_eight_vaults() {
    let mut state = AppState::default();
    for i in 0..10 {
        state.record_active_vault(Some(format!("/v/{i}")), i);
    }
    assert_eq!(state.recent_vaults.len(), 8);
    assert_eq!(state.recent_vaults[0], "/v/9");
    assert_eq!(state.recent_vaults[7], "/v/2");
}

#[test]
fn defaults() {
    assert_eq!(default_interval_seconds(), 180);
    let d = VaultSync::default();
    assert!(!d.enabled);
    assert_eq!(d.interval_seconds, 180);
    assert_eq!(sync_settings(None, "/x"), d);
}

#[test]
fn a_sync_is_due_once_its_interval_has_passed() {
    let on = VaultSync { enabled: true, interval_seconds: 180 };
    assert!(!sync_due(on, 179));
    assert!(sync_due(on, 180));
    assert!(!sync_due(VaultSync { enabled: false, interval_seconds: 0 }, 1_000));
}
