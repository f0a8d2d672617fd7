use int_vault::git_sync::{status, step, vault_path, GitCommand, GitProbe, SyncAction, SyncEvent, SyncStage, SyncStatus};

fn probe(counts: Result<&str, &str>) -> GitProbe {
    GitProbe {
        inside_work_tree: true,
        remote: Ok("origin".to_string()),
        branch: Ok("main".to_string()),
        porcelain: Ok(String::new()),
        counts: counts.map(|s| s.to_string()).map_err(|s| s.to_string()),
        operation_in_progress: false,
    }
}

fn clean(ahead: u32, dirty: bool) -> SyncStatus {
    SyncStatus { is_repo: true, has_remote: true, branch: None, dirty, ahead, behind: 0, blocked: None }
}

fn run(events: Vec<SyncEvent>) -> (Vec<GitCommand>, Option<(bool, String, Option<String>)>) {
    let mut stage = SyncStage::Start;
    let mut commands = Vec::new();
    let (next, mut action) = step(stage, SyncEvent::InProgress(false));
    stage = next;
    for event in events {
        if let SyncAction::Run(c) = &action {
            commands.push(*c);
        }
        if let SyncAction::Finish(o) = action {
            return (commands, Some((o.changed, o.message, o.blocked)));
        }
        let (next, a) = step(stage, event);
        stage = next;
        action = a;
    }
    if let SyncAction::Run(c) = &action {
        commands.push(*c);
    }
    match action {
        SyncAction::Finish(o) => (commands, Some((o.changed, o.message, o.blocked))),
        _ => (commands, None),
    }
}

#[test]
fn reads_counts_and_remote() {
    let s = status(&probe(Ok("3\t5")));
    assert!(s.is_repo && s.has_remote);
    assert_eq!((s.behind, s.ahead), (3, 5));
    assert_eq!(s.branch.as_deref(), Some("main"));
    assert!(!s.dirty);
    assert!(s.blocked.is_none());
    let s = status(&probe(Err("no upstream")));
    assert_eq!((s.behind, s.ahead), (0, 0));
    let s = status(&probe(Ok("x +7")));
    assert_eq!((s.behind, s.ahead), (0, 7));
}

#[test]
fn not_a_repository_reports_nothing() {
    let mut p = probe(Ok("1 1"));
    p.inside_work_tree = false;
    let s = status(&p);
    assert!(!s.is_repo && !s.has_remote && s.branch.is_none() && s.blocked.is_none());
    assert_eq!((s.behind, s.ahead), (0, 0));
}

#[test]
fn blocked_reasons() {
    let mut p = probe(Ok("0 0"));
    p.remote = Ok(String::new());
    assert_eq!(status(&p).blocked.as_deref(), Some("This vault has no Git remote to sync with."));
    p.operation_in_progress = true;
    assert_eq!(status(&p).blocked.as_deref(), Some("A rebase or merge is already in progress here."));
}

#[test]
fn a_clean_sync_with_nothing_to_do() {
    let (commands, outcome) = run(vec![
        SyncEvent::Status(clean(0, false)),
        SyncEvent::InProgress(false),
        SyncEvent::Git(Ok("me@example.com".into())),
        SyncEvent::Git(Ok("Already up to date.".into())),
        SyncEvent::Status(clean(0, false)),
    ]);
    assert_eq!(commands, vec![GitCommand::ConfigEmail, GitCommand::Pull]);
    assert_eq!(outcome, Some((false, "Already up to date".to_string(), None)));
}

#[test]
fn dirty_work_is_committed_and_pushed() {
    let (commands, outcome) = run(vec![
        SyncEvent::Status(clean(0, true)),
        SyncEvent::InProgress(false),
        SyncEvent::Git(Ok("me@example.com".into())),
        SyncEvent::Git(Ok(String::new())),
        SyncEvent::Git(Ok("[main abc] Vault sync".into())),
        SyncEvent::Git(Ok("Already up to date.".into())),
        SyncEvent::Status(clean(1, false)),
        SyncEvent::Git(Ok(String::new())),
    ]);
    assert_eq!(
        commands,
        vec![GitCommand::ConfigEmail, GitCommand::AddAll, GitCommand::Commit, GitCommand::Pull, GitCommand::Push]
    );
    assert_eq!(outcome, Some((true, "Synced".to_string(), None)));
}

#[test]
fn a_conflicting_pull_is_aborted_and_blocks() {
    let (commands, outcome) = run(vec![
        SyncEvent::Status(clean(0, false)),
        SyncEvent::InProgress(false),
        SyncEvent::Git(Ok("me@example.com".into())),
        SyncEvent::Git(Err("CONFLICT".into())),
        SyncEvent::InProgress(true),
        SyncEvent::Git(Ok(String::new())),
    ]);
    assert_eq!(commands, vec![GitCommand::ConfigEmail, GitCommand::Pull, GitCommand::AbortRebase]);
    let (changed, message, blocked) = outcome.unwrap();
    assert!(!changed);
    assert!(message.starts_with("The same note was changed in both places."));
    assert_eq!(blocked.as_deref(), Some(message.as_str()));
}

#[test]
fn a_failed_pull_without_a_rebase_reports_the_error() {
    let (_, outcome) = run(vec![
        SyncEvent::Status(clean(0, false)),
        SyncEvent::InProgress(false),
        SyncEvent::Git(Ok("me@example.com".into())),
        SyncEvent::Git(Err("network down".into())),
        SyncEvent::InProgress(false),
    ]);
    assert_eq!(outcome.unwrap().1, "Could not pull: network down");
}

#[test]
fn never_touches_a_repository_mid_operation_or_without_identity() {
    let (commands, outcome) = run(vec![SyncEvent::Status(clean(0, true)), SyncEvent::InProgress(true)]);
    assert!(commands.is_empty());
    assert_eq!(outcome.unwrap().1, "A rebase or merge is in progress. Sync paused until it is finished.");
    let (commands, outcome) = run(vec![
        SyncEvent::Status(clean(0, true)),
        SyncEvent::InProgress(false),
        SyncEvent::Git(Err(String::new())),
    ]);
    assert_eq!(commands, vec![GitCommand::ConfigEmail]);
    assert!(outcome.unwrap().1.starts_with("Git has no user.email set"));
}

#[test]
fn refuses_what_is_not_a_repository() {
    let mut s = clean(0, false);
    s.is_repo = false;
    let (_, outcome) = run(vec![SyncEvent::Status(s)]);
    assert_eq!(outcome.unwrap().1, "This vault is not a Git repository.");
    assert_eq!(vault_path("/v/x"), "/v/x");
}
