use int_vault::graph::{change_report, collect_changes, CHANGE_REPORT_LIMIT};
use int_vault::vault::Vault;

fn changes(paths: &[&str]) -> Vec<String> {
    let vault = Vault::with_root("/vault".to_string());
    let mut out: Vec<String> = Vec::new();
    let paths: Vec<String> = paths.iter().map(|p| p.to_string()).collect();
    collect_changes(&vault, &paths, &mut out);
    out.sort();
    out
}

#[test]
fn reports_notes_relative_to_the_vault() {
    assert_eq!(changes(&["/vault/Notes/Alpha.md"]), vec!["Notes/Alpha.md"]);
}

#[test]
fn ignores_non_note_files() {
    assert!(changes(&["/vault/image.png", "/vault/data.json"]).is_empty());
}

#[test]
fn ignores_dotfiles_and_dot_directories() {
    // Obsidian config, git internals and editor swap files all churn
    // constantly and would otherwise trigger a refresh loop.
    assert!(changes(&["/vault/.obsidian/workspace.md", "/vault/.git/COMMIT_EDITMSG", "/vault/.tmp.md"]).is_empty());
}

#[test]
fn ignores_paths_outside_the_vault() {
    assert!(changes(&["/elsewhere/Alpha.md"]).is_empty());
}

#[test]
fn accepts_every_note_extension() {
    let found = changes(&["/vault/a.md", "/vault/b.markdown", "/vault/c.MDX"]);
    assert_eq!(found, vec!["a.md", "b.markdown", "c.MDX"]);
}

#[test]
fn deduplicates_a_burst_touching_one_file() {
    let vault = Vault::with_root("/vault".to_string());
    let mut out: Vec<String> = Vec::new();
    collect_changes(&vault, &vec!["/vault/A.md".to_string()], &mut out);
    collect_changes(&vault, &vec!["/vault/A.md".to_string()], &mut out);
    assert_eq!(out.len(), 1);
}

#[test]
fn the_root_itself_is_no_change() {
    assert!(changes(&["/vault", "/vault/"]).is_empty());
}

#[test]
fn change_reports_are_sorted_and_capped() {
    let (paths, truncated) = change_report(vec!["b.md".to_string(), "a.md".to_string()]);
    assert_eq!(paths, vec!["a.md".to_string(), "b.md".to_string()]);
    assert!(!truncated);
    let many: Vec<String> = (0..250).map(|i| format!("n{i:03}.md")).collect();
    let (paths, truncated) = change_report(many);
    assert_eq!(paths.len(), CHANGE_REPORT_LIMIT);
    assert_eq!(paths[0], "n000.md");
    assert_eq!(paths[199], "n199.md");
    assert!(truncated);
}
