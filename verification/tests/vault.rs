use int_vault::error::VaultError;
use int_vault::note::Note;
use int_vault::vault::{ensure_trailing_newline, is_note_path, is_skipped, trash_name, trash_step, FileStat, TrashStep, Vault, TRASH_DIR, TRASH_LAST_SUFFIX};

fn vault() -> Vault {
    Vault::with_root("/tmp/vaults/Notes".to_string())
}

#[test]
fn normalizes_and_defaults_extension() {
    let vault = vault();
    assert_eq!(vault.normalize_note("Notes/Alpha").unwrap(), "Notes/Alpha.md");
    assert_eq!(vault.normalize_note("./Notes/../Beta.md").unwrap(), "Beta.md");
    assert_eq!(vault.normalize_note("image.png").unwrap(), "image.png.md");
}

#[test]
fn refuses_to_move_a_folder_into_itself() {
    let vault = vault();
    assert!(vault.check_folder_move("Projects", "Projects/Inner").is_err());
    assert!(vault.check_folder_move("Projects", "Projects").is_err());
    // A folder whose name merely starts the same is a legitimate target.
    assert!(vault.check_folder_move("Projects", "ProjectsArchive").is_ok());
}

#[test]
fn refuses_to_delete_or_move_the_vault_root() {
    let vault = vault();
    assert!(vault.normalize("").is_err());
    assert!(vault.normalize(".").is_err());
    assert!(vault.check_folder_move("", "Elsewhere").is_err());
}

#[test]
fn lists_notes_under_a_folder_at_any_depth() {
    let vault = vault();
    let notes = vec![
        "Elsewhere.md".to_string(),
        "Projects/Alpha.md".to_string(),
        "Projects/Deep/Beta.md".to_string(),
        "ProjectsOld/Gamma.md".to_string(),
    ];
    let mut under = vault.notes_under("Projects", &notes).unwrap();
    under.sort();
    assert_eq!(under, vec!["Projects/Alpha.md", "Projects/Deep/Beta.md"]);
}

#[test]
fn rejects_escaping_paths() {
    let vault = vault();
    assert!(vault.normalize("../outside.md").is_err());
    assert!(vault.normalize("/etc/passwd").is_err());
    assert!(vault.normalize("a/../../b.md").is_err());
}

#[test]
fn accepts_absolute_paths_inside_the_vault() {
    let vault = vault();
    let inside = format!("{}/Notes/Alpha.md", vault.root());
    assert_eq!(vault.normalize(&inside).unwrap(), "Notes/Alpha.md");
}

#[test]
fn appends_with_a_newline_boundary() {
    let vault = vault();
    let (path, content) = vault.append_note("A.md", "line one", "line two\n").unwrap();
    assert_eq!(path, "A.md");
    assert_eq!(content, "line one\nline two\n");
}

#[test]
fn appends_under_the_right_heading() {
    let vault = vault();
    let note = Note::parse("A.md", "# Title\n\n## Tasks\n\n- one\n\n## Notes\n\n- other\n", 0, None);
    let (_, raw) = vault.append_under_heading(&note, "Tasks", "- two").unwrap();
    let tasks = raw.find("- two").unwrap();
    let notes = raw.find("## Notes").unwrap();
    assert!(tasks < notes, "appended line landed outside its section: {raw}");
    assert!(raw.contains("- other"));
}

#[test]
fn append_under_missing_heading_errors() {
    let vault = vault();
    let note = Note::parse("A.md", "# Title\n", 0, None);
    assert!(vault.append_under_heading(&note, "Nope", "x").is_err());
}

#[test]
fn lists_notes_and_skips_dot_directories() {
    let vault = vault();
    assert!(is_skipped(".obsidian", true));
    assert!(is_skipped("node_modules", true));
    assert!(!is_skipped("node_modules", false));
    assert!(is_skipped(".hidden.md", false));
    assert!(!is_skipped("sub", true));
    let walked = vec![
        "/tmp/vaults/Notes/A.md".to_string(),
        "/tmp/vaults/Notes/image.png".to_string(),
        "/tmp/vaults/Notes/sub/B.md".to_string(),
    ];
    assert_eq!(vault.list_notes(&walked), vec!["A.md", "sub/B.md"]);
    assert_eq!(vault.list_attachments(&walked), vec!["image.png"]);
}

#[test]
fn trashing_the_same_filename_twice_does_not_overwrite() {
    assert_eq!(trash_name("One/Note.md", 1), "Note.md");
    assert_eq!(trash_name("Two/Note.md", 2), "Note 2.md");
    assert_eq!(trash_name("Two/README", 3), "README 3");
}

// ---------------------------------------------------------------------------
// further cases
// ---------------------------------------------------------------------------

#[test]
fn errors_name_the_trimmed_input() {
    let vault = vault();
    assert_eq!(vault.normalize("  ../x  "), Err(VaultError::OutsideVault("../x".to_string())));
    assert_eq!(vault.normalize("  "), Err(VaultError::InvalidPath("path is empty".to_string())));
    assert_eq!(vault.normalize("./"), Err(VaultError::InvalidPath("./".to_string())));
    assert_eq!(
        vault.check_folder_move("A", "A/B"),
        Err(VaultError::FolderIntoItself("A".to_string()))
    );
}

#[test]
fn note_extensions_are_case_insensitive() {
    let vault = vault();
    assert_eq!(vault.normalize_note("a.MD").unwrap(), "a.MD");
    assert_eq!(vault.normalize_note("a.markdown").unwrap(), "a.markdown");
    assert!(is_note_path("/x/c.MDX"));
    assert!(!is_note_path("/x/.md"));
    assert!(!is_note_path("/x/notes"));
}

#[test]
fn absolute_joins_below_the_root_and_names_the_vault() {
    let vault = vault();
    assert_eq!(vault.absolute("a/./b.md").unwrap(), "/tmp/vaults/Notes/a/b.md");
    assert_eq!(vault.name(), "Notes");
    assert_eq!(Vault::with_root("/".to_string()).name(), "/");
}

#[test]
fn fingerprint_moves_with_notes_only() {
    let vault = vault();
    let one = vec![FileStat { path: "/tmp/vaults/Notes/a.md".into(), size: 10, modified: Some(5) }];
    let two = vec![
        FileStat { path: "/tmp/vaults/Notes/a.md".into(), size: 10, modified: Some(5) },
        FileStat { path: "/tmp/vaults/Notes/b.png".into(), size: 99, modified: Some(50) },
    ];
    assert_eq!(vault.fingerprint(&one), 0x9E37_79B9u64 + 310 + 5);
    assert_eq!(vault.fingerprint(&one), vault.fingerprint(&two));
    assert_eq!(vault.fingerprint(&Vec::new()), 0);
}

#[test]
fn unavailable_notes_are_listed() {
    let vault = vault();
    let files = vec![
        ("/tmp/vaults/Notes/a.md".to_string(), true),
        ("/tmp/vaults/Notes/b.md".to_string(), false),
        ("/tmp/vaults/Notes/c.png".to_string(), true),
    ];
    assert_eq!(vault.list_unavailable(&files), vec!["a.md"]);
}

#[test]
fn trailing_newlines() {
    assert_eq!(ensure_trailing_newline(""), "");
    assert_eq!(ensure_trailing_newline("a"), "a\n");
    assert_eq!(ensure_trailing_newline("a\n"), "a\n");
}

#[test]
fn appends_under_a_heading() {
    let vault = vault();
    let note = Note::parse("A.md", "# A\n\n## Tasks\n\n- one\n\n## Other\n", 0, None);
    let (path, content) = vault.append_under_heading(&note, "Tasks", "- two").unwrap();
    assert_eq!(path, "A.md");
    let reread = Note::parse("A.md", &content, 0, None);
    let body = reread.body.as_str();
    assert!(body.find("- two").unwrap() < body.find("## Other").unwrap());
}

#[test]
fn paths_outside_the_vault_are_refused() {
    let vault = vault();
    assert!(vault.normalize_note("../../etc/passwd").is_err());
    assert!(vault.normalize_note("/etc/x").is_err());
    assert!(vault.absolute("/etc/x").is_err());
}

#[test]
fn the_trash_is_hidden_from_the_walk() {
    assert!(is_skipped(TRASH_DIR, true));
    assert_eq!(TRASH_DIR, ".trash");
}

#[test]
fn trashing_tries_each_free_name_then_gives_up() {
    assert!(matches!(trash_step("One/Note.md", 1, false), TrashStep::MoveTo(n) if n == "Note.md"));
    assert!(matches!(trash_step("One/Note.md", 1, true), TrashStep::Next(2)));
    assert!(matches!(trash_step("One/Note.md", 2, false), TrashStep::MoveTo(n) if n == "Note 2.md"));
    assert!(matches!(trash_step("One/Note.md", TRASH_LAST_SUFFIX - 1, true), TrashStep::Next(998)));
    assert!(matches!(trash_step("One/Note.md", TRASH_LAST_SUFFIX, true), TrashStep::Full(p) if p == ".trash/Note.md"));
}

#[test]
fn normalizing_twice_changes_nothing() {
    let vault = vault();
    for input in ["./a//b/../c.md", "Notes/./Alpha", "x/y/z"] {
        let once = vault.normalize(input).unwrap();
        assert_eq!(vault.normalize(&once).unwrap(), once);
    }
    assert!(matches!(vault.normalize("a/../.."), Err(VaultError::OutsideVault(_))));
    assert!(matches!(vault.normalize("a/.."), Err(VaultError::InvalidPath(_))));
    assert!(matches!(vault.normalize("   "), Err(VaultError::InvalidPath(_))));
}
