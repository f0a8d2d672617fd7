use int_vault::index::VaultIndex;
use int_vault::note::Note;
use int_vault::search::{search, SearchOptions};
use int_vault::tools::{folder_moves, line_block, new_note_content, required_fields, update_frontmatter, vault_description};
use int_vault::vault::Vault;
use int_vault::yaml::Value;

fn index_with(files: &[(&str, &str)]) -> VaultIndex {
    let notes: Vec<Note> = files.iter().map(|(p, c)| Note::parse(p, c, 0, None)).collect();
    VaultIndex::build(notes)
}

fn strings(items: &[&str]) -> Vec<String> {
    items.iter().map(|s| s.to_string()).collect()
}

#[test]
fn single_vault_schemas_do_not_require_a_vault_argument() {
    assert_eq!(required_fields(&strings(&["path"]), true), strings(&["path"]));
    assert_eq!(required_fields(&strings(&["path"]), false), strings(&["path", "vault"]));
}

#[test]
fn describes_the_vault_argument() {
    assert_eq!(
        vault_description(false, &strings(&["team", "personal"])),
        "Which vault to act on. Open vaults: team, personal. Required."
    );
    assert_eq!(
        vault_description(false, &strings(&["solo"])),
        "Which vault to act on. Open vaults: solo. Optional \u{2014} only one vault is open."
    );
    assert!(vault_description(true, &Vec::new()).starts_with("Not needed"));
}

#[test]
fn creates_and_reads_a_note() {
    let vault = Vault::with_root("/tmp/vaults/create".to_string());
    let path = vault.normalize_note("Projects/Alpha").unwrap();
    assert_eq!(path, "Projects/Alpha.md");
    let content = new_note_content(None, &strings(&["project"]), &Vec::new(), 1_700_000_000_000, "# Alpha\n\nLinks to [[Beta]].\n");
    assert_eq!(content, "---\ncreated: 1700000000000\ntags:\n  - project\n---\n\n# Alpha\n\nLinks to [[Beta]].\n");
    let index = index_with(&[(path.as_str(), content.as_str())]);
    let note = &index.notes()[0];
    assert_eq!(note.meta.title, "Alpha");
    assert_eq!(note.meta.tags, strings(&["project"]));
    assert!(note.body.contains("[[Beta]]"));
    assert_eq!(index.outgoing(&path)[0].resolved_path, None);
}

#[test]
fn new_notes_carry_title_and_aliases() {
    let content = new_note_content(Some("Hello"), &Vec::new(), &strings(&["Hi"]), 5, "Body\n");
    assert_eq!(content, "---\naliases:\n  - Hi\ncreated: 5\ntitle: Hello\n---\n\nBody\n");
}

#[test]
fn search_reflects_writes_immediately() {
    let content = new_note_content(None, &Vec::new(), &Vec::new(), 1, "unmistakable-token\n");
    let index = index_with(&[("A.md", content.as_str())]);
    let hits = search(&index, "unmistakable-token", &SearchOptions::default());
    assert_eq!(hits.len(), 1);
    assert_eq!(hits[0].path, "A.md");
}

#[test]
fn frontmatter_updates_leave_the_body_alone() {
    let mut note = Note::parse("A.md", "---\ntitle: A\nstatus: draft\n---\n\nBody text\n", 0, None);
    update_frontmatter(
        &mut note.frontmatter,
        vec![("status".to_string(), Value::String("live".to_string()))],
        &strings(&["title"]),
    );
    let reread = Note::parse("A.md", &note.to_content(), 0, None);
    assert_eq!(reread.frontmatter, vec![("status".to_string(), Value::String("live".to_string()))]);
    assert!(reread.body.contains("Body text"));
}

#[test]
fn folder_moves_keep_the_path_below_the_folder() {
    let moves = folder_moves(&strings(&["Projects/Alpha.md", "Projects/Deep/Beta.md"]), "Projects", "Archive/Projects");
    assert_eq!(
        moves,
        vec![
            ("Projects/Alpha.md".to_string(), "Archive/Projects/Alpha.md".to_string()),
            ("Projects/Deep/Beta.md".to_string(), "Archive/Projects/Deep/Beta.md".to_string()),
        ]
    );
}

#[test]
fn lists_notes_by_folder_tag_and_limit() {
    let index = index_with(&[
        ("Projects/A.md", "#work\n"),
        ("Projects/B.md", "#work/alpha\n"),
        ("Other/C.md", "#work\n"),
        ("D.md", "plain\n"),
    ]);
    let (all, total) = index.list_notes(None, None, 200);
    assert_eq!((all.len(), total), (4, 4));
    let (tagged, total) = index.list_notes(Some("/Projects/"), Some("work"), 200);
    let paths: Vec<&str> = tagged.iter().map(|m| m.path.as_str()).collect();
    assert_eq!((paths, total), (vec!["Projects/A.md", "Projects/B.md"], 3));
    let (limited, total) = index.list_notes(Some("/"), None, 1);
    assert_eq!((limited.len(), total), (1, 4));
    assert_eq!(limited[0].path, "Projects/A.md");
}

#[test]
fn appended_text_ends_its_own_line() {
    assert_eq!(line_block("- two"), "- two\n");
    assert_eq!(line_block("- two\n"), "- two\n");
    assert_eq!(line_block(""), "\n");
}

#[test]
fn folder_moves_cut_each_path_at_the_folder_length() {
    let moves = folder_moves(&strings(&["Über/A.md"]), "Über", "Alt");
    assert_eq!(moves, vec![("Über/A.md".to_string(), "Alt/A.md".to_string())]);
}
