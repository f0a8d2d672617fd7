use int_vault::index::VaultIndex;
use int_vault::note::Note;

fn index_with(files: &[(&str, &str)]) -> VaultIndex {
    let notes: Vec<Note> = files.iter().map(|(p, c)| Note::parse(p, c, 0, None)).collect();
    VaultIndex::build(notes)
}

#[test]
fn resolves_bare_names_and_paths() {
    let index = index_with(&[
        ("Alpha.md", "# Alpha\n"),
        ("Projects/Beta.md", "See [[Alpha]] and [[Projects/Beta]].\n"),
    ]);
    assert_eq!(index.resolve("Projects/Beta.md", "Alpha").as_deref(), Some("Alpha.md"));
    assert_eq!(index.resolve("Projects/Beta.md", "Projects/Beta").as_deref(), Some("Projects/Beta.md"));
    assert_eq!(index.resolve("Alpha.md", "Nothing"), None);
}

#[test]
fn prefers_a_note_in_the_same_folder() {
    let index = index_with(&[
        ("Alpha.md", "# root\n"),
        ("Deep/Nested/Alpha.md", "# nested\n"),
        ("Deep/Nested/Ref.md", "[[Alpha]]\n"),
    ]);
    assert_eq!(index.resolve("Deep/Nested/Ref.md", "Alpha").as_deref(), Some("Deep/Nested/Alpha.md"));
    assert_eq!(index.resolve("Other.md", "Alpha").as_deref(), Some("Alpha.md"));
}

#[test]
fn resolves_relative_markdown_links() {
    let index = index_with(&[
        ("Notes/Alpha.md", "# Alpha\n"),
        ("Notes/Sub/Beta.md", "[a](../Alpha.md)\n"),
    ]);
    assert_eq!(index.resolve("Notes/Sub/Beta.md", "../Alpha.md").as_deref(), Some("Notes/Alpha.md"));
}

#[test]
fn resolves_aliases() {
    let index = index_with(&[
        ("Alpha.md", "---\naliases:\n  - The First One\n---\n"),
        ("Ref.md", "[[The First One]]\n"),
    ]);
    assert_eq!(index.resolve("Ref.md", "The First One").as_deref(), Some("Alpha.md"));
}

#[test]
fn collects_backlinks_with_context() {
    let index = index_with(&[
        ("Alpha.md", "# Alpha\n"),
        ("Ref.md", "intro\n\nlinks to [[Alpha]] here\n"),
    ]);
    let backlinks = index.backlinks("Alpha.md");
    assert_eq!(backlinks.len(), 1);
    assert_eq!(backlinks[0].source, "Ref.md");
    assert_eq!(backlinks[0].context, "links to [[Alpha]] here");
}

#[test]
fn reports_unresolved_links() {
    let index = index_with(&[("Ref.md", "[[Ghost]]\n")]);
    let unresolved = index.unresolved();
    assert_eq!(unresolved.len(), 1);
    assert_eq!(unresolved[0].target, "Ghost");
}

#[test]
fn counts_tags_including_nesting() {
    let index = index_with(&[
        ("A.md", "---\ntags: [project/alpha]\n---\n"),
        ("B.md", "#project/beta\n"),
    ]);
    assert_eq!(index.tags().len(), 2);
    assert_eq!(index.notes_with_tag("project").len(), 2);
    assert_eq!(index.notes_with_tag("project/alpha").len(), 1);
}

#[test]
fn rewrites_wikilinks_when_a_note_moves() {
    let index = index_with(&[
        ("Alpha.md", "# Alpha\n"),
        ("Ref.md", "see [[Alpha]] and [[Alpha|the first]]\n"),
    ]);
    let changed = index.rewrite_links_for_move("Alpha.md", "Archive/Alpha One.md");
    assert_eq!(changed.len(), 1);
    assert!(changed[0].1.contains("[[Alpha One]]"));
    assert!(changed[0].1.contains("[[Alpha One|the first]]"));
}

#[test]
fn backlinks_and_unresolved_links_line_up() {
    let index = index_with(&[
        ("Alpha.md", "# Alpha\n"),
        ("Ref.md", "see [[Alpha]] and [[Ghost]]\n"),
    ]);
    let backlinks = index.backlinks("Alpha.md");
    assert_eq!(backlinks.len(), 1);
    assert_eq!(backlinks[0].source, "Ref.md");
    let unresolved = index.unresolved();
    assert_eq!(unresolved.len(), 1);
    assert_eq!(unresolved[0].target, "Ghost");
}

#[test]
fn lists_orphaned_notes() {
    let index = index_with(&[
        ("Linked.md", "# Linked\n"),
        ("Ref.md", "see [[Linked]]\n"),
        ("Alone.md", "# Alone\n"),
    ]);
    assert_eq!(index.orphans(), vec!["Alone.md"]);
}

#[test]
fn moving_a_note_relinks_the_vault() {
    let index = index_with(&[("Alpha.md", "# Alpha\n"), ("Ref.md", "see [[Alpha]]\n")]);
    let changed = index.rewrite_links_for_move("Alpha.md", "Archive/Alpha One.md");
    assert_eq!(changed.len(), 1);
    assert_eq!(changed[0].0, "Ref.md");
    assert!(changed[0].1.contains("[[Alpha One]]"));

    let moved = index_with(&[("Archive/Alpha One.md", "# Alpha\n"), ("Ref.md", changed[0].1.as_str())]);
    let out = moved.outgoing("Ref.md");
    assert_eq!(out[0].resolved_path.as_deref(), Some("Archive/Alpha One.md"));
}

#[test]
fn moving_a_note_leaves_code_alone() {
    let index = index_with(&[
        ("Alpha.md", "# Alpha\n"),
        ("Ref.md", "`[[Alpha]]` and [[Alpha]]\n```\n[[Alpha]]\n```\n"),
    ]);
    let changed = index.rewrite_links_for_move("Alpha.md", "Beta.md");
    assert_eq!(changed.len(), 1);
    assert_eq!(changed[0].1, "`[[Alpha]]` and [[Beta]]\n```\n[[Alpha]]\n```\n");
}

#[test]
fn moving_a_note_onto_a_taken_name_links_by_path() {
    let index = index_with(&[
        ("Alpha.md", "# Alpha\n"),
        ("Other/Beta.md", "# Beta\n"),
        ("Ref.md", "see [[Alpha]]\n"),
    ]);
    let changed = index.rewrite_links_for_move("Alpha.md", "Archive/Beta.md");
    assert_eq!(changed.len(), 1);
    assert!(changed[0].1.contains("[[Archive/Beta]]"));
    let moved = index_with(&[
        ("Archive/Beta.md", "# Alpha\n"),
        ("Other/Beta.md", "# Beta\n"),
        ("Ref.md", changed[0].1.as_str()),
    ]);
    assert_eq!(moved.outgoing("Ref.md")[0].resolved_path.as_deref(), Some("Archive/Beta.md"));
}

// ---------------------------------------------------------------------------
// further cases
// ---------------------------------------------------------------------------

#[test]
fn resolution_is_case_insensitive_and_accepts_paths_without_extension() {
    let index = index_with(&[("Projects/Alpha.md", "x\n")]);
    assert_eq!(index.resolve("Other.md", "alpha").as_deref(), Some("Projects/Alpha.md"));
    assert_eq!(index.resolve("Other.md", "projects/alpha").as_deref(), Some("Projects/Alpha.md"));
    assert_eq!(index.resolve("Projects/Alpha.md", "").as_deref(), Some("Projects/Alpha.md"));
    assert_eq!(index.resolve("Missing.md", "  "), None);
}

#[test]
fn ties_break_on_depth_then_length() {
    let index = index_with(&[("a/b/Note.md", ""), ("c/Note.md", ""), ("dd/Note.md", "")]);
    assert_eq!(index.resolve("x/y.md", "Note").as_deref(), Some("c/Note.md"));
}

#[test]
fn relative_targets_never_escape_the_vault() {
    let index = index_with(&[("Alpha.md", "")]);
    assert_eq!(index.resolve("A/B.md", "../../Alpha.md"), None);
    assert_eq!(index.resolve("A/B.md", "../Alpha.md").as_deref(), Some("Alpha.md"));
}

#[test]
fn outgoing_resolves_each_link_in_order() {
    let index = index_with(&[("A.md", "[[B]] [[#Top]] [[Nowhere]]\n"), ("B.md", "")]);
    let out = index.outgoing("A.md");
    assert_eq!(out.len(), 3);
    assert_eq!(out[0].resolved_path.as_deref(), Some("B.md"));
    assert_eq!(out[1].resolved_path.as_deref(), Some("A.md"));
    assert_eq!(out[2].resolved_path, None);
    assert!(index.outgoing("Missing.md").is_empty());
}

#[test]
fn get_and_len() {
    let index = index_with(&[("A.md", "# A\n"), ("B.md", "")]);
    assert_eq!(index.len(), 2);
    assert!(!index.is_empty());
    assert_eq!(index.get("A.md").map(|n| n.meta.title.as_str()), Some("A"));
    assert!(index.get("C.md").is_none());
    assert_eq!(index.notes().len(), 2);
}

#[test]
fn tags_are_counted_per_note() {
    let index = index_with(&[("A.md", "#x #y\n"), ("B.md", "#x\n")]);
    let tags = index.tags();
    assert_eq!(tags, vec![("x".to_string(), 2), ("y".to_string(), 1)]);
}

#[test]
fn ambiguous_new_names_are_written_as_paths() {
    let index = index_with(&[
        ("Alpha.md", ""),
        ("Other/Beta.md", ""),
        ("Beta.md", ""),
        ("Ref.md", "[[Alpha]]\n"),
    ]);
    let changed = index.rewrite_links_for_move("Alpha.md", "New/Beta.md");
    assert_eq!(changed.len(), 1);
    assert!(changed[0].1.contains("[[New/Beta]]"));
}

#[test]
fn a_move_leaves_notes_that_did_not_link_to_it_alone() {
    let index = index_with(&[
        ("Alpha.md", "# Alpha\n"),
        ("Alpha Beta.md", "# Alpha Beta\n"),
        ("Ref.md", "see [[Alpha]]\n"),
        ("Other.md", "see [[Alpha Beta]] and [[Ghost]]\n"),
    ]);
    let changed = index.rewrite_links_for_move("Alpha.md", "Archive/Alpha One.md");
    let paths: Vec<&str> = changed.iter().map(|(p, _)| p.as_str()).collect();
    assert_eq!(paths, vec!["Ref.md"]);
}

#[test]
fn moving_several_notes_relinks_each_in_turn() {
    let index = index_with(&[
        ("A/One.md", "# One\n"),
        ("A/Two.md", "see [[One]]\n"),
        ("Ref.md", "[[One]] and [[Two]]\n"),
    ]);
    let moves = vec![
        ("A/One.md".to_string(), "B/Uno.md".to_string()),
        ("A/Two.md".to_string(), "B/Dos.md".to_string()),
    ];
    let changed = index.rewrite_links_for_moves(&moves);
    let paths: Vec<&str> = changed.iter().map(|(p, _)| p.as_str()).collect();
    assert_eq!(paths, vec!["A/Two.md", "Ref.md"]);
    assert_eq!(changed[0].1, "see [[Uno]]\n");
    assert_eq!(changed[1].1, "[[Uno]] and [[Dos]]\n");
    assert!(index.rewrite_links_for_moves(&Vec::new()).is_empty());
}
