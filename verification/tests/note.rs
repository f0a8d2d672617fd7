use int_vault::note::{string_list, Note};
use int_vault::yaml::Value;

#[test]
fn prefers_frontmatter_title() {
    let note = Note::parse("a/b.md", "---\ntitle: Real Title\n---\n\n# Heading\n", 0, None);
    assert_eq!(note.meta.title, "Real Title");
}

#[test]
fn falls_back_to_h1_then_filename() {
    let with_h1 = Note::parse("a/b.md", "# From Heading\n", 0, None);
    assert_eq!(with_h1.meta.title, "From Heading");
    let bare = Note::parse("a/My Note.md", "text only\n", 0, None);
    assert_eq!(bare.meta.title, "My Note");
}

#[test]
fn merges_frontmatter_and_inline_tags() {
    let note = Note::parse("a.md", "---\ntags: [alpha, beta]\n---\n\n#beta #gamma\n", 0, None);
    assert_eq!(note.meta.tags, vec!["alpha", "beta", "gamma"]);
}

#[test]
fn accepts_comma_separated_tag_strings() {
    let note = Note::parse("a.md", "---\ntags: alpha, beta\n---\n", 0, None);
    assert_eq!(note.meta.tags, vec!["alpha", "beta"]);
}

#[test]
fn collects_aliases() {
    let note = Note::parse("a.md", "---\naliases:\n  - Alpha\n  - A1\n---\n", 0, None);
    assert_eq!(note.meta.aliases, vec!["Alpha", "A1"]);
}

#[test]
fn round_trips_content() {
    let source = "---\ntitle: Hello\n---\n\n# Hello\n\nBody [[Link]].\n";
    let note = Note::parse("a.md", source, 0, None);
    assert_eq!(note.to_content(), source);
}

#[test]
fn round_trips_content_without_frontmatter() {
    let source = "# Hello\n\nBody.\n";
    assert_eq!(Note::parse("a.md", source, 0, None).to_content(), source);
}

// ---------------------------------------------------------------------------
// further cases
// ---------------------------------------------------------------------------

#[test]
fn stem_drops_folder_and_md_extension() {
    assert_eq!(Note::parse("Projects/Alpha.md", "", 0, None).stem(), "Alpha");
    assert_eq!(Note::parse("Alpha.markdown", "", 0, None).stem(), "Alpha.markdown");
}

#[test]
fn blank_frontmatter_title_falls_through() {
    let note = Note::parse("x/Name.md", "---\ntitle: \"  \"\n---\ntext\n", 0, None);
    assert_eq!(note.meta.title, "Name");
}

#[test]
fn tag_field_and_hash_prefixes() {
    let note = Note::parse("a.md", "---\ntag: \"#solo\"\ntags: [\"#x\", \"\", 7]\n---\n", 0, None);
    assert_eq!(note.meta.tags, vec!["7", "solo", "x"]);
}

#[test]
fn alias_field_follows_aliases() {
    let note = Note::parse("a.md", "---\nalias: one, two\naliases: [zero]\n---\n", 12, Some(34));
    assert_eq!(note.meta.aliases, vec!["zero", "one", "two"]);
    assert_eq!(note.meta.size, 12);
    assert_eq!(note.meta.modified, Some(34));
}

#[test]
fn string_lists_from_values() {
    assert_eq!(string_list(Some(&Value::String(" a , ,b ".to_string()))), vec!["a", "b"]);
    assert_eq!(
        string_list(Some(&Value::Array(vec![Value::Int(-3), Value::Bool(true), Value::String(" q ".to_string())]))),
        vec!["-3", "q"]
    );
    assert!(string_list(Some(&Value::Null)).is_empty());
    assert!(string_list(None).is_empty());
}
