use int_vault::index::VaultIndex;
use int_vault::note::Note;
use int_vault::search::{parse_terms, search, SearchOptions};

fn index_with(files: &[(&str, &str)]) -> VaultIndex {
    let notes: Vec<Note> = files.iter().map(|(p, c)| Note::parse(p, c, 0, None)).collect();
    VaultIndex::build(notes)
}

fn terms(q: &str) -> Vec<String> {
    let chars: Vec<char> = q.chars().collect();
    parse_terms(&chars)
}

#[test]
fn requires_every_term() {
    let index = index_with(&[("A.md", "alpha and beta\n"), ("B.md", "alpha only\n")]);
    let hits = search(&index, "alpha beta", &SearchOptions::default());
    assert_eq!(hits.len(), 1);
    assert_eq!(hits[0].path, "A.md");
}

#[test]
fn ranks_title_matches_above_body_matches() {
    let index = index_with(&[
        ("Roadmap.md", "nothing relevant here\n"),
        ("Other.md", "the roadmap is mentioned once\n"),
    ]);
    let hits = search(&index, "roadmap", &SearchOptions::default());
    assert_eq!(hits[0].path, "Roadmap.md");
}

#[test]
fn matches_quoted_phrases_verbatim() {
    let index = index_with(&[("A.md", "ship the release train\n"), ("B.md", "release the ship train\n")]);
    let hits = search(&index, "\"release train\"", &SearchOptions::default());
    assert_eq!(hits.len(), 1);
    assert_eq!(hits[0].path, "A.md");
}

#[test]
fn returns_line_numbers_for_matches() {
    let index = index_with(&[("A.md", "one\ntwo\nalpha here\n")]);
    let hits = search(&index, "alpha", &SearchOptions::default());
    assert_eq!(hits[0].matches[0].line, 3);
    assert_eq!(hits[0].matches[0].text, "alpha here");
}

#[test]
fn filters_by_folder_and_tag() {
    let index = index_with(&[("Work/A.md", "---\ntags: [work]\n---\n\nalpha\n"), ("Home/B.md", "alpha\n")]);
    let folder = SearchOptions { folder: Some("Work".into()), ..Default::default() };
    assert_eq!(search(&index, "alpha", &folder).len(), 1);
    let tag = SearchOptions { tag: Some("work".into()), ..Default::default() };
    assert_eq!(search(&index, "alpha", &tag)[0].path, "Work/A.md");
}

#[test]
fn empty_query_finds_nothing() {
    let index = index_with(&[("A.md", "alpha\n")]);
    assert!(search(&index, "   ", &SearchOptions::default()).is_empty());
}

// ---------------------------------------------------------------------------
// further cases
// ---------------------------------------------------------------------------

#[test]
fn terms_are_lowercased_deduplicated_and_quoted() {
    assert_eq!(terms("Alpha  alpha \"Big Phrase\" x"), vec!["alpha", "big phrase", "x"]);
    assert_eq!(terms("a a b a"), vec!["a", "b", "a"]);
    assert!(terms("  \"\"  ").is_empty());
    assert_eq!(terms("\"open quote"), vec!["open quote"]);
}

#[test]
fn scores_add_up_per_term() {
    let index = index_with(&[("Alpha.md", "---\ntags: [alpha]\n---\n# Alpha\nalpha alpha\n")]);
    let hits = search(&index, "alpha", &SearchOptions::default());
    // Whole title (100) + tag (25) + path (10) + three body occurrences,
    // the heading's included.
    assert_eq!(hits[0].score, 138);
}

#[test]
fn body_bonus_is_capped_at_twenty() {
    let body = "x ".repeat(30);
    let index = index_with(&[("N.md", body.as_str())]);
    let hits = search(&index, "x", &SearchOptions::default());
    assert_eq!(hits[0].score, 20);
}

#[test]
fn equal_scores_come_out_by_path_and_limit_applies() {
    let index = index_with(&[("c.md", "zz\n"), ("a.md", "zz\n"), ("b.md", "zz\n")]);
    let options = SearchOptions { limit: 2, ..Default::default() };
    let hits = search(&index, "zz", &options);
    let paths: Vec<&str> = hits.iter().map(|h| h.path.as_str()).collect();
    assert_eq!(paths, vec!["a.md", "b.md"]);
}

#[test]
fn long_lines_are_clipped_and_matches_capped() {
    let long = "k".repeat(300);
    let body = format!("{long}\nk\nk\nk\n");
    let index = index_with(&[("L.md", body.as_str())]);
    let hits = search(&index, "k", &SearchOptions::default());
    assert_eq!(hits[0].matches.len(), 3);
    assert_eq!(hits[0].matches[0].text.chars().count(), 241);
    assert!(hits[0].matches[0].text.ends_with('…'));
}
