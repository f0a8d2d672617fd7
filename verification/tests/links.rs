use int_vault::links::{link_targets, mask_inline_code_exec, scan};

fn targets(body: &str) -> Vec<String> {
    scan(body).links.into_iter().map(|l| l.target).collect()
}

#[test]
fn finds_plain_wikilinks() {
    assert_eq!(targets("See [[Alpha]] and [[Beta]].\n"), vec!["Alpha", "Beta"]);
}

#[test]
fn parses_alias_heading_and_embed() {
    let scan = scan("![[Notes/Alpha#Section|Read this]]\n");
    let link = &scan.links[0];
    assert_eq!(link.target, "Notes/Alpha");
    assert_eq!(link.heading.as_deref(), Some("Section"));
    assert_eq!(link.alias.as_deref(), Some("Read this"));
    assert!(link.embed);
}

#[test]
fn keeps_block_reference_fragments() {
    let scan = scan("[[Alpha#^abc123]]\n");
    assert_eq!(scan.links[0].heading.as_deref(), Some("^abc123"));
}

#[test]
fn ignores_links_inside_code() {
    let body = "```\n[[Hidden]]\n```\n`[[AlsoHidden]]` but [[Visible]]\n";
    assert_eq!(targets(body), vec!["Visible"]);
}

#[test]
fn respects_fence_length_and_character() {
    let body = "````\n```\n[[Hidden]]\n```\n````\n[[Visible]]\n";
    assert_eq!(targets(body), vec!["Visible"]);
}

#[test]
fn collects_relative_markdown_links_only() {
    let body = "[a](notes/alpha.md) [b](https://example.com) [c](mailto:x@y.z) [d](../beta.md#Top)\n";
    let links = scan(body).links;
    assert_eq!(links.len(), 2);
    assert_eq!(links[0].target, "notes/alpha.md");
    assert_eq!(links[1].target, "../beta.md");
    assert_eq!(links[1].heading.as_deref(), Some("Top"));
}

#[test]
fn decodes_percent_escapes_in_paths() {
    assert_eq!(targets("[a](my%20note.md)\n"), vec!["my note.md"]);
}

#[test]
fn finds_headings_but_not_hash_in_text() {
    let scan = scan("# Title\n\nsome #tag here\n## Sub ##\n");
    assert_eq!(scan.headings.len(), 2);
    assert_eq!(scan.headings[0].text, "Title");
    assert_eq!(scan.headings[1].text, "Sub");
    assert_eq!(scan.headings[1].level, 2);
}

#[test]
fn collects_tags_excluding_headings_and_numbers() {
    let scan = scan("# Heading\n\n#project/alpha and #2026 and mid#word\n");
    let names: Vec<_> = scan.tags.iter().map(|t| t.name.as_str()).collect();
    assert_eq!(names, vec!["project/alpha"]);
}

#[test]
fn finds_block_ids() {
    let scan = scan("A paragraph. ^ref-1\n");
    assert_eq!(scan.block_ids, vec!["ref-1"]);
}

#[test]
fn unclosed_wikilink_does_not_eat_the_next_one() {
    assert_eq!(targets("[[broken and [[Good]]\n"), vec!["Good"]);
}

#[test]
fn heading_only_link_has_empty_target() {
    let scan = scan("[[#Section]]\n");
    assert_eq!(scan.links[0].target, "");
    assert_eq!(scan.links[0].heading.as_deref(), Some("Section"));
}

#[test]
fn link_targets_are_sorted_and_unique() {
    assert_eq!(link_targets("[[b]] [[a]] [[b]] [c](c.md)\n"), vec!["a", "b", "c.md"]);
}

#[test]
fn percent_escapes_decode_multibyte_and_plus_prefixed_pairs() {
    assert_eq!(targets("[x](caf%C3%A9.md)\n"), vec!["café.md"]);
    // `from_str_radix` accepts a leading plus sign, so `%+A` decodes to a newline byte.
    assert_eq!(targets("[x](a%+Ab.md)\n"), vec!["a\nb.md"]);
    // Not valid UTF-8 once decoded: kept as written.
    assert_eq!(targets("[x](a%FFb.md)\n"), vec!["a%FFb.md"]);
}

#[test]
fn masks_inline_code_but_not_unclosed_spans() {
    assert_eq!(targets("``[[A]]`` and `[[B]]\n"), vec!["B"]);
}

#[test]
fn indented_fences_do_not_open_code_blocks() {
    assert_eq!(targets("    ```\n[[Visible]]\n"), vec!["Visible"]);
}

#[test]
fn line_numbers_are_one_based() {
    let scan = scan("a\r\nb [[X]]\n#tag\n");
    assert_eq!(scan.links[0].line, 2);
    assert_eq!(scan.tags[0].line, 3);
}

#[test]
fn line_numbers_are_one_based_and_within_the_body() {
    let body = "# Title\n\n[[A]] #tag\n```\n[[B]]\n```\n## End\n";
    let scan = scan(body);
    let lines = body.lines().count();
    assert!(scan.headings.iter().all(|h| h.line >= 1 && h.line <= lines));
    assert!(scan.links.iter().all(|l| l.line >= 1 && l.line <= lines));
    assert!(scan.tags.iter().all(|t| t.line >= 1 && t.line <= lines));
    assert_eq!(scan.links.len(), 1);
    assert_eq!(scan.links[0].line, 3);
    assert_eq!(scan.headings.last().map(|h| h.line), Some(7));
}

#[test]
fn masking_keeps_every_byte_offset() {
    let line: Vec<char> = "`é` x".chars().collect();
    let masked: String = mask_inline_code_exec(&line).into_iter().collect();
    assert_eq!(masked, "     x");
    assert_eq!(masked.len(), "`é` x".len());
}
