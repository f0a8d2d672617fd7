use int_vault::frontmatter::{compose, parse, split, to_yaml};
use int_vault::yaml::{Entries, Value};

fn get<'a>(map: &'a Entries, key: &str) -> &'a Value {
    &map.iter().find(|(k, _)| k == key).expect("key present").1
}

fn has(map: &Entries, key: &str) -> bool {
    map.iter().any(|(k, _)| k == key)
}

fn s(text: &str) -> Value {
    Value::String(text.to_string())
}

fn obj(entries: &[(&str, Value)]) -> Value {
    let mut v: Vec<(String, Value)> = Vec::new();
    for (k, x) in entries {
        let copy = match x {
            Value::String(t) => Value::String(t.clone()),
            Value::Int(i) => Value::Int(*i),
            _ => panic!("only strings and integers here"),
        };
        v.push((k.to_string(), copy));
    }
    v.sort_by(|a, b| a.0.cmp(&b.0));
    Value::Object(v)
}

#[test]
fn splits_fenced_frontmatter() {
    let split = split("---\ntitle: Hello\n---\n\n# Body\n");
    assert_eq!(split.raw.as_deref(), Some("title: Hello\n"));
    assert_eq!(split.body, "\n# Body\n");
    // Opening fence, one key, closing fence — body line 1 is file line 4.
    assert_eq!(split.body_line_offset, 3);
}

#[test]
fn leaves_unfenced_content_alone() {
    let split = split("# Just a note\n");
    assert_eq!(split.raw, None);
    assert_eq!(split.body, "# Just a note\n");
}

#[test]
fn ignores_a_fence_that_is_not_first() {
    let split = split("intro\n---\ntitle: no\n---\n");
    assert_eq!(split.raw, None);
}

#[test]
fn unterminated_fence_is_body() {
    let split = split("---\ntitle: Hello\n");
    assert_eq!(split.raw, None);
    assert_eq!(split.body, "---\ntitle: Hello\n");
}

#[test]
fn parses_scalars_and_lists() {
    let map = parse("title: Hello\ndraft: true\ncount: 3\nratio: 1.5\nempty:\ntags: [a, b]\n");
    assert_eq!(get(&map, "title"), &s("Hello"));
    assert_eq!(get(&map, "draft"), &Value::Bool(true));
    assert_eq!(get(&map, "count"), &Value::Int(3));
    match get(&map, "ratio") {
        Value::Float(t) => assert_eq!(t.parse::<f64>().ok(), Some(1.5)),
        other => panic!("ratio is not a number: {other:?}"),
    }
    assert_eq!(get(&map, "empty"), &Value::Null);
    assert_eq!(get(&map, "tags"), &Value::Array(vec![s("a"), s("b")]));
}

#[test]
fn parses_block_sequences_at_both_indents() {
    let flush = parse("aliases:\n- one\n- two\n");
    let nested = parse("aliases:\n  - one\n  - two\n");
    assert_eq!(get(&flush, "aliases"), &Value::Array(vec![s("one"), s("two")]));
    assert_eq!(get(&nested, "aliases"), &Value::Array(vec![s("one"), s("two")]));
}

#[test]
fn parses_nested_maps() {
    let map = parse("meta:\n  author: Max\n  links:\n    - a\n    - b\nstatus: live\n");
    match get(&map, "meta") {
        Value::Object(meta) => {
            assert_eq!(get(meta, "author"), &s("Max"));
            assert_eq!(get(meta, "links"), &Value::Array(vec![s("a"), s("b")]));
        }
        other => panic!("meta is not a map: {other:?}"),
    }
    assert_eq!(get(&map, "status"), &s("live"));
}

#[test]
fn parses_sequences_of_maps() {
    let map = parse("people:\n  - name: Max\n    role: dev\n  - name: Sam\n    role: ops\n");
    assert_eq!(
        get(&map, "people"),
        &Value::Array(vec![
            obj(&[("name", s("Max")), ("role", s("dev"))]),
            obj(&[("name", s("Sam")), ("role", s("ops"))]),
        ])
    );
}

#[test]
fn keeps_colons_inside_values() {
    let map = parse("url: https://example.com/a\ntime: \"12:30\"\n");
    assert_eq!(get(&map, "url"), &s("https://example.com/a"));
    assert_eq!(get(&map, "time"), &s("12:30"));
}

#[test]
fn strips_comments_but_keeps_hashtags() {
    let map = parse("title: Hello # a comment\ntag: \"#project\"\n");
    assert_eq!(get(&map, "title"), &s("Hello"));
    assert_eq!(get(&map, "tag"), &s("#project"));
}

#[test]
fn round_trips_through_yaml() {
    let source = "aliases:\n  - one\n  - two\ncount: 3\ndraft: true\nmeta:\n  author: Max\ntitle: Hello\n";
    let parsed = parse(source);
    let rendered = to_yaml(&parsed);
    assert_eq!(parse(&rendered), parsed);
}

#[test]
fn quotes_values_that_would_change_type() {
    let map: Entries = vec![
        ("a".to_string(), s("true")),
        ("b".to_string(), s("2026-07-29")),
        ("c".to_string(), s("- dash")),
    ];
    let round_tripped = parse(&to_yaml(&map));
    assert_eq!(get(&round_tripped, "a"), &s("true"));
    assert_eq!(get(&round_tripped, "c"), &s("- dash"));
    assert_eq!(get(&round_tripped, "b"), get(&map, "b"));
}

#[test]
fn composes_note_with_blank_line_after_fence() {
    let map: Entries = vec![("title".to_string(), s("Hello"))];
    let note = compose(&map, "# Body\n");
    assert_eq!(note, "---\ntitle: Hello\n---\n\n# Body\n");
    assert_eq!(split(&note).body, "\n# Body\n");
}

// ---------------------------------------------------------------------------
// further cases
// ---------------------------------------------------------------------------

#[test]
fn strips_a_byte_order_mark_before_the_fence() {
    let split = split("\u{feff}---\na: 1\n---\nbody\n");
    assert_eq!(split.raw.as_deref(), Some("a: 1\n"));
    assert_eq!(split.body, "body\n");
    assert_eq!(split.body_line_offset, 3);
}

#[test]
fn counts_frontmatter_lines_for_the_body_offset() {
    let split = split("---\na: 1\nb: 2\nc: 3\n---\nbody\n");
    assert_eq!(split.body_line_offset, 5);
}

#[test]
fn empty_frontmatter_parses_to_an_empty_map() {
    assert!(parse("").is_empty());
    assert!(parse("# only a comment\n\n").is_empty());
    assert!(parse("- a\n- b\n").is_empty());
}

#[test]
fn reads_inline_maps_and_special_words() {
    let map = parse("m: {x: 1, y: two}\nn: ~\no: NULL\np: False\nq: -12\nr: 1e3\n");
    assert_eq!(get(&map, "m"), &obj(&[("x", Value::Int(1)), ("y", s("two"))]));
    assert_eq!(get(&map, "n"), &Value::Null);
    assert_eq!(get(&map, "o"), &Value::Null);
    assert_eq!(get(&map, "p"), &Value::Bool(false));
    assert_eq!(get(&map, "q"), &Value::Int(-12));
    assert_eq!(get(&map, "r"), &Value::Float("1e3".to_string()));
}

#[test]
fn numbers_beyond_the_float_range_stay_text() {
    let map = parse("big: 1e400\nhuge: 99999999999999999999\n");
    assert_eq!(get(&map, "big"), &s("1e400"));
    assert_eq!(get(&map, "huge"), &Value::Float("99999999999999999999".to_string()));
}

#[test]
fn later_keys_replace_earlier_ones_and_keys_come_out_sorted() {
    let map = parse("b: 1\na: 2\nb: 3\n");
    assert_eq!(map.len(), 2);
    assert_eq!(map[0].0, "a");
    assert_eq!(map[1].0, "b");
    assert_eq!(get(&map, "b"), &Value::Int(3));
    assert!(!has(&map, "c"));
}

#[test]
fn writes_nested_collections_and_quotes_keys() {
    let map: Entries = vec![
        ("a key".to_string(), Value::Null),
        ("list".to_string(), Value::Array(vec![Value::Int(1), Value::Array(vec![s("x")])])),
        ("n".to_string(), Value::Int(-7)),
    ];
    assert_eq!(to_yaml(&map), "\"a key\": \nlist:\n  - 1\n  -\n    - x\nn: -7\n");
}

#[test]
fn composing_without_frontmatter_is_the_body() {
    let empty: Entries = Vec::new();
    assert_eq!(compose(&empty, "# Body\n"), "# Body\n");
    let map: Entries = vec![("t".to_string(), s("x"))];
    assert_eq!(compose(&map, "\nBody"), "---\nt: x\n---\n\nBody");
}

#[test]
fn a_composed_note_splits_back_into_frontmatter_and_body() {
    let map: Entries = vec![
        ("list".to_string(), Value::Array(vec![Value::String("---".to_string()), Value::String("a\n---".to_string())])),
        ("title".to_string(), Value::String("Hello".to_string())),
    ];
    let note = compose(&map, "Body\n");
    let parts = split(&note);
    assert_eq!(parts.raw.as_deref(), Some(to_yaml(&map).as_str()));
    assert_eq!(parts.body, "\nBody\n");
}

#[test]
fn quotes_a_lone_tilde() {
    let map: Entries = vec![("a".to_string(), s("~")), ("b".to_string(), s("~x"))];
    let text = to_yaml(&map);
    assert_eq!(text, "a: \"~\"\nb: ~x\n");
    let round_tripped = parse(&text);
    assert_eq!(get(&round_tripped, "a"), &s("~"));
    assert_eq!(get(&round_tripped, "b"), &s("~x"));
}

#[test]
fn a_key_across_lines_still_splits_back() {
    let map: Entries = vec![("a\nb".to_string(), s("x")), ("c".to_string(), s("y"))];
    let note = compose(&map, "Body\n");
    let parts = split(&note);
    assert_eq!(parts.raw, Some(to_yaml(&map)));
    assert_eq!(parts.body, "\nBody\n");
}

#[test]
fn quoted_backslashes_read_back() {
    let map: Entries = vec![("a".to_string(), s("x: \\y\\")), ("b".to_string(), s("42"))];
    let text = to_yaml(&map);
    assert_eq!(text, "a: \"x: \\\\y\\\\\"\nb: \"42\"\n");
    let round_tripped = parse(&text);
    assert_eq!(get(&round_tripped, "a"), &s("x: \\y\\"));
    assert_eq!(get(&round_tripped, "b"), &s("42"));
}

#[test]
fn quoted_text_with_quotes_reads_back() {
    let map: Entries = vec![("a".to_string(), s("\"hi\"")), ("b".to_string(), s("- say \"x\""))];
    let round_tripped = parse(&to_yaml(&map));
    assert_eq!(get(&round_tripped, "a"), &s("\"hi\""));
    assert_eq!(get(&round_tripped, "b"), &s("- say \"x\""));
}
