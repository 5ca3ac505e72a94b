use graph_notes::parser::{
    extract_frontmatter_tags, extract_inline_tags, extract_title, parse_note, split_frontmatter,
    Frontmatter, FrontmatterValue,
};

fn fm(entries: Vec<(&str, FrontmatterValue)>) -> Frontmatter {
    Frontmatter { entries: entries.into_iter().map(|(k, v)| (k.to_string(), v)).collect() }
}

#[test]
fn frontmatter_is_split_from_body() {
    let (raw, body) = split_frontmatter("---\ntitle: X\n---\nbody text");
    assert_eq!(raw, "\ntitle: X");
    assert_eq!(body, "body text");
}

#[test]
fn note_without_frontmatter_is_all_body() {
    let (raw, body) = split_frontmatter("# Heading\ntext");
    assert_eq!(raw, "");
    assert_eq!(body, "# Heading\ntext");
    let (raw, body) = split_frontmatter("---\nnever closed");
    assert_eq!(raw, "");
    assert_eq!(body, "---\nnever closed");
}

#[test]
fn frontmatter_without_trailing_newline() {
    let (raw, body) = split_frontmatter("---\na: 1\n---");
    assert_eq!(raw, "\na: 1");
    assert_eq!(body, "");
}

#[test]
fn title_prefers_frontmatter_then_heading_then_stem() {
    let with_title = fm(vec![("title", FrontmatterValue::Text("From FM".to_string()))]);
    assert_eq!(extract_title(&with_title, "# Heading", "/v/stem.md"), "From FM");
    let empty_title = fm(vec![("title", FrontmatterValue::Text(String::new()))]);
    assert_eq!(extract_title(&empty_title, "text\n#  Heading  \n", "/v/stem.md"), "Heading");
    let none = fm(vec![]);
    assert_eq!(extract_title(&none, "#NoSpace\n# \ntext", "/v/my note.md"), "my note");
    assert_eq!(extract_title(&none, "", "/"), "Untitled");
}

#[test]
fn frontmatter_tags_from_list_and_string() {
    let list = fm(vec![(
        "tags",
        FrontmatterValue::List(vec![Some(" a ".to_string()), None, Some("  ".to_string()), Some("b".to_string())]),
    )]);
    assert_eq!(extract_frontmatter_tags(&list), vec!["a".to_string(), "b".to_string()]);
    let text = fm(vec![("tags", FrontmatterValue::Text("x, y ,,z".to_string()))]);
    assert_eq!(extract_frontmatter_tags(&text), vec!["x".to_string(), "y".to_string(), "z".to_string()]);
    let other = fm(vec![("tags", FrontmatterValue::Other)]);
    assert!(extract_frontmatter_tags(&other).is_empty());
}

#[test]
fn inline_tags_follow_the_pattern() {
    let tags = extract_inline_tags("#top line\nsome #nested/tag and x#not and #\n  #déjà_vu!");
    assert_eq!(tags, vec!["top".to_string(), "nested/tag".to_string(), "déjà_vu".to_string()]);
    assert!(extract_inline_tags("# Heading").is_empty());
    assert_eq!(extract_inline_tags("#a#b #c"), vec!["a".to_string(), "c".to_string()]);
}

#[test]
fn parse_note_reads_yaml_frontmatter() {
    let content = "---\ntitle: Test Note\ntags: [alpha, beta]\n---\nHello #world.";
    let parsed = parse_note("/vault/test-note.md", content);
    assert_eq!(parsed.title, "Test Note");
    assert_eq!(parsed.body, "Hello #world.");
    assert_eq!(parsed.tags_frontmatter, vec!["alpha".to_string(), "beta".to_string()]);
    assert_eq!(parsed.tags_inline, vec!["world".to_string()]);
    assert_eq!(parsed.frontmatter_yaml, "\ntitle: Test Note\ntags: [alpha, beta]");
}

#[test]
fn parse_note_with_bad_yaml_falls_back() {
    let parsed = parse_note("/vault/idempotent.md", "---\n: : :\n---\n# Idempotent");
    assert_eq!(parsed.title, "Idempotent");
    assert!(parsed.frontmatter.entries.is_empty());
    let parsed = parse_note("/vault/plain.md", "no title here");
    assert_eq!(parsed.title, "plain");
    let parsed = parse_note("/vault/t.md", "---\ntags: one, two\n---\n");
    assert_eq!(parsed.tags_frontmatter, vec!["one".to_string(), "two".to_string()]);
}

#[test]
fn frontmatter_split_with_multibyte_text_reassembles() {
    let content = "---\ntitle: Café\n---\nbödy ✓";
    let (raw, body) = split_frontmatter(content);
    assert_eq!(raw, "\ntitle: Café");
    assert_eq!(body, "bödy ✓");
    assert_eq!(format!("---{}\n---\n{}", raw, body), content);
    let content = "---\nk: v\n---no newline after";
    let (raw, body) = split_frontmatter(content);
    assert_eq!(format!("---{}\n---{}", raw, body), content);
}
