use graph_notes::indexer::{
    is_markdown_path, link_target_record, note_id_from_path, note_id_from_relative, split_id,
    tag_assignments, tag_slug, try_note_id_from_path, watch_actions, IndexerError, TagSource,
    WatchAction, WatchEventKind,
};

#[test]
fn note_id_is_hash_of_relative_path() {
    let id = note_id_from_path("/vault", "/vault/test-note.md");
    assert_eq!(id, "note:15668c641d3e3389cf950e8344683603");
    assert_eq!(note_id_from_relative("sub\\dir\\a.md"), "note:ad3d7e061f0d995ab29d5bb09e29e6fd");
    assert_eq!(note_id_from_path("/vault", "/vault/sub/dir/a.md"), "note:ad3d7e061f0d995ab29d5bb09e29e6fd");
}

#[test]
fn note_id_outside_vault_is_none() {
    assert!(try_note_id_from_path("/vault", "/elsewhere/a.md").is_none());
    assert_eq!(
        try_note_id_from_path("/vault", "/vault/test-note.md").as_deref(),
        Some("note:15668c641d3e3389cf950e8344683603")
    );
}

#[test]
fn split_id_at_first_colon() {
    assert_eq!(split_id("note:abc123"), ("note".to_string(), "abc123".to_string()));
    assert_eq!(split_id("a:b:c"), ("a".to_string(), "b:c".to_string()));
    let id = note_id_from_relative("x.md");
    let (table, key) = split_id(&id);
    assert_eq!(table, "note");
    assert_eq!(key.len(), 32);
}

#[test]
fn tag_slugs() {
    assert_eq!(tag_slug("My Tag"), "my-tag");
    assert_eq!(tag_slug("ÉTÉ Notes"), "été-notes");
}

#[test]
fn tag_assignments_keep_order_and_source() {
    let r = tag_assignments(&vec!["Project X".to_string()], &vec!["todo".to_string(), "A/B".to_string()]);
    assert_eq!(r.len(), 3);
    assert_eq!(r[0].slug, "project-x");
    assert!(matches!(r[0].source, TagSource::Frontmatter));
    assert_eq!(r[2].name, "A/B");
    assert_eq!(r[2].slug, "a/b");
    assert!(matches!(r[1].source, TagSource::Inline));
}

#[test]
fn markdown_paths() {
    assert!(is_markdown_path("/v/a.md"));
    assert!(!is_markdown_path("/v/a.markdown"));
    assert!(!is_markdown_path("/v/md"));
}

#[test]
fn link_targets() {
    assert_eq!(link_target_record(Some("abc".to_string()), "zzz"), "note:abc");
    assert_eq!(link_target_record(None, "zzz"), "dangling_node:zzz");
}

#[test]
fn indexer_error_messages() {
    let e = IndexerError::ReadFailed("/v/a.md".to_string(), "not found".to_string());
    assert_eq!(e.message(), "Failed to read file \"/v/a.md\": not found");
    assert_eq!(IndexerError::Unexpected("boom".to_string()).message(), "Database error: boom");
    let e = IndexerError::ReadFailed("/v/it's \"q\".md".to_string(), "gone".to_string());
    assert_eq!(e.message(), "Failed to read file \"/v/it's \\\"q\\\".md\": gone");
}

#[test]
fn watcher_actions() {
    let paths = vec!["/v/a.md".to_string(), "/v/b.txt".to_string()];
    let r = watch_actions(&WatchEventKind::Modified, &paths);
    assert_eq!(r.len(), 1);
    assert!(matches!(&r[0], WatchAction::Reindex(p) if p == "/v/a.md"));
    let r = watch_actions(&WatchEventKind::Removed, &paths);
    assert_eq!(r.len(), 2);
    assert!(matches!(&r[1], WatchAction::DeleteRecord(p) if p == "/v/b.txt"));
    assert!(watch_actions(&WatchEventKind::Other, &paths).is_empty());
}
