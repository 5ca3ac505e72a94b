use graph_notes::notes::{
    after_index_failure, note_file_name, note_name, note_stub, sanitize_filename, title_from_path,
    RetryDecision, MAX_INDEX_RETRIES,
};

#[test]
fn test_sanitize_removes_forbidden_characters() {
    assert_eq!(sanitize_filename("My: Note? <Bad>"), "My Note Bad");
}

#[test]
fn test_sanitize_all_special_chars_returns_untitled_fallback() {
    let result = sanitize_filename("/:*?\"<>|\\");
    assert!(result.is_empty());
}

#[test]
fn test_sanitize_preserves_spaces_and_unicode() {
    assert_eq!(sanitize_filename("Café Notes"), "Café Notes");
}

#[test]
fn sanitize_is_stable() {
    for t in ["  a/b: c  ", "Plain", "\t<x>\n", ""] {
        let once = sanitize_filename(t);
        assert_eq!(sanitize_filename(&once), once);
    }
}

#[test]
fn note_name_falls_back_to_untitled() {
    assert_eq!(note_name("???"), "Untitled");
    assert_eq!(note_name("  Ideas  "), "Ideas");
}

#[test]
fn note_file_names_for_collisions() {
    assert_eq!(note_file_name("Ideas", None), "Ideas.md");
    assert_eq!(note_file_name("Ideas", Some(2)), "Ideas_2.md");
    assert_eq!(note_file_name("Ideas", Some(105)), "Ideas_105.md");
    assert_eq!(note_file_name("x", Some(0)), "x_0.md");
}

#[test]
fn stub_frontmatter_for_new_note() {
    assert_eq!(note_stub("My Note", "2024-05-01"), "---\ntitle: My Note\ndate: 2024-05-01\n---\n");
}

#[test]
fn title_from_path_uses_file_stem() {
    assert_eq!(title_from_path("/vault/Old Title.md"), "Old Title");
    assert_eq!(title_from_path("/"), "");
}

#[test]
fn write_conflicts_are_retried_five_times() {
    let err = "Database error: Transaction write conflict";
    let mut attempts = 0u32;
    let mut delays = Vec::new();
    loop {
        match after_index_failure(err, attempts) {
            RetryDecision::Retry { attempts: a, delay_ms } => {
                assert_eq!(a, attempts + 1);
                delays.push(delay_ms);
                attempts = a;
            }
            RetryDecision::GiveUp => break,
        }
    }
    assert_eq!(attempts, MAX_INDEX_RETRIES);
    assert_eq!(delays, vec![50, 100, 150, 200, 250]);
}

#[test]
fn other_errors_are_not_retried() {
    assert!(matches!(after_index_failure("disk full", 0), RetryDecision::GiveUp));
}
