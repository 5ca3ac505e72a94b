use graph_notes::refactor::{refactor_note, rewrite_wikilinks};

#[test]
fn test_cascade_rename_updates_wikilinks_in_referencing_files() {
    let out = rewrite_wikilinks("See [[Old Title]] here.", "Old Title", "New Title");
    assert_eq!(out, "See [[New Title]] here.");
}

#[test]
fn test_cascade_rename_preserves_alias() {
    let out = rewrite_wikilinks("[[Old Title|My Alias]]", "Old Title", "New Title");
    assert_eq!(out, "[[New Title|My Alias]]");
}

#[test]
fn test_cascade_rename_preserves_section_anchor() {
    let out = rewrite_wikilinks("[[Old Title#Some Section]]", "Old Title", "New Title");
    assert_eq!(out, "[[New Title#Some Section]]");
}

#[test]
fn rename_keeps_transclusion_and_block_refs() {
    let out = rewrite_wikilinks("![[Old#^b1]] and [[Old#Sec|alias]]", "Old", "New");
    assert_eq!(out, "![[New#^b1]] and [[New#Sec|alias]]");
}

#[test]
fn rename_leaves_other_links_alone() {
    let text = "[[Old Titles]] [[old title]] [[Old Title x]] [[Old Title";
    assert_eq!(rewrite_wikilinks(text, "Old Title", "New"), text);
    assert!(refactor_note(text, "Old Title", "New").is_none());
}

#[test]
fn rename_to_same_title_changes_nothing() {
    let text = "[[A]] and [[A|b]] and ![[A#c]]";
    assert_eq!(rewrite_wikilinks(text, "A", "A"), text);
    assert!(refactor_note(text, "A", "A").is_none());
}

#[test]
fn refactor_reports_changed_text() {
    assert_eq!(refactor_note("x [[A]] y", "A", "B"), Some("x [[B]] y".to_string()));
}
