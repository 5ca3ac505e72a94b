use graph_notes::graph::extract_snippet;

#[test]
fn snippet_takes_the_line_and_its_neighbours() {
    let content = "one\ntwo\nsee [[Target]]\nfour\nfive";
    assert_eq!(extract_snippet(content, "target"), "two see [[Target]] four");
}

#[test]
fn snippet_at_start_and_end() {
    assert_eq!(extract_snippet("Target here\nnext\nmore", "TARGET"), "Target here next");
    assert_eq!(extract_snippet("a\nb\nlast Target", "Target"), "b last Target");
    assert_eq!(extract_snippet("only Target", "target"), "only Target");
}

#[test]
fn snippet_is_empty_without_mention() {
    assert_eq!(extract_snippet("nothing\nhere", "Target"), "");
    assert_eq!(extract_snippet("", "x"), "");
}
