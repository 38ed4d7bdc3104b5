use highlighter::lines::split_into_lines;
use highlighter::newlines::split_newline_nodes;
use highlighter::token::Node;

fn node(kind: &str, text: &str) -> Node {
    Node { node_type: kind.to_string(), element_text: text.to_string() }
}

fn line_count(text: &str) -> usize {
    split_into_lines(split_newline_nodes(vec![node("none", text)])).len()
}

#[test]
fn tokens_without_a_marker_are_one_line() {
    let tokens = vec![node("keyword", "fn"), node("none", " "), node("function", "a")];
    assert_eq!(split_into_lines(tokens.clone()), vec![tokens]);
}

#[test]
fn a_marker_closes_the_line_and_is_dropped() {
    let tokens = vec![node("none", "a"), node("newline", "\n"), node("none", "b")];
    let lines = split_into_lines(tokens);
    assert_eq!(lines, vec![vec![node("none", "a")], vec![node("none", "b")]]);
}

#[test]
fn a_marker_at_the_end_opens_no_further_line() {
    let tokens = vec![node("none", "a"), node("newline", "\n")];
    let lines = split_into_lines(tokens);
    assert_eq!(lines, vec![vec![node("none", "a")]]);
}

#[test]
fn empty_lines_in_the_middle_are_kept() {
    let tokens = vec![
        node("none", "a"),
        node("newline", "\n"),
        node("newline", "\n"),
        node("none", "b"),
    ];
    let lines = split_into_lines(tokens);
    assert_eq!(lines, vec![vec![node("none", "a")], vec![], vec![node("none", "b")]]);
}

#[test]
fn a_marker_at_the_start_gives_an_empty_first_line() {
    let tokens = vec![node("newline", "\n"), node("none", "b")];
    let lines = split_into_lines(tokens);
    assert_eq!(lines, vec![vec![], vec![node("none", "b")]]);
}

#[test]
fn the_label_decides_what_a_marker_is() {
    let tokens = vec![node("none", "a"), node("newline", "x"), node("string", "\n")];
    let lines = split_into_lines(tokens);
    assert_eq!(lines, vec![vec![node("none", "a")], vec![node("string", "\n")]]);
}

#[test]
fn a_token_without_text_keeps_the_last_line_open() {
    let tokens = vec![node("none", "a"), node("newline", "\n"), node("missing", "")];
    let lines = split_into_lines(tokens);
    assert_eq!(lines, vec![vec![node("none", "a")], vec![node("missing", "")]]);
}

#[test]
fn no_tokens_are_no_lines() {
    assert!(split_into_lines(vec![]).is_empty());
}

#[test]
fn no_line_holds_a_marker() {
    let tokens = split_newline_nodes(vec![node("a", "1\n2\n"), node("b", "\n3"), node("c", "4")]);
    for line in split_into_lines(tokens) {
        for token in line {
            assert_ne!(token.node_type, "newline");
        }
    }
}

#[test]
fn one_line_for_each_newline_and_one_for_an_open_end() {
    assert_eq!(line_count("a"), 1);
    assert_eq!(line_count("a\n"), 1);
    assert_eq!(line_count("a\nb"), 2);
    assert_eq!(line_count("a\nb\n"), 2);
    assert_eq!(line_count("\n"), 1);
    assert_eq!(line_count("\n\n\n"), 3);
    assert_eq!(line_count("\n\n\nx"), 4);
    assert_eq!(line_count("one\ntwo\n\nfour\n"), 4);
}
