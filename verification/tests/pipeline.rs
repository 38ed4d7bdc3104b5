use highlighter::dedup::resolve_duplicate_nodes;
use highlighter::lines::split_into_lines;
use highlighter::newlines::split_newline_nodes;
use highlighter::spans::{normalize_spans, CaptureSpan};
use highlighter::token::{Node, QueryRule};

fn node(kind: &str, text: &str) -> Node {
    Node { node_type: kind.to_string(), element_text: text.to_string() }
}

fn span(name: &str, start: usize, end: usize) -> CaptureSpan {
    CaptureSpan { name: name.to_string(), start, end }
}

#[test]
fn whole_text_captured_is_one_token_on_one_line() {
    let tokens = normalize_spans("fn a(){}", vec![span("function", 0, 8)]).unwrap();
    assert_eq!(tokens, vec![node("function", "fn a(){}")]);
    let lines = split_into_lines(split_newline_nodes(tokens));
    assert_eq!(lines, vec![vec![node("function", "fn a(){}")]]);
}

#[test]
fn uncaptured_text_is_split_at_its_newline() {
    let tokens = normalize_spans("a\nb", vec![]).unwrap();
    assert_eq!(tokens, vec![node("none", "a\nb")]);
    let split = split_newline_nodes(tokens);
    assert_eq!(split, vec![node("none", "a"), node("newline", "\n"), node("none", "b")]);
    let lines = split_into_lines(split);
    assert_eq!(lines, vec![vec![node("none", "a")], vec![node("none", "b")]]);
}

#[test]
fn last_wins_keeps_the_second_of_two_equal_texts() {
    let tokens = vec![node("variable", "x"), node("keyword", "x")];
    let kept = resolve_duplicate_nodes(tokens, QueryRule::LastWins);
    assert_eq!(kept, vec![node("keyword", "x")]);
}

#[test]
fn last_wins_puts_the_survivor_where_the_second_stood() {
    let tokens = vec![node("variable", "x"), node("none", " "), node("keyword", "x")];
    let kept = resolve_duplicate_nodes(tokens, QueryRule::LastWins);
    assert_eq!(kept, vec![node("none", " "), node("keyword", "x")]);
}

#[test]
fn empty_source_has_no_tokens_and_no_lines() {
    let tokens = normalize_spans("", vec![]).unwrap();
    assert!(tokens.is_empty());
    let lines = split_into_lines(split_newline_nodes(tokens));
    assert!(lines.is_empty());
}

#[test]
fn two_newlines_are_two_empty_lines() {
    let tokens = normalize_spans("\n\n", vec![]).unwrap();
    assert_eq!(tokens, vec![node("none", "\n\n")]);
    let split = split_newline_nodes(tokens);
    assert_eq!(split, vec![node("newline", "\n"), node("newline", "\n")]);
    let lines = split_into_lines(split);
    assert_eq!(lines, vec![Vec::<Node>::new(), Vec::<Node>::new()]);
}
