use highlighter::engine::{highlight, lines_from_nodes, process_string, query_text};
use highlighter::error::HighlightError;
use highlighter::lines::split_into_lines;
use highlighter::newlines::split_newline_nodes;
use highlighter::token::{Node, QueryRule};

fn node(kind: &str, text: &str) -> Node {
    Node { node_type: kind.to_string(), element_text: text.to_string() }
}

const NAMES: &str = "(function_item name: (identifier) @function)";

#[test]
fn captured_names_become_tokens() {
    let tokens = process_string("fn a(){}", NAMES).unwrap();
    assert_eq!(
        tokens,
        vec![node("none", "fn "), node("function", "a"), node("none", "(){}")]
    );
}

#[test]
fn captures_come_in_the_order_of_the_text() {
    let code = "fn one() {}\nfn two() {}\n";
    let tokens = process_string(code, NAMES).unwrap();
    assert_eq!(
        tokens,
        vec![
            node("none", "fn "),
            node("function", "one"),
            node("none", "() {}\nfn "),
            node("function", "two"),
            node("none", "() {}\n"),
        ]
    );
}

#[test]
fn a_query_without_matches_leaves_plain_text() {
    let tokens = process_string("let x = 1;", NAMES).unwrap();
    assert_eq!(tokens, vec![node("none", "let x = 1;")]);
}

#[test]
fn an_empty_text_has_no_tokens() {
    assert_eq!(process_string("", NAMES), Ok(vec![]));
}

#[test]
fn a_query_that_does_not_compile_is_reported() {
    let result = process_string("fn a(){}", "(no_such_node) @x");
    assert_eq!(result, Err(HighlightError::QueryCompilationError));
    let result = process_string("fn a(){}", "(function_item");
    assert_eq!(result, Err(HighlightError::QueryCompilationError));
}

#[test]
fn an_unknown_name_at_the_very_end_of_the_query_is_reported() {
    for query in ["(zzz", "zzz", "(function_item !zzz", "(function_item zzz", "(é"] {
        let result = process_string("fn a(){}", query);
        assert_eq!(result, Err(HighlightError::QueryCompilationError));
    }
    let result = process_string("fn a(){}", "((identifier) @a (#eq? @zzz");
    assert_eq!(result, Err(HighlightError::QueryCompilationError));
    let result = highlight("fn a(){}", "(function_item name: (zzz", QueryRule::LastWins);
    assert_eq!(result, Err(HighlightError::QueryCompilationError));
}

#[test]
fn a_query_may_end_without_a_newline_or_with_one() {
    let without = process_string("fn a(){}", NAMES).unwrap();
    let with = process_string("fn a(){}", "(function_item name: (identifier) @function)\n").unwrap();
    assert_eq!(with, without);
    assert_eq!(with[1], node("function", "a"));
}

#[test]
fn the_compiled_query_is_the_query_and_a_newline() {
    assert_eq!(query_text("(identifier) @id"), "(identifier) @id\n");
    assert_eq!(query_text("(zzz"), "(zzz\n");
    assert_eq!(query_text("a\n"), "a\n\n");
    assert_eq!(query_text(""), "\n");
}

#[test]
fn an_empty_query_captures_nothing() {
    let tokens = process_string("fn a(){}", "").unwrap();
    assert_eq!(tokens, vec![node("none", "fn a(){}")]);
}

#[test]
fn a_query_that_ends_in_a_comment_or_an_open_string_is_handled() {
    let tokens = process_string("fn a(){}", "(identifier) @id ; names").unwrap();
    assert_eq!(tokens[1], node("id", "a"));
    let result = process_string("fn a(){}", "(identifier) @id \"open");
    assert_eq!(result, Err(HighlightError::QueryCompilationError));
}

#[test]
fn two_patterns_on_one_node_give_two_tokens() {
    let query = "(identifier) @variable\n(function_item name: (identifier) @function)";
    let tokens = process_string("fn a(){}", query).unwrap();
    assert_eq!(
        tokens,
        vec![
            node("none", "fn "),
            node("variable", "a"),
            node("function", "a"),
            node("none", "(){}"),
        ]
    );
    let first = lines_from_nodes(tokens.clone(), QueryRule::FirstWins);
    assert_eq!(
        first,
        vec![vec![node("none", "fn "), node("variable", "a"), node("none", "(){}")]]
    );
    let last = lines_from_nodes(tokens, QueryRule::LastWins);
    assert_eq!(
        last,
        vec![vec![node("none", "fn "), node("function", "a"), node("none", "(){}")]]
    );
}

#[test]
fn lines_are_cut_after_duplicates_are_resolved() {
    let tokens = vec![node("none", "a\n"), node("x", "b"), node("none", "a\n"), node("y", "c")];
    let lines = lines_from_nodes(tokens, QueryRule::LastWins);
    assert_eq!(
        lines,
        vec![vec![node("x", "b"), node("none", "a")], vec![node("y", "c")]]
    );
}

#[test]
fn highlighted_text_comes_in_lines() {
    let code = "fn one() {}\nfn two() {}\n";
    let lines = highlight(code, NAMES, QueryRule::LastWins).unwrap();
    assert_eq!(
        lines,
        vec![
            vec![node("none", "fn "), node("function", "one"), node("none", "() {}")],
            vec![node("none", "fn "), node("function", "two"), node("none", "() {}")],
        ]
    );
}

#[test]
fn highlighting_reports_a_bad_query() {
    let result = highlight("fn a(){}", "(((", QueryRule::FirstWins);
    assert_eq!(result, Err(HighlightError::QueryCompilationError));
}

#[test]
fn the_bundled_query_highlights_a_function() {
    let code = "fn main() {\n    let answer = 42;\n}\n";
    let tokens = process_string(code, tree_sitter_rust::HIGHLIGHT_QUERY).unwrap();
    assert!(tokens.contains(&node("keyword", "fn")));
    assert!(tokens.contains(&node("function", "main")));
    assert!(tokens.contains(&node("keyword", "let")));
    let lines = split_into_lines(split_newline_nodes(tokens));
    assert_eq!(lines.len(), 3);
    assert_eq!(lines[2], vec![node("punctuation.bracket", "}")]);
}
