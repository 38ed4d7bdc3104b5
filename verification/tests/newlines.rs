use highlighter::newlines::split_newline_nodes;
use highlighter::token::Node;

fn node(kind: &str, text: &str) -> Node {
    Node { node_type: kind.to_string(), element_text: text.to_string() }
}

#[test]
fn a_token_without_newline_is_passed_on() {
    let tokens = vec![node("keyword", "fn"), node("none", " ")];
    assert_eq!(split_newline_nodes(tokens.clone()), tokens);
}

#[test]
fn a_token_without_text_is_passed_on() {
    let tokens = vec![node("missing", "")];
    assert_eq!(split_newline_nodes(tokens.clone()), tokens);
}

#[test]
fn fragments_keep_the_label_of_the_token() {
    let split = split_newline_nodes(vec![node("comment", "/* a\n b\n c */")]);
    assert_eq!(
        split,
        vec![
            node("comment", "/* a"),
            node("newline", "\n"),
            node("comment", " b"),
            node("newline", "\n"),
            node("comment", " c */"),
        ]
    );
}

#[test]
fn consecutive_newlines_have_no_fragment_between_them() {
    let split = split_newline_nodes(vec![node("none", "a\n\nb")]);
    assert_eq!(
        split,
        vec![
            node("none", "a"),
            node("newline", "\n"),
            node("newline", "\n"),
            node("none", "b"),
        ]
    );
}

#[test]
fn a_leading_newline_has_no_fragment_before_it() {
    let split = split_newline_nodes(vec![node("none", "\nb")]);
    assert_eq!(split, vec![node("newline", "\n"), node("none", "b")]);
}

#[test]
fn a_trailing_newline_has_no_fragment_after_it() {
    let split = split_newline_nodes(vec![node("none", "a\n")]);
    assert_eq!(split, vec![node("none", "a"), node("newline", "\n")]);
}

#[test]
fn a_lone_newline_becomes_a_marker() {
    let split = split_newline_nodes(vec![node("none", "\n")]);
    assert_eq!(split, vec![node("newline", "\n")]);
}

#[test]
fn characters_of_several_bytes_are_kept_whole() {
    let split = split_newline_nodes(vec![node("string", "é\nü€\n𝄞")]);
    assert_eq!(
        split,
        vec![
            node("string", "é"),
            node("newline", "\n"),
            node("string", "ü€"),
            node("newline", "\n"),
            node("string", "𝄞"),
        ]
    );
}

#[test]
fn carriage_returns_stay_in_the_fragment() {
    let split = split_newline_nodes(vec![node("none", "a\r\nb")]);
    assert_eq!(split, vec![node("none", "a\r"), node("newline", "\n"), node("none", "b")]);
}

#[test]
fn the_order_of_the_tokens_is_kept() {
    let tokens = vec![node("a", "1\n2"), node("b", "3"), node("c", "\n4")];
    let split = split_newline_nodes(tokens);
    assert_eq!(
        split,
        vec![
            node("a", "1"),
            node("newline", "\n"),
            node("a", "2"),
            node("b", "3"),
            node("newline", "\n"),
            node("c", "4"),
        ]
    );
}

#[test]
fn splitting_twice_is_splitting_once() {
    let tokens = vec![
        node("comment", "// a\n"),
        node("none", "\n\n  "),
        node("string", "\"x\ny\""),
        node("missing", ""),
    ];
    let once = split_newline_nodes(tokens);
    let twice = split_newline_nodes(once.clone());
    assert_eq!(twice, once);
}

#[test]
fn splitting_keeps_every_character() {
    let tokens = vec![node("comment", "// a\n"), node("none", "\n\n  "), node("x", "y\nz")];
    let mut before = String::new();
    for token in &tokens {
        before.push_str(&token.element_text);
    }
    let mut after = String::new();
    for token in &split_newline_nodes(tokens) {
        after.push_str(&token.element_text);
    }
    assert_eq!(after, before);
    assert_eq!(after.len(), 12);
}

#[test]
fn no_tokens_split_to_none() {
    assert!(split_newline_nodes(vec![]).is_empty());
}
