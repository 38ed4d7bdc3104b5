use highlighter::token::{Node, QueryRule};

#[test]
fn the_default_token_is_plain_and_empty() {
    let token = Node::default();
    assert_eq!(token.node_type, "none");
    assert_eq!(token.element_text, "");
}

#[test]
fn tokens_are_cloned_field_by_field() {
    let token = Node { node_type: "function".to_string(), element_text: "main".to_string() };
    let copy = token.clone();
    assert_eq!(copy, token);
    assert_eq!(format!("{:?}", copy), format!("{:?}", token));
}

#[test]
fn the_two_rules_differ() {
    assert_ne!(QueryRule::FirstWins, QueryRule::LastWins);
    assert_eq!(QueryRule::LastWins.clone(), QueryRule::LastWins);
}
