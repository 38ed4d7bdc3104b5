//! The token that every stage of the highlighter consumes and produces.

use vstd::prelude::*;

verus! {

/// A piece of source text together with the label it is highlighted under.
///
/// `node_type` is `"none"` for plain text, `"newline"` for a line-break
/// marker, and a capture name (`"function"`, `"comment"`, ...) otherwise.
#[derive(Clone, Debug, PartialEq, Eq)]
pub struct Node {
    pub node_type: String,
    pub element_text: String,
}

/// The mathematical value of a [`Node`]: its label and its text as sequences
/// of characters.
pub struct Token {
    pub kind: Seq<char>,
    pub text: Seq<char>,
}

impl View for Node {
    type V = Token;

    open spec fn view(&self) -> Token {
        Token { kind: self.node_type@, text: self.element_text@ }
    }
}

impl DeepView for Node {
    type V = Token;

    open spec fn deep_view(&self) -> Token {
        self@
    }
}

/// The label of plain, uncaptured text.
pub open spec fn plain_kind() -> Seq<char> {
    "none"@
}

/// The label of a line-break marker.
pub open spec fn newline_kind() -> Seq<char> {
    "newline"@
}

/// The label of plain text is not the label of a line-break marker.
pub proof fn lemma_plain_is_no_marker()
    ensures
        plain_kind() != newline_kind(),
{
    reveal_strlit("none");
    reveal_strlit("newline");
    assert(plain_kind().len() == 4);
    assert(newline_kind().len() == 7);
}

/// The line-break marker: a token of kind `"newline"` whose text is the
/// single newline character.
pub open spec fn newline_token() -> Token {
    Token { kind: newline_kind(), text: seq!['\n'] }
}

/// The texts of `tokens`, joined in order.
pub open spec fn concat_texts(tokens: Seq<Token>) -> Seq<char>
    decreases tokens.len(),
{
    if tokens.len() == 0 {
        Seq::empty()
    } else {
        concat_texts(tokens.drop_last()) + tokens.last().text
    }
}

/// Joining the texts of two runs of tokens joins their texts.
pub proof fn lemma_concat_texts_join(left: Seq<Token>, right: Seq<Token>)
    ensures
        concat_texts(left + right) == concat_texts(left) + concat_texts(right),
    decreases right.len(),
{
    if right.len() > 0 {
        lemma_concat_texts_join(left, right.drop_last());
        assert((left + right).drop_last() =~= left + right.drop_last());
    }
}

/// The joined text of a single token is its text.
pub proof fn lemma_concat_texts_one(token: Token)
    ensures
        concat_texts(seq![token]) == token.text,
{
    assert(seq![token].drop_last() =~= Seq::<Token>::empty());
    assert(concat_texts(Seq::<Token>::empty()) =~= Seq::<char>::empty());
}

impl Default for Node {
    /// A plain token with no text.
    fn default() -> (node: Node)
        ensures
            node@ == (Token { kind: plain_kind(), text: Seq::empty() }),
    {
        Node { node_type: "none".to_owned(), element_text: String::new() }
    }
}

/// Which of several tokens with the same text is kept.
#[derive(Clone, Copy, Debug, PartialEq, Eq)]
pub enum QueryRule {
    /// The earliest token with a given text is kept.
    FirstWins,
    /// The latest token with a given text is kept.
    LastWins,
}

} // verus!
