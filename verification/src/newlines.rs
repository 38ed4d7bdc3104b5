//! The newline splitter: turns every token whose text spans several lines
//! into fragments of that text and line-break markers.

use crate::text::{first_newline, lemma_first_newline, split_at_newline};
use crate::token::{
    concat_texts, lemma_concat_texts_join, lemma_concat_texts_one, newline_token, Node, Token,
};
use vstd::prelude::*;

verus! {

/// A stretch of text between two line breaks as a token, unless it is empty.
pub open spec fn fragment(kind: Seq<char>, text: Seq<char>) -> Seq<Token> {
    if text.len() == 0 {
        Seq::empty()
    } else {
        seq![Token { kind, text }]
    }
}

/// The fragments of `text` and the markers of the line breaks between them,
/// in the order of the text.
pub open spec fn pieces(kind: Seq<char>, text: Seq<char>) -> Seq<Token>
    decreases text.len(),
{
    let at = first_newline(text);
    if 0 <= at < text.len() {
        fragment(kind, text.take(at)) + seq![newline_token()] + pieces(kind, text.skip(at + 1))
    } else {
        fragment(kind, text)
    }
}

/// What the splitter makes of one token: the token itself when its text has
/// no newline, its pieces otherwise.
pub open spec fn split_token(token: Token) -> Seq<Token> {
    if token.text.contains('\n') {
        pieces(token.kind, token.text)
    } else {
        seq![token]
    }
}

/// What the splitter makes of a sequence of tokens.
pub open spec fn split_tokens(tokens: Seq<Token>) -> Seq<Token>
    decreases tokens.len(),
{
    if tokens.len() == 0 {
        Seq::empty()
    } else {
        split_tokens(tokens.drop_last()) + split_token(tokens.last())
    }
}

/// True when `token` needs no splitting: it is a line-break marker, or its
/// text has no newline.
pub open spec fn is_single_line(token: Token) -> bool {
    token == newline_token() || !token.text.contains('\n')
}

/// True when no token of `tokens` needs splitting.
pub open spec fn all_single_line(tokens: Seq<Token>) -> bool {
    forall|i: int| 0 <= i < tokens.len() ==> is_single_line(#[trigger] tokens[i])
}

/// The pieces of a text are fragments without a newline and line-break
/// markers, and their texts make up the text again.
pub proof fn lemma_pieces(kind: Seq<char>, text: Seq<char>)
    ensures
        all_single_line(pieces(kind, text)),
        concat_texts(pieces(kind, text)) == text,
    decreases text.len(),
{
    lemma_first_newline(text);
    let at = first_newline(text);
    if 0 <= at < text.len() {
        let head = text.take(at);
        let tail = text.skip(at + 1);
        lemma_pieces(kind, tail);
        let front = fragment(kind, head) + seq![newline_token()];
        assert(concat_texts(fragment(kind, head)) == head) by {
            if head.len() > 0 {
                lemma_concat_texts_one(Token { kind, text: head });
            }
        }
        lemma_concat_texts_one(newline_token());
        lemma_concat_texts_join(fragment(kind, head), seq![newline_token()]);
        lemma_concat_texts_join(front, pieces(kind, tail));
        assert forall|i: int| 0 <= i < pieces(kind, text).len() implies is_single_line(
            #[trigger] pieces(kind, text)[i],
        ) by {
            if head.contains('\n') {
                let j = choose|j: int| 0 <= j < head.len() && head[j] == '\n';
                assert(text[j] == '\n');
            }
        }
    } else {
        if text.len() > 0 {
            lemma_concat_texts_one(Token { kind, text });
        }
    }
}

/// A line-break marker, split, is itself.
proof fn lemma_split_marker()
    ensures
        split_token(newline_token()) == seq![newline_token()],
{
    let text = seq!['\n'];
    let kind = newline_token().kind;
    assert(text.contains('\n')) by {
        assert(text[0] == '\n');
    }
    assert(text.skip(1) =~= Seq::<char>::empty());
    assert(pieces(kind, Seq::<char>::empty()) =~= Seq::<Token>::empty());
}

/// Tokens that need no splitting are left as they are.
pub proof fn lemma_split_single_line(tokens: Seq<Token>)
    requires
        all_single_line(tokens),
    ensures
        split_tokens(tokens) == tokens,
    decreases tokens.len(),
{
    if tokens.len() > 0 {
        lemma_split_single_line(tokens.drop_last());
        lemma_split_marker();
    }
}

/// Every token that the splitter yields is a line-break marker or has no
/// newline in its text, and the texts of the tokens it yields, joined, are
/// the joined texts of the tokens it was given.
pub proof fn lemma_split_tokens(tokens: Seq<Token>)
    ensures
        all_single_line(split_tokens(tokens)),
        concat_texts(split_tokens(tokens)) == concat_texts(tokens),
    decreases tokens.len(),
{
    if tokens.len() > 0 {
        let before = tokens.drop_last();
        let last = tokens.last();
        lemma_split_tokens(before);
        lemma_concat_texts_join(split_tokens(before), split_token(last));
        if last.text.contains('\n') {
            lemma_pieces(last.kind, last.text);
        } else {
            lemma_concat_texts_one(last);
        }
        assert forall|i: int| 0 <= i < split_tokens(tokens).len() implies is_single_line(
            #[trigger] split_tokens(tokens)[i],
        ) by {}
    }
}

/// Splitting is idempotent: splitting what the splitter yielded changes
/// nothing.
pub proof fn lemma_split_twice(tokens: Seq<Token>)
    ensures
        split_tokens(split_tokens(tokens)) == split_tokens(tokens),
{
    lemma_split_tokens(tokens);
    lemma_split_single_line(split_tokens(tokens));
}

/// Appends the pieces of `text`, which has a newline, to `out`.
fn push_pieces(kind: &String, text: &str, out: &mut Vec<Node>)
    ensures
        final(out).deep_view() == old(out).deep_view() + pieces(kind@, text@),
{
    let mut rest: &str = text;
    loop
        invariant
            old(out).deep_view() + pieces(kind@, text@) == out.deep_view() + pieces(kind@, rest@),
        decreases rest@.len(),
    {
        proof {
            lemma_first_newline(rest@);
        }
        match split_at_newline(rest) {
            None => {
                if !rest.is_empty() {
                    let node = Node { node_type: kind.clone(), element_text: rest.to_owned() };
                    out.push(node);
                }
                return ;
            },
            Some((head, tail)) => {
                if !head.is_empty() {
                    let node = Node { node_type: kind.clone(), element_text: head.to_owned() };
                    out.push(node);
                }
                let marker = Node {
                    node_type: "newline".to_owned(),
                    element_text: "\n".to_owned(),
                };
                proof {
                    reveal_strlit("\n");
                    assert(marker@.text =~= seq!['\n']);
                }
                out.push(marker);
                rest = tail;
            },
        }
    }
}

/// Splits every token whose text holds a newline into the fragments of its
/// text, each under the token's own label, and one line-break marker for each
/// newline. A token without a newline is passed on as it is.
pub fn split_newline_nodes(nodes: Vec<Node>) -> (split: Vec<Node>)
    ensures
        split.deep_view() == split_tokens(nodes.deep_view()),
{
    let mut split: Vec<Node> = Vec::new();
    let ghost tokens = nodes.deep_view();
    for node in iter: nodes
        invariant
            tokens == nodes.deep_view(),
            iter.seq() == nodes@,
            split.deep_view() == split_tokens(tokens.take(iter.index() as int)),
    {
        let ghost done = iter.index() as int;
        proof {
            assert(tokens.take(done + 1).drop_last() =~= tokens.take(done));
        }
        match split_at_newline(node.element_text.as_str()) {
            None => {
                split.push(node);
            },
            Some(_) => {
                push_pieces(&node.node_type, node.element_text.as_str(), &mut split);
            },
        }
    }
    proof {
        assert(tokens.take(tokens.len() as int) =~= tokens);
    }
    split
}

} // verus!
