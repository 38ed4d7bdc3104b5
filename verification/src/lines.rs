//! The line segmenter: cuts a flat sequence of tokens into lines at the
//! line-break markers.

use crate::newlines::{fragment, pieces, split_token, split_tokens};
use crate::text::{
    first_newline, lemma_first_newline, lemma_newline_count_join, lemma_newline_count_zero,
    newline_count,
};
use crate::token::{concat_texts, newline_kind, newline_token, Node, Token};
use vstd::prelude::*;

verus! {

/// True when `token` ends a line: its label is `"newline"`.
pub open spec fn is_break(token: Token) -> bool {
    token.kind == newline_kind()
}

/// The tokens that follow the last line break of `tokens`: the line that is
/// still open at its end.
pub open spec fn open_line(tokens: Seq<Token>) -> Seq<Token>
    decreases tokens.len(),
{
    if tokens.len() == 0 || is_break(tokens.last()) {
        Seq::empty()
    } else {
        open_line(tokens.drop_last()).push(tokens.last())
    }
}

/// The lines of `tokens` that a line break has closed, in order. A line
/// holds the tokens between two breaks, and none where one break follows
/// another.
pub open spec fn closed_lines(tokens: Seq<Token>) -> Seq<Seq<Token>>
    decreases tokens.len(),
{
    if tokens.len() == 0 {
        Seq::empty()
    } else if is_break(tokens.last()) {
        closed_lines(tokens.drop_last()).push(open_line(tokens.drop_last()))
    } else {
        closed_lines(tokens.drop_last())
    }
}

/// The lines of `tokens`: the closed ones, and the open one unless it is
/// empty.
pub open spec fn segment(tokens: Seq<Token>) -> Seq<Seq<Token>> {
    if open_line(tokens).len() == 0 {
        closed_lines(tokens)
    } else {
        closed_lines(tokens).push(open_line(tokens))
    }
}

/// The number of line breaks among `tokens`.
pub open spec fn count_breaks(tokens: Seq<Token>) -> nat
    decreases tokens.len(),
{
    if tokens.len() == 0 {
        0
    } else if is_break(tokens.last()) {
        count_breaks(tokens.drop_last()) + 1
    } else {
        count_breaks(tokens.drop_last())
    }
}

/// True when no token of `line` is a line break.
pub open spec fn break_free(line: Seq<Token>) -> bool {
    forall|i: int| 0 <= i < line.len() ==> !is_break(#[trigger] line[i])
}

/// The open line holds no line break, and it is empty exactly when the
/// tokens are none or end in a line break.
pub proof fn lemma_open_line(tokens: Seq<Token>)
    ensures
        break_free(open_line(tokens)),
        open_line(tokens).len() == 0 <==> tokens.len() == 0 || is_break(tokens.last()),
    decreases tokens.len(),
{
    if tokens.len() > 0 && !is_break(tokens.last()) {
        lemma_open_line(tokens.drop_last());
    }
}

/// There is one closed line for each line break, and none of them holds a
/// line break.
pub proof fn lemma_closed_lines(tokens: Seq<Token>)
    ensures
        closed_lines(tokens).len() == count_breaks(tokens),
        forall|i: int|
            0 <= i < closed_lines(tokens).len() ==> break_free(#[trigger] closed_lines(tokens)[i]),
    decreases tokens.len(),
{
    if tokens.len() > 0 {
        lemma_closed_lines(tokens.drop_last());
        lemma_open_line(tokens.drop_last());
    }
}

/// The line count: one line for each line break, and one more when tokens
/// follow the last of them. No line holds a line break.
pub proof fn lemma_segment(tokens: Seq<Token>)
    ensures
        segment(tokens).len() == count_breaks(tokens) + if tokens.len() > 0 && !is_break(
            tokens.last(),
        ) {
            1nat
        } else {
            0nat
        },
        forall|i: int| 0 <= i < segment(tokens).len() ==> break_free(#[trigger] segment(tokens)[i]),
{
    lemma_closed_lines(tokens);
    lemma_open_line(tokens);
}

/// The line breaks of a sequence of tokens are those of its parts.
pub proof fn lemma_count_breaks_join(left: Seq<Token>, right: Seq<Token>)
    ensures
        count_breaks(left + right) == count_breaks(left) + count_breaks(right),
    decreases right.len(),
{
    if right.len() > 0 {
        lemma_count_breaks_join(left, right.drop_last());
        assert((left + right).drop_last() =~= left + right.drop_last());
    }
}

/// The pieces of a text under a label other than `"newline"` hold one line
/// break for each newline of the text, and end in one exactly when the text
/// ends in a newline.
proof fn lemma_pieces_breaks(kind: Seq<char>, text: Seq<char>)
    requires
        kind != newline_kind(),
    ensures
        count_breaks(pieces(kind, text)) == newline_count(text),
        text.len() > 0 ==> pieces(kind, text).len() > 0 && (is_break(pieces(kind, text).last())
            <==> text.last() == '\n'),
    decreases text.len(),
{
    lemma_first_newline(text);
    lemma_newline_count_zero(text);
    let at = first_newline(text);
    let one = seq![newline_token()];
    assert(count_breaks(Seq::<Token>::empty()) == 0);
    assert(count_breaks(one) == 1) by {
        assert(one.drop_last() =~= Seq::<Token>::empty());
    }
    if 0 <= at < text.len() {
        let head = text.take(at);
        let tail = text.skip(at + 1);
        lemma_pieces_breaks(kind, tail);
        assert(count_breaks(fragment(kind, head)) == 0) by {
            if head.len() > 0 {
                assert(fragment(kind, head).drop_last() =~= Seq::<Token>::empty());
            }
        }
        lemma_count_breaks_join(fragment(kind, head), one);
        lemma_count_breaks_join(fragment(kind, head) + one, pieces(kind, tail));
        assert(text =~= head + seq!['\n'] + tail);
        assert(!head.contains('\n')) by {
            if head.contains('\n') {
                let j = choose|j: int| 0 <= j < head.len() && head[j] == '\n';
                assert(text[j] == '\n');
            }
        }
        lemma_newline_count_zero(head);
        assert(newline_count(seq!['\n']) == 1) by {
            assert(seq!['\n'].drop_last() =~= Seq::<char>::empty());
            assert(newline_count(Seq::<char>::empty()) == 0);
        }
        lemma_newline_count_join(head, seq!['\n']);
        lemma_newline_count_join(head + seq!['\n'], tail);
    } else if text.len() > 0 {
        assert(fragment(kind, text).drop_last() =~= Seq::<Token>::empty());
    }
}

/// What the splitter makes of a token with a label other than `"newline"`
/// holds one line break for each newline of its text.
proof fn lemma_split_token_breaks(token: Token)
    requires
        !is_break(token),
    ensures
        count_breaks(split_token(token)) == newline_count(token.text),
        token.text.len() > 0 ==> split_token(token).len() > 0 && (is_break(
            split_token(token).last(),
        ) <==> token.text.last() == '\n'),
{
    lemma_newline_count_zero(token.text);
    if token.text.contains('\n') {
        lemma_pieces_breaks(token.kind, token.text);
    } else {
        assert(seq![token].drop_last() =~= Seq::<Token>::empty());
        assert(count_breaks(Seq::<Token>::empty()) == 0);
    }
}

/// Split tokens hold one line break for each newline of the text, where no
/// token was labelled `"newline"` to begin with.
pub proof fn lemma_split_breaks(tokens: Seq<Token>)
    requires
        break_free(tokens),
    ensures
        count_breaks(split_tokens(tokens)) == newline_count(concat_texts(tokens)),
    decreases tokens.len(),
{
    if tokens.len() > 0 {
        let before = tokens.drop_last();
        let last = tokens.last();
        assert forall|i: int| 0 <= i < before.len() implies !is_break(#[trigger] before[i]) by {
            assert(before[i] == tokens[i]);
        }
        lemma_split_breaks(before);
        lemma_split_token_breaks(last);
        lemma_count_breaks_join(split_tokens(before), split_token(last));
        lemma_newline_count_join(concat_texts(before), last.text);
    }
}

/// The line count in terms of the text. Take tokens of which none is
/// labelled `"newline"` and the last has a text, split them and cut them into
/// lines: there is one line for each newline of their joined text, and one
/// more when that text does not end in a newline.
pub proof fn lemma_line_count(tokens: Seq<Token>)
    requires
        break_free(tokens),
        tokens.len() > 0 ==> tokens.last().text.len() > 0,
    ensures
        segment(split_tokens(tokens)).len() == newline_count(concat_texts(tokens)) + if concat_texts(
            tokens,
        ).len() > 0 && concat_texts(tokens).last() != '\n' {
            1nat
        } else {
            0nat
        },
{
    lemma_split_breaks(tokens);
    lemma_segment(split_tokens(tokens));
    if tokens.len() > 0 {
        lemma_split_token_breaks(tokens.last());
    }
}

/// Cuts `nodes` into lines. Every token labelled `"newline"` closes the line
/// that the tokens before it have built up, empty or not, and is itself
/// dropped. The tokens after the last such token form a last line, unless
/// there are none.
pub fn split_into_lines(nodes: Vec<Node>) -> (lines: Vec<Vec<Node>>)
    ensures
        lines.deep_view() == segment(nodes.deep_view()),
{
    let ghost tokens = nodes.deep_view();
    let marker = "newline".to_owned();
    let mut lines: Vec<Vec<Node>> = Vec::new();
    let mut current_line: Vec<Node> = Vec::new();
    for node in iter: nodes
        invariant
            tokens == nodes.deep_view(),
            iter.seq() == nodes@,
            marker@ == newline_kind(),
            lines.deep_view() == closed_lines(tokens.take(iter.index() as int)),
            current_line.deep_view() == open_line(tokens.take(iter.index() as int)),
    {
        let ghost done = iter.index() as int;
        proof {
            assert(tokens.take(done + 1).drop_last() =~= tokens.take(done));
        }
        if node.node_type == marker {
            lines.push(current_line);
            current_line = Vec::new();
        } else {
            current_line.push(node);
        }
    }
    proof {
        assert(tokens.take(tokens.len() as int) =~= tokens);
    }
    if !current_line.is_empty() {
        lines.push(current_line);
    }
    lines
}

} // verus!
