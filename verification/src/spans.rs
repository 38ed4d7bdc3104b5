//! The span normalizer: turns the spans captured over a source text into a
//! flat sequence of tokens, with a plain token for every stretch of text that
//! the spans leave uncaptured.

use crate::error::HighlightError;
use crate::text::{
    byte_slice, is_cut, lemma_byte_slice_empty, lemma_byte_slice_join, lemma_byte_slice_whole,
    lemma_cut_in_bounds, slice_between,
};
use crate::token::{
    concat_texts, lemma_concat_texts_join, lemma_concat_texts_one, plain_kind, Node, Token,
};
use vstd::prelude::*;
use vstd::utf8::encode_utf8;

verus! {

/// A capture reported by the parser: a capture name and the byte range of
/// the source text that it covers.
#[derive(Clone, Debug, PartialEq, Eq)]
pub struct CaptureSpan {
    pub name: String,
    pub start: usize,
    pub end: usize,
}

/// The mathematical value of a [`CaptureSpan`].
pub struct Span {
    pub name: Seq<char>,
    pub start: int,
    pub end: int,
}

impl View for CaptureSpan {
    type V = Span;

    open spec fn view(&self) -> Span {
        Span { name: self.name@, start: self.start as int, end: self.end as int }
    }
}

impl DeepView for CaptureSpan {
    type V = Span;

    open spec fn deep_view(&self) -> Span {
        self@
    }
}

/// True when `span` addresses a piece of `source`: its offsets are in order
/// and both cut the text.
pub open spec fn span_fits(source: Seq<char>, span: Span) -> bool {
    &&& span.start <= span.end
    &&& is_cut(source, span.start)
    &&& is_cut(source, span.end)
}

/// True when every span of `spans` addresses a piece of `source`.
pub open spec fn spans_fit(source: Seq<char>, spans: Seq<Span>) -> bool {
    forall|i: int| 0 <= i < spans.len() ==> span_fits(source, #[trigger] spans[i])
}

/// The offset up to which the text counts as consumed once `spans` have been
/// emitted: the end of the last span, or the start of the text.
pub open spec fn cursor_after(spans: Seq<Span>) -> int {
    if spans.len() == 0 {
        0
    } else {
        spans.last().end
    }
}

/// The plain token for the text from `from` to `to`, if `to` lies past `from`.
pub open spec fn gap(source: Seq<char>, from: int, to: int) -> Seq<Token> {
    if from < to {
        seq![Token { kind: plain_kind(), text: byte_slice(source, from, to) }]
    } else {
        Seq::empty()
    }
}

/// The token of a span: its capture name and the text it covers.
pub open spec fn span_token(source: Seq<char>, span: Span) -> Token {
    Token { kind: span.name, text: byte_slice(source, span.start, span.end) }
}

/// The tokens emitted for `spans`: for each span in turn, a plain token for
/// the text between the end of the span before it and its start, if it
/// starts later, and then its own token.
pub open spec fn captured(source: Seq<char>, spans: Seq<Span>) -> Seq<Token>
    decreases spans.len(),
{
    if spans.len() == 0 {
        Seq::empty()
    } else {
        captured(source, spans.drop_last()) + gap(
            source,
            cursor_after(spans.drop_last()),
            spans.last().start,
        ) + seq![span_token(source, spans.last())]
    }
}

/// The tokens of `source` under `spans`: those emitted for the spans, and a
/// plain token for the text that follows the last span, if any.
pub open spec fn normalize(source: Seq<char>, spans: Seq<Span>) -> Seq<Token> {
    captured(source, spans) + gap(
        source,
        cursor_after(spans),
        encode_utf8(source).len() as int,
    )
}

/// True when each span starts where the one before it ended, or later.
pub open spec fn spans_in_sequence(spans: Seq<Span>) -> bool {
    forall|i: int| 0 < i < spans.len() ==> spans[i - 1].end <= (#[trigger] spans[i]).start
}

/// Under spans in sequence, the tokens emitted for them spell the text up
/// to the end of the last span.
proof fn lemma_captured_text(source: Seq<char>, spans: Seq<Span>)
    requires
        spans_fit(source, spans),
        spans_in_sequence(spans),
    ensures
        is_cut(source, cursor_after(spans)),
        concat_texts(captured(source, spans)) == byte_slice(source, 0, cursor_after(spans)),
    decreases spans.len(),
{
    lemma_byte_slice_whole(source);
    if spans.len() == 0 {
        lemma_byte_slice_empty(source, 0);
    } else {
        let before = spans.drop_last();
        let last = spans.last();
        assert forall|i: int| 0 < i < before.len() implies before[i - 1].end <= (
        #[trigger] before[i]).start by {
            assert(spans[i - 1].end <= spans[i].start);
        }
        lemma_captured_text(source, before);
        let cursor = cursor_after(before);
        lemma_cut_in_bounds(source, cursor);
        lemma_cut_in_bounds(source, last.start);
        assert(cursor <= last.start) by {
            if before.len() > 0 {
                assert(spans[spans.len() - 2].end <= spans[spans.len() - 1].start);
            }
        }
        let filler = gap(source, cursor, last.start);
        assert(concat_texts(filler) == byte_slice(source, cursor, last.start)) by {
            if cursor < last.start {
                lemma_concat_texts_one(filler[0]);
            } else {
                lemma_byte_slice_empty(source, cursor);
            }
        }
        lemma_concat_texts_one(span_token(source, last));
        lemma_concat_texts_join(captured(source, before), filler);
        lemma_concat_texts_join(captured(source, before) + filler, seq![span_token(source, last)]);
        lemma_byte_slice_join(source, 0, cursor, last.start);
        lemma_byte_slice_join(source, 0, last.start, last.end);
    }
}

/// Under spans that address the text and follow one another without
/// overlap, the texts of the tokens, joined, are the source text: nothing is
/// left out and nothing comes twice.
pub proof fn lemma_normalize_covers(source: Seq<char>, spans: Seq<Span>)
    requires
        spans_fit(source, spans),
        spans_in_sequence(spans),
    ensures
        concat_texts(normalize(source, spans)) == source,
{
    let end = encode_utf8(source).len() as int;
    let cursor = cursor_after(spans);
    lemma_captured_text(source, spans);
    lemma_byte_slice_whole(source);
    lemma_cut_in_bounds(source, cursor);
    let filler = gap(source, cursor, end);
    assert(concat_texts(filler) == byte_slice(source, cursor, end)) by {
        if cursor < end {
            lemma_concat_texts_one(filler[0]);
        } else {
            lemma_byte_slice_empty(source, cursor);
        }
    }
    lemma_concat_texts_join(captured(source, spans), filler);
    lemma_byte_slice_join(source, 0, cursor, end);
}

/// Turns the spans captured over `code` into tokens that follow the order of
/// the spans.
///
/// Each span yields a token with the capture name as its label and the text
/// that the span covers. Before it stands a plain token for the text between
/// the end of the span before it and its start, where there is such text, and
/// after the last span a plain token for the rest of `code`. A span that lies
/// within text already emitted still yields its own token.
///
/// Fails with [`HighlightError::MalformedSpan`] exactly when some span does
/// not address a piece of `code`.
pub fn normalize_spans(code: &str, spans: Vec<CaptureSpan>) -> (tokens: Result<
    Vec<Node>,
    HighlightError,
>)
    ensures
        match tokens {
            Ok(nodes) => {
                &&& spans_fit(code@, spans.deep_view())
                &&& nodes.deep_view() == normalize(code@, spans.deep_view())
            },
            Err(error) => {
                &&& error == HighlightError::MalformedSpan
                &&& !spans_fit(code@, spans.deep_view())
            },
        },
{
    let ghost all = spans.deep_view();
    let mut nodes: Vec<Node> = Vec::new();
    let mut cursor: usize = 0;
    proof {
        lemma_byte_slice_whole(code@);
    }
    for span in iter: spans
        invariant
            all == spans.deep_view(),
            iter.seq() == spans@,
            spans_fit(code@, all.take(iter.index() as int)),
            nodes.deep_view() == captured(code@, all.take(iter.index() as int)),
            cursor == cursor_after(all.take(iter.index() as int)),
            is_cut(code@, cursor as int),
    {
        let ghost done = iter.index() as int;
        proof {
            assert(all[done] == span@);
            assert(all.take(done + 1).drop_last() =~= all.take(done));
        }
        if span.start > span.end || !code.is_char_boundary(span.start) || !code.is_char_boundary(
            span.end,
        ) {
            return Err(HighlightError::MalformedSpan);
        }
        if span.start > cursor {
            let filler = Node {
                node_type: "none".to_owned(),
                element_text: slice_between(code, cursor, span.start).to_owned(),
            };
            nodes.push(filler);
        }
        let node = Node {
            node_type: span.name,
            element_text: slice_between(code, span.start, span.end).to_owned(),
        };
        cursor = span.end;
        nodes.push(node);
        proof {
            assert forall|i: int| 0 <= i < done + 1 implies span_fits(
                code@,
                #[trigger] all.take(done + 1)[i],
            ) by {
                if i < done {
                    assert(all.take(done + 1)[i] == all.take(done)[i]);
                }
            }
        }
    }
    proof {
        assert(all.take(all.len() as int) =~= all);
    }
    let end = code.as_bytes().len();
    if end > cursor {
        let filler = Node {
            node_type: "none".to_owned(),
            element_text: slice_between(code, cursor, end).to_owned(),
        };
        nodes.push(filler);
    }
    Ok(nodes)
}

} // verus!
