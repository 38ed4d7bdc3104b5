//! The way from a source text to its tokens and lines, with tree-sitter as
//! the parser that captures the spans.

use crate::dedup::{resolve, resolve_duplicate_nodes};
use crate::error::HighlightError;
use crate::lines::{break_free, lemma_line_count, segment, split_into_lines};
use crate::newlines::{split_newline_nodes, split_tokens};
use crate::spans::{
    captured, cursor_after, lemma_normalize_covers, normalize, normalize_spans, span_fits,
    spans_fit, spans_in_sequence, CaptureSpan, Span,
};
use crate::text::{
    lemma_byte_slice_nonempty, lemma_byte_slice_whole, lemma_cut_in_bounds, newline_count,
};
use crate::token::{lemma_plain_is_no_marker, newline_kind, Node, QueryRule, Token};
use tree_sitter::{Parser, Query, QueryCursor};
use vstd::prelude::*;
use vstd::utf8::encode_utf8;

verus! {

/// The lines of already normalized tokens: duplicates resolved under
/// `rule`, multi-line tokens split, and the result cut at the line breaks.
pub open spec fn lines_of(tokens: Seq<Token>, rule: QueryRule) -> Seq<Seq<Token>> {
    segment(split_tokens(resolve(tokens, rule)))
}

/// The tokens emitted for spans of which none is named `"newline"` hold no
/// line break.
proof fn lemma_captured_break_free(source: Seq<char>, spans: Seq<Span>)
    requires
        forall|i: int| 0 <= i < spans.len() ==> (#[trigger] spans[i]).name != newline_kind(),
    ensures
        break_free(captured(source, spans)),
    decreases spans.len(),
{
    if spans.len() > 0 {
        let before = spans.drop_last();
        assert forall|i: int| 0 <= i < before.len() implies (#[trigger] before[i]).name
            != newline_kind() by {
            assert(before[i] == spans[i]);
        }
        lemma_captured_break_free(source, before);
        lemma_plain_is_no_marker();
        assert(spans[spans.len() - 1].name != newline_kind());
    }
}

/// The lines of a source text, when its tokens go to the splitter and the
/// segmenter as they are. Take spans that address the text, follow one
/// another without overlap and are not named `"newline"`, the last of which
/// is not an empty span at the very end of the text: there is one line for
/// each newline of the text, and one more when the text does not end in a
/// newline.
pub proof fn lemma_source_line_count(source: Seq<char>, spans: Seq<Span>)
    requires
        spans_fit(source, spans),
        spans_in_sequence(spans),
        forall|i: int| 0 <= i < spans.len() ==> (#[trigger] spans[i]).name != newline_kind(),
        spans.len() > 0 && spans.last().end == encode_utf8(source).len() ==> spans.last().start
            < spans.last().end,
    ensures
        segment(split_tokens(normalize(source, spans))).len() == newline_count(source) + if source.len()
            > 0 && source.last() != '\n' {
            1nat
        } else {
            0nat
        },
{
    let tokens = normalize(source, spans);
    let end = encode_utf8(source).len() as int;
    lemma_normalize_covers(source, spans);
    lemma_captured_break_free(source, spans);
    lemma_byte_slice_whole(source);
    lemma_plain_is_no_marker();
    if spans.len() > 0 {
        let last = spans[spans.len() - 1];
        assert(span_fits(source, last));
        lemma_cut_in_bounds(source, last.end);
        if last.end == end {
            lemma_byte_slice_nonempty(source, last.start, last.end);
        }
    }
    if cursor_after(spans) < end {
        lemma_byte_slice_nonempty(source, cursor_after(spans), end);
    }
    lemma_line_count(tokens);
}

/// Runs tree-sitter: `Parser::set_language` with the grammar of
/// `tree_sitter_rust::language`, `Parser::parse` on `code`, `Query::new` on
/// `query_source`, and `QueryCursor::captures` over the root of the tree.
///
/// Trusted, and nothing is claimed of what comes back. Each capture is
/// handed on as its name from `Query::capture_names` and the `start_byte`
/// and `end_byte` of its node. A grammar that the parser refuses and a parse
/// that gives no tree come back as `ParserFailure`, a query that does not
/// compile as `QueryCompilationError`.
///
/// The query text must end in a newline: where an unknown name runs to the
/// very end of the text, `Query::new` cuts the text past its end and panics.
#[verifier::external_body]
fn query_captures(code: &str, query_source: &str) -> (found: Result<
    Vec<CaptureSpan>,
    HighlightError,
>)
    requires
        query_source@.len() > 0,
        query_source@.last() == '\n',
{
    let language = tree_sitter_rust::language();
    let mut parser = Parser::new();
    parser.set_language(language).map_err(|_| HighlightError::ParserFailure)?;
    let tree = parser.parse(code, None).ok_or(HighlightError::ParserFailure)?;
    let query = Query::new(language, query_source)
        .map_err(|_| HighlightError::QueryCompilationError)?;
    let mut cursor = QueryCursor::new();
    let captures = cursor.captures(&query, tree.root_node(), code.as_bytes());
    Ok(captures.map(|(found, at)| found.captures[at]).map(|one| CaptureSpan {
        name: query.capture_names()[one.index as usize].clone(),
        start: one.node.start_byte(),
        end: one.node.end_byte(),
    }).collect())
}

/// The text that is compiled as the query: `query_source` and a newline
/// after it. The newline is blank space to the query language; it keeps a
/// name from running to the very end of the text.
pub fn query_text(query_source: &str) -> (text: String)
    ensures
        text@ == query_source@ + seq!['\n'],
{
    let mut text = query_source.to_owned();
    text.append("\n");
    proof {
        reveal_strlit("\n");
    }
    text
}

/// Parses `code` as Rust, captures the spans that the query `query_source`
/// matches, and turns them into tokens as [`normalize_spans`] does. The
/// parser is handed `code` as it came and the query as [`query_text`] makes
/// it.
///
/// What the parser captures is not modelled: on success the tokens are those
/// of some spans that address pieces of `code`. Fails with what the parser
/// reported when it gave no captures, and with `MalformedSpan` when a span
/// it gave does not address a piece of `code`.
pub fn process_string(code: &str, query_source: &str) -> (tokens: Result<
    Vec<Node>,
    HighlightError,
>)
    ensures
        tokens matches Ok(nodes) ==> exists|spans: Seq<Span>|
            spans_fit(code@, spans) && nodes.deep_view() == #[trigger] normalize(code@, spans),
{
    match query_captures(code, query_text(query_source).as_str()) {
        Ok(spans) => normalize_spans(code, spans),
        Err(error) => Err(error),
    }
}

/// Resolves the duplicates among `nodes` under `rule`, splits the tokens
/// that span several lines, and cuts the result into lines.
pub fn lines_from_nodes(nodes: Vec<Node>, rule: QueryRule) -> (lines: Vec<Vec<Node>>)
    ensures
        lines.deep_view() == lines_of(nodes.deep_view(), rule),
{
    split_into_lines(split_newline_nodes(resolve_duplicate_nodes(nodes, rule)))
}

/// The highlighted lines of `code`: its tokens as [`process_string`] gives
/// them, then its lines as [`lines_from_nodes`] gives them under `rule`.
///
/// On success the lines are those of the tokens of some spans that address
/// pieces of `code`; it fails as [`process_string`] does.
pub fn highlight(code: &str, query_source: &str, rule: QueryRule) -> (lines: Result<
    Vec<Vec<Node>>,
    HighlightError,
>)
    ensures
        lines matches Ok(lines) ==> exists|spans: Seq<Span>|
            spans_fit(code@, spans) && lines.deep_view() == lines_of(
                #[trigger] normalize(code@, spans),
                rule,
            ),
{
    match process_string(code, query_source) {
        Ok(nodes) => Ok(lines_from_nodes(nodes, rule)),
        Err(error) => Err(error),
    }
}

} // verus!
