//! The ways in which highlighting a source text can fail.

use vstd::prelude::*;

verus! {

/// Why a source text could not be turned into tokens.
#[derive(Clone, Copy, Debug, PartialEq, Eq)]
pub enum HighlightError {
    /// A capture span does not address a piece of the source text: its end
    /// lies before its start or past the end of the text, or one of its
    /// offsets falls inside a character.
    MalformedSpan,
    /// The query does not compile against the grammar.
    QueryCompilationError,
    /// The parser did not accept the grammar or gave no syntax tree.
    ParserFailure,
}

} // verus!
