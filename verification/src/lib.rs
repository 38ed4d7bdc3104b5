//! Turns the syntax spans captured over a source text into a line-structured
//! stream of highlight tokens.

pub mod dedup;
pub mod engine;
pub mod error;
pub mod lines;
pub mod newlines;
pub mod spans;
pub mod text;
pub mod token;

pub use dedup::resolve_duplicate_nodes;
pub use engine::{highlight, lines_from_nodes, process_string, query_text};
pub use error::HighlightError;
pub use lines::split_into_lines;
pub use newlines::split_newline_nodes;
pub use spans::{normalize_spans, CaptureSpan};
pub use token::{Node, QueryRule};
