//! Traces of the search machines, as lines of text.
pub mod laws;
pub mod parse;
pub mod record;
pub mod replay;
pub mod text;

pub use parse::{parse_fields, parse_trace_line, Fields, TraceLine};
pub use record::{bit, capture, push, Sink};
