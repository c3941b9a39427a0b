//! A literal-substring line searcher: the matcher, the highlighter, the
//! output formatter, the per-file line scanner and the command-line parser.

pub mod matcher;
pub mod highlight;
pub mod text;
pub mod args;
pub mod output;
