//! Comment extraction and ranking for source trees.
//!
//! The library isolates comments in source text with one lexical scanner per
//! language family, resolves every comment to a line of its file, and ranks
//! comments against a free-text query. Positions are byte offsets into the
//! UTF-8 encoding of a file's content throughout.

pub mod c_family;
pub mod discover;
pub mod engine;
pub mod lines;
pub mod parser;
pub mod python;
pub mod query;
pub mod rank;
pub mod scan;
pub mod search;
pub mod source;
pub mod std_specs;
pub mod text;
pub mod tui;
