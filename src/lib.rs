//! Vocabulary notes: reading note files into terms and meanings, and merging
//! them into a collection without asking twice about the same conflict.
pub mod collection;
pub mod decision;
pub mod history;
pub mod merge;
pub mod pattern;
pub mod script;
pub mod source;
pub mod split_whitespace;
pub mod text;

pub use collection::{ColMeaning, Collection};
pub use history::History;
pub use merge::{submit, Outcome, PendingDecision};
pub use source::{Meaning, Note, Source, SourceLoadError, SourceScope};
pub use split_whitespace::{split_whitespace_indices, SplitWhitespaceIndices};
