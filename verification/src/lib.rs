//! A fuzzy string-matching and ranking library.
//!
//! Given a query and a list of candidate lines, every candidate is scored by
//! how tightly its characters contain the query's characters in order
//! (case-aware), and the candidates are returned best match first.

pub mod args;
pub mod matcher;
pub mod ranker;
pub mod text;

pub use args::Args;
pub use matcher::score;
pub use matcher::Score;
pub use ranker::compute_match;
