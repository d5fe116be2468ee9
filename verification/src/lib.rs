//! A fuzzy line-matching and ranking engine: a query matches a line when its
//! characters occur in the line in order (not necessarily contiguously), and
//! matching lines are ranked by a heat heuristic that favors word starts,
//! positions after separators, class boundaries and compact alignments.
//! Scores are plain integers; larger is better.
pub mod constants;
pub mod unicode;
pub mod classify;
pub mod heat;
pub mod model;
pub mod line;
pub mod search;
pub mod laws;

pub use classify::{CharClass, char_class, is_separator};
pub use line::LineInfo;
pub use search::{SearchBase, score, normalize_query};
