//! A score-ordered multimap: integer scores in ascending order, each holding
//! the items added under it in the order they were added.
pub mod laws;
pub mod model;
pub mod scored_set;

pub use scored_set::ScoredSortedSet;
