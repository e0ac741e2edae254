//! A solver for N x N logic-grid puzzles (the classic 9 x 9 case and its
//! perfect-square generalizations), combining per-cell candidate propagation
//! with snapshot-based backtracking search.

pub mod domain_set;
pub mod puzzle;
pub mod square;
pub mod text;

pub use domain_set::DomainSet;
pub use puzzle::Puzzle;
pub use square::Square;
