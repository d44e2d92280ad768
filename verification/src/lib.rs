//! Global sequence alignment scores by the Needleman-Wunsch algorithm.
//!
//! Two byte sequences are aligned end to end under a linear gap penalty. The
//! score returned is proved to be the best that any alignment of the two
//! sequences can reach, and every arithmetic step is proved free of overflow.

pub mod alignment;
pub mod engine;
pub mod matrix;
pub mod scoring;
pub mod theorems;

pub use engine::{align, align_in, fill, needleman_wunsch};
pub use matrix::{AllocationFailure, ScoreMatrix};
pub use scoring::ScoringParameters;
