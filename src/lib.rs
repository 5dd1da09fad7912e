//! Three-way line merge: interval arithmetic over base-text positions, a line
//! interner, a pairwise block matcher and the merge walk that combines them.

pub mod range;
pub mod interner;
pub mod matcher;
pub mod merge;
pub mod laws;

pub use merge::{diff, Author, Difference};
pub use range::Range;
