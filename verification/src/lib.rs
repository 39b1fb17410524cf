//! Two stateless kernels: the edit distance between two strings, and the
//! length of the shortest walk between two cells of an obstacle grid.

pub mod distance;
pub mod edits;
pub mod maze;
mod search;
pub mod worker;
