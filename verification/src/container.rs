//! The palette-compressed vector, also reachable under this module.

pub use crate::collection::vec::{IndexIter, Iter, PVec};
