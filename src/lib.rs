//! Sorting photos into a year/month directory tree: resolving a capture
//! date and choosing a free, collision-free file name for it.

pub mod date;
pub mod month;
pub mod target;
pub mod text;
