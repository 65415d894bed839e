//! Lists the most recently modified (or created) files below a directory.
//!
//! A directory walk hands this library what it found, one item per directory
//! entry. The library picks the regular files that are not hidden, gives each
//! a timestamp, and returns the `n` most recent ones, newest first, with their
//! paths relative to the root of the walk.

pub mod args;
pub mod clock;
pub mod entry;
pub mod listing;
pub mod path;
pub mod permutation;
pub mod pool;
pub mod ranker;
pub mod text;
pub mod timestamp;
pub mod walker;
