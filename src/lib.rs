//! Finds every entry below a root directory whose base name is exactly a
//! given target, lazily, in the order of a depth-first directory walk.
//!
//! The walk itself comes from `walkdir`; this crate decides which of the
//! walk's results are handed out, and proves that decision against the
//! model in [`model`].

pub mod finder;
pub mod laws;
pub mod model;
mod walk;

pub use finder::{Finder, IteratorFilter, Outcome};
