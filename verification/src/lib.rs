//! Builder and loader for a read-only dictionary database.
//!
//! The writer collects interned strings, tags, terms and kanji, builds
//! prefix / suffix / per-character search indexes, and serialises everything
//! into a single little-endian byte image.  The loader decodes such an image
//! back into typed tables.

use vstd::prelude::*;

pub mod data;
pub mod seal;
pub mod chars;
pub mod index;
pub mod segment;
pub mod serial;
pub mod utf8;
pub mod laws;
pub mod loader;
pub mod order;
pub mod writer;

verus! {

/// A handle into the shared vector arena: `length` consecutive `u32` values
/// starting at `offset`.  An empty list is always `(0, 0)`.
#[derive(Clone, Copy, PartialEq, Eq, Structural, Debug)]
pub struct VecHandle {
    pub offset: u32,
    pub length: u32,
}

} // verus!
