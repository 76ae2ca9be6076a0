//! A block-structured, byte-addressable in-memory storage engine.
//!
//! Storage is a growable sequence of fixed-size blocks ("rows"). An absolute
//! byte offset resolves to a row and an intra-block offset by division and
//! remainder against [`BLOCK_SIZE`]. Rows are materialized on demand and
//! zero-filled; the store only ever grows. A cursor, adjusted by `seek`, is
//! added to every caller-supplied offset before resolution. A single read or
//! write call never crosses a block boundary: transfers are clamped to the
//! end of the addressed block and report how many bytes actually moved.

use vstd::prelude::*;

pub mod device;
pub mod laws;
pub mod model;

verus! {

/// Number of bytes in one fully materialized block.
pub const BLOCK_SIZE: usize = 4096;

/// Largest number of rows the store may hold: beyond this the logical size
/// (rows times [`BLOCK_SIZE`]) would no longer be representable, so growth
/// past it is refused as an allocation failure.
pub const MAX_ROWS: usize = usize::MAX / BLOCK_SIZE;

} // verus!
