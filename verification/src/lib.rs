//! Chunked storage of tiles for maps without fixed bounds, made for the
//! bevy game engine.
//!
//! Tiles are addressed by a [`tilemap::TilemapPos`]: the coordinate of a
//! chunk and a position inside it. A [`tilemap::Tilemap`] creates chunks
//! where tiles are written, and each chunk records whether its mesh has to
//! be generated again.

use vstd::prelude::*;

pub mod animation;
pub mod math;
pub mod rendering;
pub mod tile;
pub mod tilemap;

verus! {

/// The width and height of a chunk, in tiles.
///
/// The value may change, but is always a power of two and at most 128.
pub const CHUNK_SIZE: usize = 32;

} // verus!
