//! Animation of tilemaps

use vstd::prelude::*;

verus! {

/// Trait for types that update meshes generated from tilemap
/// [`Chunk`](super::tilemap::Chunk)s
///
/// Only used for animated tilemaps
pub trait MeshUpdater {

}

impl MeshUpdater for () {

}

} // verus!
