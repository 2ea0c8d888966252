//! Tiles in the tilemap

use vstd::prelude::*;

use crate::animation::MeshUpdater;
use crate::rendering::MeshBuilder;

verus! {

/// A tile in the tilemap
pub trait Tile: Send + Sync + Clone + 'static {
    /// The struct this uses to add its mesh to the chunk mesh
    type MeshBuilder: MeshBuilder;

    /// The struct this uses to apply animations to the chunk mesh
    ///
    /// If not using animations, this can be set to `()`
    type MeshUpdater: MeshUpdater;

    /// Add this tile to the mesh
    fn add_to_mesh(&self, builder: &mut Self::MeshBuilder);
}

} // verus!
