//! The table that finds a chunk by its coordinate

use vstd::prelude::*;

use crate::math::IVec2;

verus! {

/// The table from the coordinate of a chunk to the place where the chunk is
/// kept: bevy's hash map, keyed by bevy's integer vector.
///
/// The map is hashbrown's, whose allocator parameter cannot be named from
/// outside that crate, so the map is kept out of sight here and is spoken
/// of through [`index_entries`].
#[verifier::external_body]
#[derive(Debug)]
pub struct ChunkIndex {
    map: bevy::utils::HashMap<bevy::math::IVec2, usize>,
}

/// What a [`ChunkIndex`] holds: the place of each coordinate that was
/// entered
pub uninterp spec fn index_entries(index: ChunkIndex) -> Map<IVec2, usize>;

/// The table without entries
pub open spec fn no_entries() -> Map<IVec2, usize> {
    Map::empty()
}

/// An empty table, by `Default::default` of `bevy::utils::HashMap`, which
/// makes a map without entries.
#[verifier::external_body]
pub(crate) fn index_new() -> (index: ChunkIndex)
    ensures
        index_entries(index) == no_entries(),
{
    ChunkIndex { map: bevy::utils::HashMap::default() }
}

/// The place entered for `pos`, by `get` of hashbrown's `HashMap`, which
/// returns the value of the key equal to the one given, or `None` if the
/// map has no such key. Keys are equal when both components are.
#[verifier::external_body]
pub(crate) fn index_get(index: &ChunkIndex, pos: IVec2) -> (place: Option<usize>)
    ensures
        place == (if index_entries(*index).contains_key(pos) {
            Some(index_entries(*index)[pos])
        } else {
            None
        }),
{
    index.map.get(&bevy::math::IVec2::new(pos.x, pos.y)).copied()
}

/// Enters `place` for `pos`, by `insert` of hashbrown's `HashMap`, which
/// adds the pair, or replaces the value where the key is there already,
/// and leaves the other entries as they are.
#[verifier::external_body]
pub(crate) fn index_insert(index: &mut ChunkIndex, pos: IVec2, place: usize)
    ensures
        index_entries(*final(index)) == index_entries(*old(index)).insert(pos, place),
{
    index.map.insert(bevy::math::IVec2::new(pos.x, pos.y), place);
}

} // verus!
