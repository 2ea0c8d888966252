//! Storage of tiles, and positions in it

use std::ops::{Add, AddAssign, Sub, SubAssign};
use vstd::prelude::*;

use crate::math::{fits_i32, vec_difference, vec_quotient, vec_scaled, vec_sum, BVec2, IVec2};
use crate::tile::Tile;
use crate::CHUNK_SIZE;

mod chunk;
mod index;

pub use chunk::{
    in_chunk, lemma_placed_tile_at, lemma_placed_tiles_prefix, lemma_tiles_ahead, placed_tiles,
    tiles_ahead, Chunk, ChunkPos,
};
use index::{index_entries, index_get, index_insert, index_new, ChunkIndex};

verus! {

/// The untyped asset handles of bevy. A tilemap keeps the handle of the
/// material that its meshes use; nothing here looks into one.
#[verifier::external_type_specification]
#[verifier::external_body]
pub struct ExHandleUntyped(bevy::asset::HandleUntyped);

/// A tilemap with tiles of type `T`
///
/// Uses chunks to generate more efficient meshes. A chunk is made when a
/// tile is first set in it, and stays from then on.
///
/// Seen as a map, a tilemap takes the coordinate of each chunk it holds
/// to that chunk.
#[derive(Debug)]
pub struct Tilemap<T: Tile> {
    index: ChunkIndex,
    positions: Vec<IVec2>,
    chunks: Vec<Chunk<T>>,
    material: bevy::asset::HandleUntyped,
}

impl<T: Tile> View for Tilemap<T> {
    type V = Map<IVec2, Chunk<T>>;

    /// The chunks by their coordinates
    closed spec fn view(&self) -> Map<IVec2, Chunk<T>> {
        Map::new(
            |pos: IVec2| index_entries(self.index).contains_key(pos),
            |pos: IVec2| self.chunks@[index_entries(self.index)[pos] as int],
        )
    }
}

/// The tiles of the chunks of `chunks` that `positions` lists, chunk after
/// chunk in the order of `positions`, and in row-major order inside each
/// chunk: for each tile the coordinate of its chunk, its position in the
/// chunk, and the tile
pub open spec fn tiles_of_chunks<T: Tile>(
    chunks: Map<IVec2, Chunk<T>>,
    positions: Seq<IVec2>,
) -> Seq<(IVec2, (int, int), T)>
    decreases positions.len(),
{
    if positions.len() == 0 {
        Seq::empty()
    } else {
        tiles_of_chunks(chunks, positions.drop_last()) + tiles_of_chunk(
            positions.last(),
            chunks[positions.last()],
        )
    }
}

/// The tiles of `chunk` in row-major order, each with `pos`, the
/// coordinate of the chunk, and with its position in the chunk
pub open spec fn tiles_of_chunk<T: Tile>(pos: IVec2, chunk: Chunk<T>) -> Seq<
    (IVec2, (int, int), T),
> {
    placed_tiles(chunk@).map_values(|placed: ((int, int), T)| (pos, placed.0, placed.1))
}

/// Where what follows the first `i` items of `s` is `first` and then
/// `others`, `first` is the item at `i`, and `others` is what follows it.
proof fn lemma_skip_first<A>(s: Seq<A>, i: int, first: A, others: Seq<A>)
    requires
        0 <= i <= s.len(),
        s.skip(i) == seq![first] + others,
    ensures
        i < s.len(),
        s[i] == first,
        s.skip(i + 1) == others,
{
    assert(s.skip(i).len() == 1 + others.len());
    assert(s.skip(i)[0] == first);
    assert forall|k: int| 0 <= k < others.len() implies s.skip(i + 1)[k] == others[k] by {
        assert(s.skip(i)[k + 1] == others[k]);
    }
    assert(s.skip(i + 1) =~= others);
}

/// How many tiles the chunks hold that stand before the `i`-th of
/// `positions`
pub open spec fn tiles_before<T: Tile>(
    chunks: Map<IVec2, Chunk<T>>,
    positions: Seq<IVec2>,
    i: int,
) -> int {
    tiles_of_chunks(chunks, positions.take(i)).len() as int
}

impl<T: Tile> Tilemap<T> {
    /// What holds of every tilemap that [`new`](Self::new) made and the
    /// functions of this type changed: the table finds each chunk at its
    /// place, and every chunk is a full grid
    pub closed spec fn well_formed(&self) -> bool {
        let entries = index_entries(self.index);
        &&& self.positions.len() == self.chunks.len()
        &&& entries.dom().finite()
        &&& entries.dom().len() == self.chunks.len()
        &&& forall|pos: IVec2| #[trigger]
            entries.contains_key(pos) ==> entries[pos] < self.chunks.len()
                && self.positions@[entries[pos] as int] == pos
        &&& forall|i: int|
            0 <= i < self.positions.len() ==> entries.contains_key(#[trigger] self.positions@[i])
                && entries[self.positions@[i]] == i
        &&& forall|i: int|
            0 <= i < self.chunks.len() ==> (#[trigger] self.chunks@[i]).is_full_grid()
    }

    /// The coordinates of the chunks, in the order in which the chunks
    /// were made
    pub closed spec fn positions(&self) -> Seq<IVec2> {
        self.positions@
    }

    /// The handle of the material that the meshes of this tilemap use
    pub closed spec fn material_handle(&self) -> bevy::asset::HandleUntyped {
        self.material
    }

    /// What holds of every tilemap: its chunks are full grids, and
    /// [`positions`](Self::positions) lists the coordinates of its chunks,
    /// each once.
    pub proof fn lemma_well_formed(&self)
        requires
            self.well_formed(),
        ensures
            self@.dom().finite(),
            self@.dom().len() == self.positions().len(),
            self.positions().no_duplicates(),
            forall|pos: IVec2| self@.contains_key(pos) <==> self.positions().contains(pos),
            forall|pos: IVec2| self@.contains_key(pos) ==> (#[trigger] self@[pos]).is_full_grid(),
    {
        let entries = index_entries(self.index);
        assert(self@.dom() =~= entries.dom());
        assert forall|pos: IVec2| self@.contains_key(pos) implies self.positions().contains(
            pos,
        ) by {
            assert(self.positions@[entries[pos] as int] == pos);
        }
    }

    /// Creates a tilemap without chunks, whose meshes use the material
    /// behind `material`
    pub fn new(material: bevy::asset::HandleUntyped) -> (r: Self)
        ensures
            r.well_formed(),
            r@ == Map::<IVec2, Chunk<T>>::empty(),
            r.positions() == Seq::<IVec2>::empty(),
            r.material_handle() == material,
    {
        let r = Tilemap { index: index_new(), positions: Vec::new(), chunks: Vec::new(), material };
        assert(r@ =~= Map::<IVec2, Chunk<T>>::empty());
        r
    }

    /// The handle of the material that the meshes of this tilemap use
    #[must_use]
    pub fn material(&self) -> (r: &bevy::asset::HandleUntyped)
        requires
            self.well_formed(),
        ensures
            *r == self.material_handle(),
    {
        &self.material
    }

    /// Returns a reference to the chunk at the given position if it exists
    #[must_use]
    pub fn get_chunk(&self, pos: IVec2) -> (r: Option<&Chunk<T>>)
        requires
            self.well_formed(),
        ensures
            r.is_some() == self@.contains_key(pos),
            r.is_some() ==> *r.unwrap() == self@[pos] && r.unwrap().is_full_grid(),
    {
        match index_get(&self.index, pos) {
            Some(place) => {
                let chunk = &self.chunks[place];
                Some(chunk)
            },
            None => None,
        }
    }

    /// Returns a mutable reference to the chunk at the given position if it exists
    ///
    /// The tilemap stays well formed if the chunk is left a full grid, as
    /// every function of [`Chunk`] leaves it.
    #[must_use]
    pub fn get_chunk_mut(&mut self, pos: IVec2) -> (r: Option<&mut Chunk<T>>)
        requires
            old(self).well_formed(),
        ensures
            (match r {
                Some(chunk) => final(chunk).is_full_grid() ==> final(self).well_formed(),
                None => final(self).well_formed(),
            }),
            r.is_some() == old(self)@.contains_key(pos),
            r.is_some() ==> *r.unwrap() == old(self)@[pos] && r.unwrap().is_full_grid(),
            final(self)@ == (match r {
                Some(chunk) => old(self)@.insert(pos, *final(chunk)),
                None => old(self)@,
            }),
            final(self).positions() == old(self).positions(),
            final(self).material_handle() == old(self).material_handle(),
    {
        match index_get(&self.index, pos) {
            Some(place) => {
                let chunk = &mut self.chunks[place];
                Some(chunk)
            },
            None => None,
        }
    }

    /// Returns a mutable reference to the chunk at the given position,
    /// creating one if it doesn't exist
    ///
    /// A chunk that is created is one as [`Default`] makes it. No other
    /// function creates chunks. The tilemap stays well formed if the chunk
    /// is left a full grid, as every function of [`Chunk`] leaves it.
    pub fn get_or_create_chunk(&mut self, pos: IVec2) -> (r: &mut Chunk<T>)
        requires
            old(self).well_formed(),
        ensures
            final(r).is_full_grid() ==> final(self).well_formed(),
            r.is_full_grid(),
            old(self)@.contains_key(pos) ==> *r == old(self)@[pos],
            !old(self)@.contains_key(pos) ==> r.is_fresh(),
            final(self)@ == old(self)@.insert(pos, *final(r)),
            final(self).positions() == (if old(self)@.contains_key(pos) {
                old(self).positions()
            } else {
                old(self).positions().push(pos)
            }),
            final(self).material_handle() == old(self).material_handle(),
    {
        let place = match index_get(&self.index, pos) {
            Some(place) => place,
            None => {
                let place = self.chunks.len();
                self.chunks.push(Chunk::default());
                self.positions.push(pos);
                index_insert(&mut self.index, pos, place);
                place
            },
        };
        let chunk = &mut self.chunks[place];
        chunk
    }

    /// The tile at `pos`, if the chunk of `pos` exists and has a tile there
    pub open spec fn tile_at(&self, pos: TilemapPos) -> Option<T> {
        if self@.contains_key(pos.chunk) {
            self@[pos.chunk].slot_at(pos.tile@)
        } else {
            None
        }
    }

    /// Returns a reference to the tile at the position in this tilemap if it exists
    ///
    /// Never creates a chunk.
    #[must_use]
    pub fn get(&self, pos: TilemapPos) -> (r: Option<&T>)
        requires
            self.well_formed(),
        ensures
            r.is_some() == self.tile_at(pos).is_some(),
            r.is_some() ==> *r.unwrap() == self.tile_at(pos).unwrap(),
    {
        match self.get_chunk(pos.chunk) {
            Some(chunk) => chunk.get(pos.tile),
            None => None,
        }
    }

    /// Returns a mutable reference to the tile at the position in this tilemap if it exists
    ///
    /// Never creates a chunk. If mutating the tile results in a change
    /// that requires regenerating the chunk mesh, call
    /// [`regenerate_mesh()`](Chunk::regenerate_mesh()) on the chunk
    #[must_use]
    pub fn get_mut(&mut self, pos: TilemapPos) -> (r: Option<&mut T>)
        requires
            old(self).well_formed(),
        ensures
            final(self).well_formed(),
            r.is_some() == old(self).tile_at(pos).is_some(),
            r.is_some() ==> *r.unwrap() == old(self).tile_at(pos).unwrap(),
            final(self)@.dom() == old(self)@.dom(),
            forall|other: IVec2|
                other != pos.chunk && old(self)@.contains_key(other) ==> final(self)@[other]
                    == old(self)@[other],
            old(self)@.contains_key(pos.chunk) ==> old(self)@[pos.chunk].same_state(
                &final(self)@[pos.chunk],
            ) && final(self)@[pos.chunk]@ == (match r {
                Some(tile) => old(self)@[pos.chunk]@.update(
                    ChunkPos::index_of(pos.tile@),
                    Some(*final(tile)),
                ),
                None => old(self)@[pos.chunk]@,
            }),
            final(self).positions() == old(self).positions(),
            final(self).material_handle() == old(self).material_handle(),
    {
        match self.get_chunk_mut(pos.chunk) {
            Some(chunk) => chunk.get_mut(pos.tile),
            None => None,
        }
    }

    /// Sets the tile at `pos`, returning its previous value
    ///
    /// Creates the chunk of `pos` if it does not exist yet, and tells the
    /// chunk to regenerate its mesh the next time it's displayed
    pub fn set(&mut self, pos: TilemapPos, tile: T) -> (r: Option<T>)
        requires
            old(self).well_formed(),
        ensures
            final(self).well_formed(),
            r == old(self).tile_at(pos),
            final(self).tile_at(pos) == Some(tile),
            final(self)@.dom() == old(self)@.dom().insert(pos.chunk),
            final(self)@.dom().len() == old(self)@.dom().len() + (if old(self)@.contains_key(
                pos.chunk,
            ) {
                0int
            } else {
                1int
            }),
            forall|other: IVec2|
                other != pos.chunk && old(self)@.contains_key(other) ==> final(self)@[other]
                    == old(self)@[other],
            final(self)@[pos.chunk].dirty(),
            old(self)@.contains_key(pos.chunk) ==> final(self)@[pos.chunk]@ == old(
                self,
            )@[pos.chunk]@.update(ChunkPos::index_of(pos.tile@), Some(tile))
                && final(self)@[pos.chunk].carry_data() == old(self)@[pos.chunk].carry_data()
                && final(self)@[pos.chunk].entity() == old(self)@[pos.chunk].entity(),
            !old(self)@.contains_key(pos.chunk) ==> final(self)@[pos.chunk]@ == Seq::new(
                (CHUNK_SIZE * CHUNK_SIZE) as nat,
                |i: int| None::<T>,
            ).update(ChunkPos::index_of(pos.tile@), Some(tile))
                && final(self)@[pos.chunk].entity().is_none() && call_ensures(
                <<<T as Tile>::MeshBuilder as crate::rendering::MeshBuilder>::CarryData as Default>::default,
                (),
                final(self)@[pos.chunk].carry_data(),
            ),
            final(self).positions() == (if old(self)@.contains_key(pos.chunk) {
                old(self).positions()
            } else {
                old(self).positions().push(pos.chunk)
            }),
            final(self).material_handle() == old(self).material_handle(),
    {
        proof {
            use_type_invariant(&pos.tile);
            ChunkPos::lemma_index_of_at_index(pos.tile@);
            self.lemma_well_formed();
        }
        let chunk = self.get_or_create_chunk(pos.chunk);
        chunk.set(pos.tile, tile)
    }

    /// Removes the tile at pos and returns it
    ///
    /// Never creates a chunk. If the chunk of `pos` exists, tells it to
    /// regenerate its mesh the next time it's displayed
    pub fn remove(&mut self, pos: TilemapPos) -> (r: Option<T>)
        requires
            old(self).well_formed(),
        ensures
            final(self).well_formed(),
            r == old(self).tile_at(pos),
            final(self).tile_at(pos).is_none(),
            final(self)@.dom() == old(self)@.dom(),
            forall|other: IVec2|
                other != pos.chunk && old(self)@.contains_key(other) ==> final(self)@[other]
                    == old(self)@[other],
            old(self)@.contains_key(pos.chunk) ==> final(self)@[pos.chunk]@ == old(
                self,
            )@[pos.chunk]@.update(ChunkPos::index_of(pos.tile@), None)
                && final(self)@[pos.chunk].dirty()
                && final(self)@[pos.chunk].carry_data() == old(self)@[pos.chunk].carry_data()
                && final(self)@[pos.chunk].entity() == old(self)@[pos.chunk].entity(),
            final(self).positions() == old(self).positions(),
            final(self).material_handle() == old(self).material_handle(),
    {
        proof {
            use_type_invariant(&pos.tile);
            ChunkPos::lemma_index_of_at_index(pos.tile@);
        }
        match self.get_chunk_mut(pos.chunk) {
            Some(chunk) => chunk.remove(pos.tile),
            None => None,
        }
    }

    /// Every tile of this tilemap: the coordinate of its chunk, its
    /// position in the chunk, and the tile. The chunks come in the order
    /// in which they were made, the tiles of a chunk in row-major order.
    pub open spec fn placed_tiles(&self) -> Seq<(IVec2, (int, int), T)> {
        tiles_of_chunks(self@, self.positions())
    }

    /// Returns all chunks in this, in the order in which they were made
    pub fn iter_chunks(&self) -> (r: Vec<&Chunk<T>>)
        requires
            self.well_formed(),
        ensures
            r.len() == self.positions().len(),
            forall|i: int|
                0 <= i < r.len() ==> *(#[trigger] r[i]) == self@[self.positions()[i]]
                    && r[i].is_full_grid(),
    {
        let mut chunks: Vec<&Chunk<T>> = Vec::new();
        let mut i: usize = 0;
        while i < self.chunks.len()
            invariant
                self.well_formed(),
                i <= self.chunks.len(),
                chunks.len() == i,
                forall|j: int|
                    0 <= j < i ==> *(#[trigger] chunks[j]) == self@[self.positions()[j]]
                        && chunks[j].is_full_grid(),
            decreases self.chunks.len() - i,
        {
            let chunk = &self.chunks[i];
            chunks.push(chunk);
            i += 1;
        }
        chunks
    }

    /// Returns all chunks in this and their positions, in the order in
    /// which the chunks were made
    pub fn iter_chunk_positions(&self) -> (r: Vec<(&IVec2, &Chunk<T>)>)
        requires
            self.well_formed(),
        ensures
            r.len() == self.positions().len(),
            forall|i: int|
                0 <= i < r.len() ==> *(#[trigger] r[i]).0 == self.positions()[i] && *r[i].1
                    == self@[self.positions()[i]] && r[i].1.is_full_grid(),
    {
        let chunks = self.iter_chunks();
        let mut pairs: Vec<(&IVec2, &Chunk<T>)> = Vec::new();
        let mut i: usize = 0;
        while i < chunks.len()
            invariant
                self.well_formed(),
                i <= chunks.len(),
                chunks.len() == self.positions().len(),
                pairs.len() == i,
                forall|j: int|
                    0 <= j < chunks.len() ==> *(#[trigger] chunks[j]) == self@[self.positions()[j]]
                        && chunks[j].is_full_grid(),
                forall|j: int|
                    0 <= j < i ==> *(#[trigger] pairs[j]).0 == self.positions()[j] && *pairs[j].1
                        == self@[self.positions()[j]] && pairs[j].1.is_full_grid(),
            decreases chunks.len() - i,
        {
            pairs.push((&self.positions[i], chunks[i]));
            i += 1;
        }
        pairs
    }

    /// Returns the positions of all chunks in this, in the order in which
    /// the chunks were made
    pub fn chunk_positions(&self) -> (r: Vec<IVec2>)
        requires
            self.well_formed(),
        ensures
            r@ == self.positions(),
    {
        let mut positions: Vec<IVec2> = Vec::new();
        let mut i: usize = 0;
        while i < self.positions.len()
            invariant
                i <= self.positions.len(),
                positions@ == self.positions@.take(i as int),
            decreases self.positions.len() - i,
        {
            positions.push(self.positions[i]);
            proof {
                assert(self.positions@.take(i + 1) =~= self.positions@.take(i as int).push(
                    self.positions@[i as int],
                ));
            }
            i += 1;
        }
        proof {
            assert(self.positions@.take(i as int) =~= self.positions@);
        }
        positions
    }

    /// Returns all tiles in this and their positions
    ///
    /// The chunks come in the order in which they were made, the tiles of
    /// a chunk in row-major order.
    pub fn iter_positions(&self) -> (r: Vec<(TilemapPos, &T)>)
        requires
            self.well_formed(),
        ensures
            r.len() == self.placed_tiles().len(),
            forall|i: int|
                0 <= i < r.len() ==> ((#[trigger] r[i]).0.chunk, r[i].0.tile@, *r[i].1)
                    == self.placed_tiles()[i],
    {
        let chunks = self.iter_chunk_positions();
        let mut all: Vec<(TilemapPos, &T)> = Vec::new();
        let mut i: usize = 0;
        while i < chunks.len()
            invariant
                self.well_formed(),
                i <= chunks.len(),
                chunks.len() == self.positions().len(),
                forall|j: int|
                    0 <= j < chunks.len() ==> *(#[trigger] chunks[j]).0 == self.positions()[j]
                        && *chunks[j].1 == self@[self.positions()[j]],
                all.len() == tiles_of_chunks(self@, self.positions().take(i as int)).len(),
                forall|j: int|
                    0 <= j < all.len() ==> ((#[trigger] all[j]).0.chunk, all[j].0.tile@, *all[j].1)
                        == tiles_of_chunks(self@, self.positions().take(i as int))[j],
            decreases chunks.len() - i,
        {
            let (chunk_pos, chunk) = chunks[i];
            let tiles = chunk.iter_tile_positions();
            let ghost before = tiles_of_chunks(self@, self.positions().take(i as int));
            let ghost here = tiles_of_chunk(*chunk_pos, *chunk);
            proof {
                assert(self.positions().take(i + 1).drop_last() =~= self.positions().take(
                    i as int,
                ));
                assert(tiles_of_chunks(self@, self.positions().take(i + 1)) == before + here);
            }
            let mut j: usize = 0;
            while j < tiles.len()
                invariant
                    j <= tiles.len(),
                    tiles.len() == here.len(),
                    here == tiles_of_chunk(*chunk_pos, *chunk),
                    tiles.len() == placed_tiles(chunk@).len(),
                    forall|k: int|
                        0 <= k < tiles.len() ==> ((#[trigger] tiles[k]).0@, *tiles[k].1)
                            == placed_tiles(chunk@)[k],
                    all.len() == before.len() + j,
                    forall|k: int|
                        0 <= k < all.len() ==> ((#[trigger] all[k]).0.chunk, all[k].0.tile@, *all[k].1)
                            == (before + here)[k],
                decreases tiles.len() - j,
            {
                let (tile_pos, tile) = tiles[j];
                all.push((TilemapPos { chunk: *chunk_pos, tile: tile_pos }, tile));
                j += 1;
            }
            i += 1;
        }
        proof {
            assert(self.positions().take(i as int) =~= self.positions());
        }
        all
    }

    /// Returns all tiles in this
    ///
    /// The chunks come in the order in which they were made, the tiles of
    /// a chunk in row-major order.
    pub fn iter(&self) -> (r: Vec<&T>)
        requires
            self.well_formed(),
        ensures
            r.len() == self.placed_tiles().len(),
            forall|i: int| 0 <= i < r.len() ==> *(#[trigger] r[i]) == self.placed_tiles()[i].2,
    {
        let placed = self.iter_positions();
        let mut tiles: Vec<&T> = Vec::new();
        let mut i: usize = 0;
        while i < placed.len()
            invariant
                i <= placed.len(),
                tiles.len() == i,
                forall|j: int| 0 <= j < i ==> (#[trigger] tiles[j]) == placed[j].1,
            decreases placed.len() - i,
        {
            tiles.push(placed[i].1);
            i += 1;
        }
        tiles
    }

    /// Returns all chunks in this, each open to change, in the order in
    /// which they were made
    ///
    /// The tilemap stays well formed if the chunks are left full grids, as
    /// every function of [`Chunk`] leaves them.
    pub fn iter_chunks_mut(&mut self) -> (r: Vec<&mut Chunk<T>>)
        requires
            old(self).well_formed(),
        ensures
            r.len() == old(self).positions().len(),
            forall|i: int|
                0 <= i < r.len() ==> *(#[trigger] r[i]) == old(self)@[old(self).positions()[i]]
                    && r[i].is_full_grid(),
            forall|i: int|
                0 <= i < r.len() ==> *final(#[trigger] r[i]) == final(self)@[old(
                    self,
                ).positions()[i]],
            (forall|i: int| 0 <= i < r.len() ==> final(#[trigger] r[i]).is_full_grid())
                ==> final(self).well_formed(),
            final(self)@.dom() == old(self)@.dom(),
            final(self).positions() == old(self).positions(),
            final(self).material_handle() == old(self).material_handle(),
    {
        let ghost after = *final(self);
        let ghost end = after.chunks@;
        let ghost start = self.chunks@;
        let ghost places = self.positions@;
        let mut chunks: Vec<&mut Chunk<T>> = Vec::new();
        let mut rest: &mut [Chunk<T>] = self.chunks.as_mut_slice();
        assert(Seq::new(chunks.len() as nat, |i: int| *final(chunks[i])) + final(rest)@ =~= end);
        while rest.len() > 0
            invariant
                places == self.positions@,
                places.len() == start.len(),
                chunks.len() + rest.len() == start.len(),
                forall|i: int| 0 <= i < chunks.len() ==> *(#[trigger] chunks[i]) == start[i],
                forall|i: int| 0 <= i < rest.len() ==> (#[trigger] rest[i]) == start[chunks.len() + i],
                end == Seq::new(chunks.len() as nat, |i: int| *final(chunks[i])) + final(rest)@,
            decreases rest.len(),
        {
            let ghost done = Seq::new(chunks.len() as nat, |i: int| *final(chunks[i]));
            let ghost rest_end = final(rest)@;
            let whole = rest;
            let (head, tail) = whole.split_at_mut(1);
            let ghost head_end = final(head)@;
            let ghost tail_end = final(tail)@;
            assert(rest_end == head_end + tail_end);
            let chunk = &mut head[0];
            let ghost chunk_end = *final(chunk);
            assert(head_end =~= seq![chunk_end]);
            chunks.push(chunk);
            rest = tail;
            let ghost all_end = Seq::new(chunks.len() as nat, |i: int| *final(chunks[i]));
            assert(all_end =~= done.push(chunk_end));
            assert(end =~= all_end + final(rest)@);
        }
        proof {
            assert(final(rest)@ =~= Seq::<Chunk<T>>::empty());
            assert(end =~= Seq::new(chunks.len() as nat, |i: int| *final(chunks[i])));
            assert(after@.dom() =~= old(self)@.dom());
        }
        chunks
    }

    /// Returns all chunks in this and their positions, each chunk open to
    /// change, in the order in which the chunks were made
    ///
    /// The tilemap stays well formed if the chunks are left full grids, as
    /// every function of [`Chunk`] leaves them.
    pub fn iter_chunk_positions_mut(&mut self) -> (r: Vec<(&IVec2, &mut Chunk<T>)>)
        requires
            old(self).well_formed(),
        ensures
            r.len() == old(self).positions().len(),
            forall|i: int|
                0 <= i < r.len() ==> *(#[trigger] r[i]).0 == old(self).positions()[i] && *r[i].1
                    == old(self)@[old(self).positions()[i]] && r[i].1.is_full_grid(),
            forall|i: int|
                0 <= i < r.len() ==> *final((#[trigger] r[i]).1) == final(self)@[old(
                    self,
                ).positions()[i]],
            (forall|i: int| 0 <= i < r.len() ==> final((#[trigger] r[i]).1).is_full_grid())
                ==> final(self).well_formed(),
            final(self)@.dom() == old(self)@.dom(),
            final(self).positions() == old(self).positions(),
            final(self).material_handle() == old(self).material_handle(),
    {
        let ghost after = *final(self);
        let ghost end = after.chunks@;
        let ghost start = self.chunks@;
        let ghost places = self.positions@;
        let mut chunks: Vec<(&IVec2, &mut Chunk<T>)> = Vec::new();
        let mut rest: &mut [Chunk<T>] = self.chunks.as_mut_slice();
        assert(Seq::new(chunks.len() as nat, |i: int| *final(chunks[i].1)) + final(rest)@ =~= end);
        while rest.len() > 0
            invariant
                places == self.positions@,
                places.len() == start.len(),
                chunks.len() + rest.len() == start.len(),
                forall|i: int|
                    0 <= i < chunks.len() ==> *(#[trigger] chunks[i]).0 == places[i] && *chunks[i].1
                        == start[i],
                forall|i: int| 0 <= i < rest.len() ==> (#[trigger] rest[i]) == start[chunks.len() + i],
                end == Seq::new(chunks.len() as nat, |i: int| *final(chunks[i].1)) + final(rest)@,
            decreases rest.len(),
        {
            let ghost done = Seq::new(chunks.len() as nat, |i: int| *final(chunks[i].1));
            let ghost rest_end = final(rest)@;
            let whole = rest;
            let (head, tail) = whole.split_at_mut(1);
            let ghost head_end = final(head)@;
            let ghost tail_end = final(tail)@;
            assert(rest_end == head_end + tail_end);
            let chunk = &mut head[0];
            let ghost chunk_end = *final(chunk);
            assert(head_end =~= seq![chunk_end]);
            chunks.push((&self.positions[chunks.len()], chunk));
            rest = tail;
            let ghost all_end = Seq::new(chunks.len() as nat, |i: int| *final(chunks[i].1));
            assert(all_end =~= done.push(chunk_end));
            assert(end =~= all_end + final(rest)@);
        }
        proof {
            assert(final(rest)@ =~= Seq::<Chunk<T>>::empty());
            assert(end =~= Seq::new(chunks.len() as nat, |i: int| *final(chunks[i].1)));
            assert(after@.dom() =~= old(self)@.dom());
        }
        chunks
    }

    /// Returns all tiles in this, each open to change
    ///
    /// The chunks come in the order in which they were made, the tiles of
    /// a chunk in row-major order.
    /// If mutating a tile results in a change that requires
    /// regenerating the chunk mesh, call [`Chunk::regenerate_mesh()`] on that chunk.
    /// To get the position of each tile as well,
    /// use [`Self::iter_positions_mut()`]
    pub fn iter_mut(&mut self) -> (r: Vec<&mut T>)
        requires
            old(self).well_formed(),
        ensures
            final(self).well_formed(),
            r.len() == old(self).placed_tiles().len(),
            forall|i: int|
                0 <= i < r.len() ==> *(#[trigger] r[i]) == old(self).placed_tiles()[i].2,
            forall|j: int, index: int|
                0 <= j < old(self).positions().len() && 0 <= index < CHUNK_SIZE * CHUNK_SIZE
                    ==> #[trigger] final(self)@[old(self).positions()[j]]@[index] == (match old(
                    self,
                )@[old(self).positions()[j]]@[index] {
                    Some(_) => Some(
                        *final(r[tiles_before(old(self)@, old(self).positions(), j)
                            + tiles_ahead(old(self)@[old(self).positions()[j]]@, index)]),
                    ),
                    None => None,
                }),
            forall|j: int|
                0 <= j < old(self).positions().len() ==> old(self)@[#[trigger] old(
                    self,
                ).positions()[j]].same_state(&final(self)@[old(self).positions()[j]]),
            final(self)@.dom() == old(self)@.dom(),
            final(self).positions() == old(self).positions(),
            final(self).material_handle() == old(self).material_handle(),
    {
        let ghost after = *final(self);
        let ghost end = after.chunks@;
        let ghost before = self@;
        let ghost start = self.chunks@;
        let ghost places = self.positions@;
        let mut all: Vec<&mut T> = Vec::new();
        let mut rest: &mut [Chunk<T>] = self.chunks.as_mut_slice();
        let mut i: usize = 0;
        assert(places.take(0) =~= Seq::<IVec2>::empty());
        assert(end.skip(0) =~= final(rest)@);
        while rest.len() > 0
            invariant
                places == self.positions@,
                places.len() == start.len(),
                forall|j: int| 0 <= j < start.len() ==> before[#[trigger] places[j]] == start[j],
                forall|j: int| 0 <= j < start.len() ==> (#[trigger] start[j]).is_full_grid(),
                start.len() <= usize::MAX,
                i + rest.len() == start.len(),
                forall|j: int| 0 <= j < rest.len() ==> (#[trigger] rest[j]) == start[i + j],
                all.len() == tiles_before(before, places, i as int),
                forall|j: int|
                    0 <= j < all.len() ==> *(#[trigger] all[j]) == tiles_of_chunks(
                        before,
                        places.take(i as int),
                    )[j].2,
                i <= end.len(),
                end.skip(i as int) == final(rest)@,
                forall|j: int|
                    0 <= j < i ==> 0 <= #[trigger] tiles_before(before, places, j)
                        && tiles_before(before, places, j) + placed_tiles(start[j]@).len()
                        <= all.len(),
                forall|j: int|
                    0 <= j < i ==> start[j].same_state(&#[trigger] end[j]) && end[j].is_full_grid(),
                forall|j: int, index: int|
                    0 <= j < i && 0 <= index < CHUNK_SIZE * CHUNK_SIZE ==> #[trigger] end[j]@[index]
                        == (match start[j]@[index] {
                        Some(_) => Some(
                            *final(all[tiles_before(before, places, j) + tiles_ahead(start[j]@, index)]),
                        ),
                        None => None,
                    }),
            decreases rest.len(),
        {
            let ghost rest_end = final(rest)@;
            let ghost here = tiles_of_chunk(places[i as int], start[i as int]);
            let ghost earlier = all@;
            let whole = rest;
            let (head, tail) = whole.split_at_mut(1);
            let ghost head_end = final(head)@;
            let ghost tail_end = final(tail)@;
            assert(rest_end == head_end + tail_end);
            let chunk = &mut head[0];
            let ghost chunk_end = *final(chunk);
            assert(head_end =~= seq![chunk_end]);
            assert(*chunk == start[i as int]);
            let mut tiles = chunk.iter_tiles_mut();
            proof {
                assert(places.take(i + 1).drop_last() =~= places.take(i as int));
                assert(tiles_of_chunks(before, places.take(i + 1)) == tiles_of_chunks(
                    before,
                    places.take(i as int),
                ) + here);
                assert(here.len() == tiles.len());
                assert forall|index: int|
                    0 <= index < CHUNK_SIZE * CHUNK_SIZE && start[i as int]@[index].is_some() implies 0
                    <= #[trigger] tiles_ahead(start[i as int]@, index) < tiles.len() by {
                    lemma_tiles_ahead(start[i as int]@, index);
                }
            }
            let ghost fresh = tiles@;
            all.append(&mut tiles);
            rest = tail;
            proof {
                lemma_skip_first(end, i as int, chunk_end, tail_end);
                assert(all@ == earlier + fresh);
                assert forall|j: int, index: int|
                    0 <= j < i + 1 && 0 <= index < CHUNK_SIZE * CHUNK_SIZE implies #[trigger] end[j]@[index]
                    == (match start[j]@[index] {
                    Some(_) => Some(
                        *final(all[tiles_before(before, places, j) + tiles_ahead(start[j]@, index)]),
                    ),
                    None => None,
                }) by {
                    if start[j]@[index].is_some() {
                        lemma_tiles_ahead(start[j]@, index);
                        if j < i {
                            assert(tiles_before(before, places, j) + placed_tiles(start[j]@).len()
                                <= earlier.len());
                            assert(all@[tiles_before(before, places, j) + tiles_ahead(
                                start[j]@,
                                index,
                            )] == earlier[tiles_before(before, places, j) + tiles_ahead(
                                start[j]@,
                                index,
                            )]);
                        } else {
                            assert(all@[tiles_before(before, places, j) + tiles_ahead(
                                start[j]@,
                                index,
                            )] == fresh[tiles_ahead(start[j]@, index)]);
                        }
                    }
                }
            }
            i += 1;
        }
        proof {
            assert(final(rest)@ =~= Seq::<Chunk<T>>::empty());
            assert(end.skip(i as int).len() == 0);
            assert(end.len() == start.len());
            assert(places.take(i as int) =~= places);
            assert(after@.dom() =~= old(self)@.dom());
            assert forall|j: int| 0 <= j < places.len() implies after@[#[trigger] places[j]]
                == end[j] && before[places[j]] == start[j] by {}
        }
        all
    }

    /// Returns all tiles in this and their positions, each tile open to
    /// change
    ///
    /// The chunks come in the order in which they were made, the tiles of
    /// a chunk in row-major order.
    /// If mutating a tile results in a change that requires
    /// regenerating the chunk mesh, call [`Chunk::regenerate_mesh()`] on that chunk.
    pub fn iter_positions_mut(&mut self) -> (r: Vec<(TilemapPos, &mut T)>)
        requires
            old(self).well_formed(),
        ensures
            final(self).well_formed(),
            r.len() == old(self).placed_tiles().len(),
            forall|i: int|
                0 <= i < r.len() ==> ((#[trigger] r[i]).0.chunk, r[i].0.tile@, *r[i].1) == old(
                    self,
                ).placed_tiles()[i],
            forall|j: int, index: int|
                0 <= j < old(self).positions().len() && 0 <= index < CHUNK_SIZE * CHUNK_SIZE
                    ==> #[trigger] final(self)@[old(self).positions()[j]]@[index] == (match old(
                    self,
                )@[old(self).positions()[j]]@[index] {
                    Some(_) => Some(
                        *final(r[tiles_before(old(self)@, old(self).positions(), j)
                            + tiles_ahead(old(self)@[old(self).positions()[j]]@, index)].1),
                    ),
                    None => None,
                }),
            forall|j: int|
                0 <= j < old(self).positions().len() ==> old(self)@[#[trigger] old(
                    self,
                ).positions()[j]].same_state(&final(self)@[old(self).positions()[j]]),
            final(self)@.dom() == old(self)@.dom(),
            final(self).positions() == old(self).positions(),
            final(self).material_handle() == old(self).material_handle(),
    {
        let ghost after = *final(self);
        let ghost end = after.chunks@;
        let ghost before = self@;
        let ghost start = self.chunks@;
        let ghost places = self.positions@;
        let mut all: Vec<(TilemapPos, &mut T)> = Vec::new();
        let mut rest: &mut [Chunk<T>] = self.chunks.as_mut_slice();
        let mut i: usize = 0;
        assert(places.take(0) =~= Seq::<IVec2>::empty());
        assert(end.skip(0) =~= final(rest)@);
        while rest.len() > 0
            invariant
                places == self.positions@,
                places.len() == start.len(),
                forall|j: int| 0 <= j < start.len() ==> before[#[trigger] places[j]] == start[j],
                forall|j: int| 0 <= j < start.len() ==> (#[trigger] start[j]).is_full_grid(),
                start.len() <= usize::MAX,
                i + rest.len() == start.len(),
                forall|j: int| 0 <= j < rest.len() ==> (#[trigger] rest[j]) == start[i + j],
                all.len() == tiles_before(before, places, i as int),
                forall|j: int|
                    0 <= j < all.len() ==> ((#[trigger] all[j]).0.chunk, all[j].0.tile@, *all[j].1)
                        == tiles_of_chunks(before, places.take(i as int))[j],
                i <= end.len(),
                end.skip(i as int) == final(rest)@,
                forall|j: int|
                    0 <= j < i ==> 0 <= #[trigger] tiles_before(before, places, j)
                        && tiles_before(before, places, j) + placed_tiles(start[j]@).len()
                        <= all.len(),
                forall|j: int|
                    0 <= j < i ==> start[j].same_state(&#[trigger] end[j]) && end[j].is_full_grid(),
                forall|j: int, index: int|
                    0 <= j < i && 0 <= index < CHUNK_SIZE * CHUNK_SIZE ==> #[trigger] end[j]@[index]
                        == (match start[j]@[index] {
                        Some(_) => Some(
                            *final(all[tiles_before(before, places, j) + tiles_ahead(start[j]@, index)].1),
                        ),
                        None => None,
                    }),
            decreases rest.len(),
        {
            let ghost rest_end = final(rest)@;
            let ghost here = tiles_of_chunk(places[i as int], start[i as int]);
            let ghost earlier = all@;
            let whole = rest;
            let (head, tail) = whole.split_at_mut(1);
            let ghost head_end = final(head)@;
            let ghost tail_end = final(tail)@;
            assert(rest_end == head_end + tail_end);
            let chunk = &mut head[0];
            let ghost chunk_end = *final(chunk);
            assert(head_end =~= seq![chunk_end]);
            assert(*chunk == start[i as int]);
            let mut tiles = chunk.iter_tilemap_positions_mut(self.positions[i]);
            proof {
                assert(places.take(i + 1).drop_last() =~= places.take(i as int));
                assert(tiles_of_chunks(before, places.take(i + 1)) == tiles_of_chunks(
                    before,
                    places.take(i as int),
                ) + here);
                assert(here.len() == tiles.len());
                assert forall|index: int|
                    0 <= index < CHUNK_SIZE * CHUNK_SIZE && start[i as int]@[index].is_some() implies 0
                    <= #[trigger] tiles_ahead(start[i as int]@, index) < tiles.len() by {
                    lemma_tiles_ahead(start[i as int]@, index);
                }
            }
            let ghost fresh = tiles@;
            all.append(&mut tiles);
            rest = tail;
            proof {
                lemma_skip_first(end, i as int, chunk_end, tail_end);
                assert(all@ == earlier + fresh);
                assert forall|j: int, index: int|
                    0 <= j < i + 1 && 0 <= index < CHUNK_SIZE * CHUNK_SIZE implies #[trigger] end[j]@[index]
                    == (match start[j]@[index] {
                    Some(_) => Some(
                        *final(all[tiles_before(before, places, j) + tiles_ahead(start[j]@, index)].1),
                    ),
                    None => None,
                }) by {
                    if start[j]@[index].is_some() {
                        lemma_tiles_ahead(start[j]@, index);
                        if j < i {
                            assert(tiles_before(before, places, j) + placed_tiles(start[j]@).len()
                                <= earlier.len());
                            assert(all@[tiles_before(before, places, j) + tiles_ahead(
                                start[j]@,
                                index,
                            )] == earlier[tiles_before(before, places, j) + tiles_ahead(
                                start[j]@,
                                index,
                            )]);
                        } else {
                            assert(all@[tiles_before(before, places, j) + tiles_ahead(
                                start[j]@,
                                index,
                            )] == fresh[tiles_ahead(start[j]@, index)]);
                        }
                    }
                }
            }
            i += 1;
        }
        proof {
            assert(final(rest)@ =~= Seq::<Chunk<T>>::empty());
            assert(end.skip(i as int).len() == 0);
            assert(end.len() == start.len());
            assert(places.take(i as int) =~= places);
            assert(after@.dom() =~= old(self)@.dom());
            assert forall|j: int| 0 <= j < places.len() implies after@[#[trigger] places[j]]
                == end[j] && before[places[j]] == start[j] by {}
        }
        all
    }
}

/// A position in a tilemap
///
/// Stored as the chunk the position is in and which tile of the chunk the
/// position is. It stands for the absolute coordinate
/// `chunk * CHUNK_SIZE + tile`.
#[derive(Debug, Clone, Copy, PartialEq, Eq, Hash, Structural)]
pub struct TilemapPos {
    /// The chunk the position is in
    pub chunk: IVec2,
    /// The tile in the chunk the position is
    pub tile: ChunkPos,
}

/// What an addition of two coordinates inside a chunk carries into the
/// chunk coordinate: 1 if their sum leaves the chunk, else 0
pub open spec fn carry_of(a: int, b: int) -> int {
    if a + b >= CHUNK_SIZE {
        1
    } else {
        0
    }
}

/// What a subtraction of two coordinates inside a chunk borrows from the
/// chunk coordinate: 1 if their difference leaves the chunk, else 0
pub open spec fn borrow_of(a: int, b: int) -> int {
    if a < b {
        1
    } else {
        0
    }
}

/// `chunk`, moved up by one on each axis that `carry` flags
fn with_carry(chunk: IVec2, carry: BVec2) -> (r: IVec2)
    requires
        carry.x ==> chunk.x < i32::MAX,
        carry.y ==> chunk.y < i32::MAX,
    ensures
        r.x == chunk.x + (if carry.x { 1int } else { 0int }),
        r.y == chunk.y + (if carry.y { 1int } else { 0int }),
{
    let mut chunk = chunk;
    if carry.x {
        chunk.x += 1
    }
    if carry.y {
        chunk.y += 1
    }
    chunk
}

/// `chunk`, moved down by one on each axis that `borrow` flags
fn with_borrow(chunk: IVec2, borrow: BVec2) -> (r: IVec2)
    requires
        borrow.x ==> chunk.x > i32::MIN,
        borrow.y ==> chunk.y > i32::MIN,
    ensures
        r.x == chunk.x - (if borrow.x { 1int } else { 0int }),
        r.y == chunk.y - (if borrow.y { 1int } else { 0int }),
{
    let mut chunk = chunk;
    if borrow.x {
        chunk.x -= 1
    }
    if borrow.y {
        chunk.y -= 1
    }
    chunk
}

/// The coordinate inside its chunk of the absolute coordinate `v`
fn local_part(v: i32) -> (r: u8)
    ensures
        r == (v as int) % (CHUNK_SIZE as int),
{
    let mask: u8 = CHUNK_SIZE as u8 - 1;
    let low: u8 = #[verifier::truncate] (v as u8);
    assert(low & 31 == v % 32) by (bit_vector)
        requires
            low == v as u8,
    ;
    low & mask
}

impl TilemapPos {
    /// Tile (0, 0) in chunk (0, 0)
    #[must_use]
    pub fn zero() -> (r: Self)
        ensures
            r.chunk == (IVec2 { x: 0, y: 0 }),
            r.tile@ == (0int, 0int),
    {
        TilemapPos { chunk: IVec2::splat(0), tile: ChunkPos::zero() }
    }

    /// The absolute coordinate that a chunk coordinate and a position in
    /// the chunk stand for
    pub open spec fn absolute_of(chunk: IVec2, tile: (int, int)) -> (int, int) {
        (chunk.x * CHUNK_SIZE + tile.0, chunk.y * CHUNK_SIZE + tile.1)
    }

    /// The absolute coordinate of this position
    pub open spec fn absolute(self) -> (int, int) {
        Self::absolute_of(self.chunk, self.tile@)
    }

    /// Whether the absolute coordinate of this position fits an [`IVec2`]
    pub open spec fn fits_ivec2(self) -> bool {
        fits_i32(self.absolute().0) && fits_i32(self.absolute().1)
    }

    /// The absolute coordinate of this position: `chunk * CHUNK_SIZE + tile`
    ///
    /// The coordinate has to fit an [`IVec2`], which it does for every
    /// position made from one.
    #[must_use]
    pub fn as_ivec2(self) -> (r: IVec2)
        requires
            self.fits_ivec2(),
        ensures
            (r.x as int, r.y as int) == self.absolute(),
    {
        proof {
            use_type_invariant(&self.tile);
        }
        let tile = self.tile.as_ivec2();
        let base = vec_scaled(self.chunk, CHUNK_SIZE as i32);
        vec_sum(base, tile)
    }
}

impl From<IVec2> for TilemapPos {
    /// The position with the absolute coordinate `v`
    ///
    /// The chunk is `v / CHUNK_SIZE` rounded down, also for negative
    /// coordinates, and the tile is what is left.
    fn from(v: IVec2) -> (r: Self) {
        let tile = ChunkPos::new(local_part(v.x), local_part(v.y));
        let towards_zero = vec_quotient(v, CHUNK_SIZE as i32);
        let below = BVec2::new(v.x < 0 && tile.x() != 0, v.y < 0 && tile.y() != 0);
        let chunk = with_borrow(towards_zero, below);
        proof {
            ChunkPos::lemma_with_coordinates(
                v.x as int % (CHUNK_SIZE as int),
                v.y as int % (CHUNK_SIZE as int),
            );
            tile.lemma_view_injective(
                ChunkPos::with_coordinates(
                    v.x as int % (CHUNK_SIZE as int),
                    v.y as int % (CHUNK_SIZE as int),
                ),
            );
        }
        TilemapPos { chunk, tile }
    }
}

impl vstd::std_specs::convert::FromSpecImpl<IVec2> for TilemapPos {
    open spec fn obeys_from_spec() -> bool {
        true
    }

    open spec fn from_spec(v: IVec2) -> Self {
        Self::at_absolute(v)
    }
}

impl TilemapPos {
    /// The position with the absolute coordinate `v`: the chunk is
    /// `v / CHUNK_SIZE` rounded down, the tile is what is left
    pub open spec fn at_absolute(v: IVec2) -> Self {
        TilemapPos {
            chunk: IVec2 {
                x: (v.x as int / (CHUNK_SIZE as int)) as i32,
                y: (v.y as int / (CHUNK_SIZE as int)) as i32,
            },
            tile: ChunkPos::with_coordinates(
                v.x as int % (CHUNK_SIZE as int),
                v.y as int % (CHUNK_SIZE as int),
            ),
        }
    }

    /// Converting an absolute coordinate to a position and back gives the
    /// coordinate again: the position made from `v` has a tile inside the
    /// chunk and the absolute coordinate `v`, which fits an [`IVec2`].
    pub proof fn lemma_absolute_round_trip(v: IVec2)
        ensures
            Self::at_absolute(v).tile.in_bounds(),
            Self::at_absolute(v).fits_ivec2(),
            Self::at_absolute(v).absolute() == (v.x as int, v.y as int),
    {
        ChunkPos::lemma_with_coordinates(
            v.x as int % (CHUNK_SIZE as int),
            v.y as int % (CHUNK_SIZE as int),
        );
    }

    /// Converting a position to its absolute coordinate and back gives the
    /// position again, so the two conversions are inverse to each other.
    pub proof fn lemma_position_round_trip(self, v: IVec2)
        requires
            self.tile.in_bounds(),
            self.absolute() == (v.x as int, v.y as int),
        ensures
            Self::at_absolute(v) == self,
    {
        ChunkPos::lemma_with_coordinates(self.tile@.0, self.tile@.1);
        self.tile.lemma_view_injective(ChunkPos::with_coordinates(self.tile@.0, self.tile@.1));
    }

    /// Addition of positions is addition of their absolute coordinates.
    pub proof fn lemma_plus_absolute(self, rhs: Self)
        requires
            self.tile.in_bounds(),
            rhs.tile.in_bounds(),
            self.can_add(rhs),
        ensures
            self.plus(rhs).tile.in_bounds(),
            self.plus(rhs).absolute().0 == self.absolute().0 + rhs.absolute().0,
            self.plus(rhs).absolute().1 == self.absolute().1 + rhs.absolute().1,
    {
        ChunkPos::lemma_with_coordinates(
            (self.tile@.0 + rhs.tile@.0) % (CHUNK_SIZE as int),
            (self.tile@.1 + rhs.tile@.1) % (CHUNK_SIZE as int),
        );
    }

    /// Subtraction of positions is subtraction of their absolute coordinates.
    pub proof fn lemma_minus_absolute(self, rhs: Self)
        requires
            self.tile.in_bounds(),
            rhs.tile.in_bounds(),
            self.can_sub(rhs),
        ensures
            self.minus(rhs).tile.in_bounds(),
            self.minus(rhs).absolute().0 == self.absolute().0 - rhs.absolute().0,
            self.minus(rhs).absolute().1 == self.absolute().1 - rhs.absolute().1,
    {
        ChunkPos::lemma_with_coordinates(
            (self.tile@.0 - rhs.tile@.0) % (CHUNK_SIZE as int),
            (self.tile@.1 - rhs.tile@.1) % (CHUNK_SIZE as int),
        );
    }
}

impl TilemapPos {
    /// Whether `self + rhs` can be computed: the chunk coordinates can be
    /// added, and the carry from the tiles can be added to their sum
    pub open spec fn can_add(self, rhs: Self) -> bool {
        &&& fits_i32(self.chunk.x + rhs.chunk.x)
        &&& fits_i32(self.chunk.y + rhs.chunk.y)
        &&& fits_i32(self.chunk.x + rhs.chunk.x + carry_of(self.tile@.0, rhs.tile@.0))
        &&& fits_i32(self.chunk.y + rhs.chunk.y + carry_of(self.tile@.1, rhs.tile@.1))
    }

    /// `self + rhs`: the tiles are added and wrapped at [`CHUNK_SIZE`], the
    /// chunks are added, and each axis on which the tiles' sum left the
    /// chunk carries one into the chunk coordinate
    pub open spec fn plus(self, rhs: Self) -> Self {
        TilemapPos {
            chunk: IVec2 {
                x: (self.chunk.x + rhs.chunk.x + carry_of(self.tile@.0, rhs.tile@.0)) as i32,
                y: (self.chunk.y + rhs.chunk.y + carry_of(self.tile@.1, rhs.tile@.1)) as i32,
            },
            tile: ChunkPos::with_coordinates(
                (self.tile@.0 + rhs.tile@.0) % (CHUNK_SIZE as int),
                (self.tile@.1 + rhs.tile@.1) % (CHUNK_SIZE as int),
            ),
        }
    }

    /// Whether `self - rhs` can be computed: the chunk coordinates can be
    /// subtracted, and the borrow of the tiles can be taken from their
    /// difference
    pub open spec fn can_sub(self, rhs: Self) -> bool {
        &&& fits_i32(self.chunk.x - rhs.chunk.x)
        &&& fits_i32(self.chunk.y - rhs.chunk.y)
        &&& fits_i32(self.chunk.x - rhs.chunk.x - borrow_of(self.tile@.0, rhs.tile@.0))
        &&& fits_i32(self.chunk.y - rhs.chunk.y - borrow_of(self.tile@.1, rhs.tile@.1))
    }

    /// `self - rhs`: the tiles are subtracted and wrapped at
    /// [`CHUNK_SIZE`], the chunks are subtracted, and each axis on which
    /// the tiles' difference left the chunk borrows one from the chunk
    /// coordinate
    pub open spec fn minus(self, rhs: Self) -> Self {
        TilemapPos {
            chunk: IVec2 {
                x: (self.chunk.x - rhs.chunk.x - borrow_of(self.tile@.0, rhs.tile@.0)) as i32,
                y: (self.chunk.y - rhs.chunk.y - borrow_of(self.tile@.1, rhs.tile@.1)) as i32,
            },
            tile: ChunkPos::with_coordinates(
                (self.tile@.0 - rhs.tile@.0) % (CHUNK_SIZE as int),
                (self.tile@.1 - rhs.tile@.1) % (CHUNK_SIZE as int),
            ),
        }
    }

    /// The position of tile `rhs` in chunk (0, 0): `rhs` as an offset in tiles
    pub open spec fn tiles_of(rhs: ChunkPos) -> Self {
        TilemapPos { chunk: IVec2 { x: 0, y: 0 }, tile: rhs }
    }
}

impl Add for TilemapPos {
    type Output = Self;

    /// Adds the positions, carrying from the tile into the chunk
    fn add(self, rhs: Self) -> (r: Self::Output) {
        proof {
            use_type_invariant(&self.tile);
            use_type_invariant(&rhs.tile);
        }
        let chunk = vec_sum(self.chunk, rhs.chunk);
        let (tile, carry) = self.tile.overflowing_add(rhs.tile);
        proof {
            ChunkPos::lemma_with_coordinates(
                (self.tile@.0 + rhs.tile@.0) % (CHUNK_SIZE as int),
                (self.tile@.1 + rhs.tile@.1) % (CHUNK_SIZE as int),
            );
            tile.lemma_view_injective(
                ChunkPos::with_coordinates(
                    (self.tile@.0 + rhs.tile@.0) % (CHUNK_SIZE as int),
                    (self.tile@.1 + rhs.tile@.1) % (CHUNK_SIZE as int),
                ),
            );
        }
        TilemapPos { chunk: with_carry(chunk, carry), tile }
    }
}

impl vstd::std_specs::ops::AddSpecImpl for TilemapPos {
    open spec fn obeys_add_spec() -> bool {
        true
    }

    open spec fn add_req(self, rhs: Self) -> bool {
        self.can_add(rhs)
    }

    open spec fn add_spec(self, rhs: Self) -> Self::Output {
        self.plus(rhs)
    }
}

impl AddAssign for TilemapPos {
    /// Adds `rhs` to this, carrying from the tile into the chunk
    fn add_assign(&mut self, rhs: Self)
        requires
            old(self).can_add(rhs),
        ensures
            *final(self) == old(self).plus(rhs),
    {
        proof {
            use_type_invariant(&self.tile);
            use_type_invariant(&rhs.tile);
        }
        let (tile, carry) = self.tile.overflowing_add(rhs.tile);
        proof {
            ChunkPos::lemma_with_coordinates(
                (old(self).tile@.0 + rhs.tile@.0) % (CHUNK_SIZE as int),
                (old(self).tile@.1 + rhs.tile@.1) % (CHUNK_SIZE as int),
            );
            tile.lemma_view_injective(
                ChunkPos::with_coordinates(
                    (old(self).tile@.0 + rhs.tile@.0) % (CHUNK_SIZE as int),
                    (old(self).tile@.1 + rhs.tile@.1) % (CHUNK_SIZE as int),
                ),
            );
        }
        self.tile = tile;
        self.chunk = with_carry(vec_sum(self.chunk, rhs.chunk), carry);
    }
}

impl Sub for TilemapPos {
    type Output = Self;

    /// Subtracts the positions, borrowing from the chunk for the tile
    fn sub(self, rhs: Self) -> (r: Self::Output) {
        proof {
            use_type_invariant(&self.tile);
            use_type_invariant(&rhs.tile);
        }
        let chunk = vec_difference(self.chunk, rhs.chunk);
        let (tile, borrow) = self.tile.overflowing_sub(rhs.tile);
        proof {
            ChunkPos::lemma_with_coordinates(
                (self.tile@.0 - rhs.tile@.0) % (CHUNK_SIZE as int),
                (self.tile@.1 - rhs.tile@.1) % (CHUNK_SIZE as int),
            );
            tile.lemma_view_injective(
                ChunkPos::with_coordinates(
                    (self.tile@.0 - rhs.tile@.0) % (CHUNK_SIZE as int),
                    (self.tile@.1 - rhs.tile@.1) % (CHUNK_SIZE as int),
                ),
            );
        }
        TilemapPos { chunk: with_borrow(chunk, borrow), tile }
    }
}

impl vstd::std_specs::ops::SubSpecImpl for TilemapPos {
    open spec fn obeys_sub_spec() -> bool {
        true
    }

    open spec fn sub_req(self, rhs: Self) -> bool {
        self.can_sub(rhs)
    }

    open spec fn sub_spec(self, rhs: Self) -> Self::Output {
        self.minus(rhs)
    }
}

impl SubAssign for TilemapPos {
    /// Subtracts `rhs` from this, borrowing from the chunk for the tile
    fn sub_assign(&mut self, rhs: Self)
        requires
            old(self).can_sub(rhs),
        ensures
            *final(self) == old(self).minus(rhs),
    {
        proof {
            use_type_invariant(&self.tile);
            use_type_invariant(&rhs.tile);
        }
        let (tile, borrow) = self.tile.overflowing_sub(rhs.tile);
        proof {
            ChunkPos::lemma_with_coordinates(
                (old(self).tile@.0 - rhs.tile@.0) % (CHUNK_SIZE as int),
                (old(self).tile@.1 - rhs.tile@.1) % (CHUNK_SIZE as int),
            );
            tile.lemma_view_injective(
                ChunkPos::with_coordinates(
                    (old(self).tile@.0 - rhs.tile@.0) % (CHUNK_SIZE as int),
                    (old(self).tile@.1 - rhs.tile@.1) % (CHUNK_SIZE as int),
                ),
            );
        }
        self.tile = tile;
        self.chunk = with_borrow(vec_difference(self.chunk, rhs.chunk), borrow);
    }
}

impl Add<ChunkPos> for TilemapPos {
    type Output = Self;

    /// `self` + `rhs` tiles, carrying from the tile into the chunk
    fn add(self, rhs: ChunkPos) -> (r: Self::Output) {
        proof {
            use_type_invariant(&self.tile);
            use_type_invariant(&rhs);
        }
        let (tile, carry) = self.tile.overflowing_add(rhs);
        proof {
            ChunkPos::lemma_with_coordinates(
                (self.tile@.0 + rhs@.0) % (CHUNK_SIZE as int),
                (self.tile@.1 + rhs@.1) % (CHUNK_SIZE as int),
            );
            tile.lemma_view_injective(
                ChunkPos::with_coordinates(
                    (self.tile@.0 + rhs@.0) % (CHUNK_SIZE as int),
                    (self.tile@.1 + rhs@.1) % (CHUNK_SIZE as int),
                ),
            );
        }
        TilemapPos { chunk: with_carry(self.chunk, carry), tile }
    }
}

impl vstd::std_specs::ops::AddSpecImpl<ChunkPos> for TilemapPos {
    open spec fn obeys_add_spec() -> bool {
        true
    }

    open spec fn add_req(self, rhs: ChunkPos) -> bool {
        self.can_add(Self::tiles_of(rhs))
    }

    open spec fn add_spec(self, rhs: ChunkPos) -> Self::Output {
        self.plus(Self::tiles_of(rhs))
    }
}

impl AddAssign<ChunkPos> for TilemapPos {
    /// `self` += `rhs` tiles, carrying from the tile into the chunk
    fn add_assign(&mut self, rhs: ChunkPos)
        requires
            old(self).can_add(Self::tiles_of(rhs)),
        ensures
            *final(self) == old(self).plus(Self::tiles_of(rhs)),
    {
        proof {
            use_type_invariant(&self.tile);
            use_type_invariant(&rhs);
        }
        let (tile, carry) = self.tile.overflowing_add(rhs);
        proof {
            ChunkPos::lemma_with_coordinates(
                (old(self).tile@.0 + rhs@.0) % (CHUNK_SIZE as int),
                (old(self).tile@.1 + rhs@.1) % (CHUNK_SIZE as int),
            );
            tile.lemma_view_injective(
                ChunkPos::with_coordinates(
                    (old(self).tile@.0 + rhs@.0) % (CHUNK_SIZE as int),
                    (old(self).tile@.1 + rhs@.1) % (CHUNK_SIZE as int),
                ),
            );
        }
        self.tile = tile;
        self.chunk = with_carry(self.chunk, carry);
    }
}

impl Sub<ChunkPos> for TilemapPos {
    type Output = Self;

    /// `self` - `rhs` tiles, borrowing from the chunk for the tile
    fn sub(self, rhs: ChunkPos) -> (r: Self::Output) {
        proof {
            use_type_invariant(&self.tile);
            use_type_invariant(&rhs);
        }
        let (tile, borrow) = self.tile.overflowing_sub(rhs);
        proof {
            ChunkPos::lemma_with_coordinates(
                (self.tile@.0 - rhs@.0) % (CHUNK_SIZE as int),
                (self.tile@.1 - rhs@.1) % (CHUNK_SIZE as int),
            );
            tile.lemma_view_injective(
                ChunkPos::with_coordinates(
                    (self.tile@.0 - rhs@.0) % (CHUNK_SIZE as int),
                    (self.tile@.1 - rhs@.1) % (CHUNK_SIZE as int),
                ),
            );
        }
        TilemapPos { chunk: with_borrow(self.chunk, borrow), tile }
    }
}

impl vstd::std_specs::ops::SubSpecImpl<ChunkPos> for TilemapPos {
    open spec fn obeys_sub_spec() -> bool {
        true
    }

    open spec fn sub_req(self, rhs: ChunkPos) -> bool {
        self.can_sub(Self::tiles_of(rhs))
    }

    open spec fn sub_spec(self, rhs: ChunkPos) -> Self::Output {
        self.minus(Self::tiles_of(rhs))
    }
}

impl SubAssign<ChunkPos> for TilemapPos {
    /// `self` -= `rhs` tiles, borrowing from the chunk for the tile
    fn sub_assign(&mut self, rhs: ChunkPos)
        requires
            old(self).can_sub(Self::tiles_of(rhs)),
        ensures
            *final(self) == old(self).minus(Self::tiles_of(rhs)),
    {
        proof {
            use_type_invariant(&self.tile);
            use_type_invariant(&rhs);
        }
        let (tile, borrow) = self.tile.overflowing_sub(rhs);
        proof {
            ChunkPos::lemma_with_coordinates(
                (old(self).tile@.0 - rhs@.0) % (CHUNK_SIZE as int),
                (old(self).tile@.1 - rhs@.1) % (CHUNK_SIZE as int),
            );
            tile.lemma_view_injective(
                ChunkPos::with_coordinates(
                    (old(self).tile@.0 - rhs@.0) % (CHUNK_SIZE as int),
                    (old(self).tile@.1 - rhs@.1) % (CHUNK_SIZE as int),
                ),
            );
        }
        self.tile = tile;
        self.chunk = with_borrow(self.chunk, borrow);
    }
}

impl Add<IVec2> for TilemapPos {
    type Output = Self;

    /// `self` + `rhs` chunks: the tile stays, and nothing is carried
    fn add(self, rhs: IVec2) -> (r: Self::Output) {
        TilemapPos { chunk: vec_sum(self.chunk, rhs), tile: self.tile }
    }
}

impl vstd::std_specs::ops::AddSpecImpl<IVec2> for TilemapPos {
    open spec fn obeys_add_spec() -> bool {
        true
    }

    open spec fn add_req(self, rhs: IVec2) -> bool {
        fits_i32(self.chunk.x + rhs.x) && fits_i32(self.chunk.y + rhs.y)
    }

    open spec fn add_spec(self, rhs: IVec2) -> Self::Output {
        (TilemapPos {
            chunk: IVec2 { x: (self.chunk.x + rhs.x) as i32, y: (self.chunk.y + rhs.y) as i32 },
            tile: self.tile,
        })
    }
}

impl AddAssign<IVec2> for TilemapPos {
    /// `self` += `rhs` chunks: the tile stays, and nothing is carried
    fn add_assign(&mut self, rhs: IVec2)
        requires
            fits_i32(old(self).chunk.x + rhs.x) && fits_i32(old(self).chunk.y + rhs.y),
        ensures
            *final(self) == (TilemapPos {
            chunk: IVec2 { x: (old(self).chunk.x + rhs.x) as i32, y: (old(self).chunk.y + rhs.y) as i32 },
            tile: old(self).tile,
        }),
    {
        self.chunk = vec_sum(self.chunk, rhs);
    }
}

impl Sub<IVec2> for TilemapPos {
    type Output = Self;

    /// `self` - `rhs` chunks: the tile stays, and nothing is borrowed
    fn sub(self, rhs: IVec2) -> (r: Self::Output) {
        TilemapPos { chunk: vec_difference(self.chunk, rhs), tile: self.tile }
    }
}

impl vstd::std_specs::ops::SubSpecImpl<IVec2> for TilemapPos {
    open spec fn obeys_sub_spec() -> bool {
        true
    }

    open spec fn sub_req(self, rhs: IVec2) -> bool {
        fits_i32(self.chunk.x - rhs.x) && fits_i32(self.chunk.y - rhs.y)
    }

    open spec fn sub_spec(self, rhs: IVec2) -> Self::Output {
        (TilemapPos {
            chunk: IVec2 { x: (self.chunk.x - rhs.x) as i32, y: (self.chunk.y - rhs.y) as i32 },
            tile: self.tile,
        })
    }
}

impl SubAssign<IVec2> for TilemapPos {
    /// `self` -= `rhs` chunks: the tile stays, and nothing is borrowed
    fn sub_assign(&mut self, rhs: IVec2)
        requires
            fits_i32(old(self).chunk.x - rhs.x) && fits_i32(old(self).chunk.y - rhs.y),
        ensures
            *final(self) == (TilemapPos {
            chunk: IVec2 { x: (old(self).chunk.x - rhs.x) as i32, y: (old(self).chunk.y - rhs.y) as i32 },
            tile: old(self).tile,
        }),
    {
        self.chunk = vec_difference(self.chunk, rhs);
    }
}

} // verus!
