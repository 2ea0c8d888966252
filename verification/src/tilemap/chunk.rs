use std::ops::{Add, AddAssign, Index, IndexMut, Sub, SubAssign};
use vstd::prelude::*;

use crate::math::{BVec2, IVec2};
use crate::rendering::MeshBuilder;
use crate::tile::Tile;
use crate::tilemap::TilemapPos;
use crate::CHUNK_SIZE;

verus! {

/// The entities of bevy. A chunk keeps the entity that shows its mesh as a
/// key to look it up with; nothing here looks into one.
#[verifier::external_type_specification]
#[verifier::external_body]
pub struct ExEntity(bevy::ecs::entity::Entity);

/// A chunk of tiles; [`CHUNK_SIZE`] by [`CHUNK_SIZE`]
///
/// Seen as a sequence, a chunk is its [`CHUNK_SIZE`]`*`[`CHUNK_SIZE`] tile
/// slots in row-major order: the slot of a position stands at the
/// position's [index](ChunkPos::as_index).
#[derive(Debug)]
pub struct Chunk<T: Tile> {
    tiles: Vec<Option<T>>,
    regenerate_mesh: bool,
    mesh_carry_data: <<T as Tile>::MeshBuilder as MeshBuilder>::CarryData,
    mesh_entity: Option<bevy::ecs::entity::Entity>,
}

impl<T: Tile> View for Chunk<T> {
    type V = Seq<Option<T>>;

    /// The tile slots in row-major order
    closed spec fn view(&self) -> Seq<Option<T>> {
        self.tiles@
    }
}

/// The tiles in `slots` with their positions, in row-major order: for each
/// slot that holds a tile, the position that stands at the slot's index,
/// and the tile
pub open spec fn placed_tiles<T>(slots: Seq<Option<T>>) -> Seq<((int, int), T)>
    decreases slots.len(),
{
    if slots.len() == 0 {
        Seq::empty()
    } else {
        let before = placed_tiles(slots.drop_last());
        match slots.last() {
            Some(tile) => before.push((ChunkPos::at_index(slots.len() - 1), tile)),
            None => before,
        }
    }
}

/// `slots` with the tiles of `tiles` in place of its own: the first slot
/// that holds a tile holds the first of `tiles` instead, and so on in
/// row-major order; the empty slots stay empty
spec fn with_tiles<T>(slots: Seq<Option<T>>, tiles: Seq<T>) -> Seq<Option<T>>
    decreases slots.len(),
{
    if slots.len() == 0 {
        Seq::empty()
    } else if slots.last().is_some() {
        with_tiles(slots.drop_last(), tiles.drop_last()).push(Some(tiles.last()))
    } else {
        with_tiles(slots.drop_last(), tiles).push(None)
    }
}

/// Putting other tiles in place leaves the number of slots as it is.
proof fn lemma_with_tiles_len<T>(slots: Seq<Option<T>>, tiles: Seq<T>)
    ensures
        with_tiles(slots, tiles).len() == slots.len(),
    decreases slots.len(),
{
    if slots.len() > 0 {
        if slots.last().is_some() {
            lemma_with_tiles_len(slots.drop_last(), tiles.drop_last());
        } else {
            lemma_with_tiles_len(slots.drop_last(), tiles);
        }
    }
}

/// How many of the slots before the one at `index` hold a tile
pub open spec fn tiles_ahead<T>(slots: Seq<Option<T>>, index: int) -> int {
    placed_tiles(slots.take(index)).len() as int
}

/// The first `count` slots hold at most as many tiles as all of them.
pub proof fn lemma_placed_tiles_prefix<T>(slots: Seq<Option<T>>, count: int)
    requires
        0 <= count <= slots.len(),
    ensures
        placed_tiles(slots.take(count)).len() <= placed_tiles(slots).len(),
    decreases slots.len() - count,
{
    if count < slots.len() {
        lemma_placed_tiles_prefix(slots, count + 1);
        assert(slots.take(count + 1).drop_last() =~= slots.take(count));
    } else {
        assert(slots.take(count) =~= slots);
    }
}

/// A slot that holds a tile has fewer tiles ahead of it than there are
/// tiles.
pub proof fn lemma_tiles_ahead<T>(slots: Seq<Option<T>>, index: int)
    requires
        0 <= index < slots.len(),
        slots[index].is_some(),
    ensures
        0 <= tiles_ahead(slots, index) < placed_tiles(slots).len(),
{
    lemma_placed_tiles_prefix(slots, index + 1);
    assert(slots.take(index + 1).drop_last() =~= slots.take(index));
}

/// Every tile of `slots` is placed, once: the tile of the slot at `index`
/// stands among the placed tiles where as many tiles stand ahead of it as
/// in the slots, with the position that stands at `index`.
pub proof fn lemma_placed_tile_at<T>(slots: Seq<Option<T>>, index: int)
    requires
        0 <= index < slots.len(),
        slots[index].is_some(),
    ensures
        0 <= tiles_ahead(slots, index) < placed_tiles(slots).len(),
        placed_tiles(slots)[tiles_ahead(slots, index)] == (
            ChunkPos::at_index(index),
            slots[index].unwrap(),
        ),
    decreases slots.len(),
{
    lemma_tiles_ahead(slots, index);
    if index == slots.len() - 1 {
        assert(slots.take(index) =~= slots.drop_last());
    } else {
        lemma_placed_tile_at(slots.drop_last(), index);
        assert(slots.drop_last().take(index) =~= slots.take(index));
    }
}

/// With other tiles in place, a slot that held a tile holds the one
/// of `tiles` that stands where the slot's tile stood among the tiles, and
/// an empty slot is empty.
proof fn lemma_with_tiles_at<T>(slots: Seq<Option<T>>, tiles: Seq<T>, index: int)
    requires
        tiles.len() == placed_tiles(slots).len(),
        0 <= index < slots.len(),
    ensures
        with_tiles(slots, tiles).len() == slots.len(),
        with_tiles(slots, tiles)[index] == (match slots[index] {
            Some(_) => Some(tiles[tiles_ahead(slots, index)]),
            None => None,
        }),
    decreases slots.len(),
{
    lemma_with_tiles_len(slots, tiles);
    let shorter = slots.drop_last();
    let others = if slots.last().is_some() {
        tiles.drop_last()
    } else {
        tiles
    };
    lemma_with_tiles_len(shorter, others);
    if index == slots.len() - 1 {
        assert(slots.take(index) =~= shorter);
    } else {
        lemma_with_tiles_at(shorter, others, index);
        assert(shorter.take(index) =~= slots.take(index));
        if slots[index].is_some() {
            lemma_tiles_ahead(shorter, index);
        }
    }
}

impl<T: Tile> Chunk<T> {
    /// What holds of every chunk that [`Default`] made and the functions
    /// of this type changed: it has exactly
    /// [`CHUNK_SIZE`]`*`[`CHUNK_SIZE`] slots
    pub open spec fn is_full_grid(&self) -> bool {
        self@.len() == CHUNK_SIZE * CHUNK_SIZE
    }

    /// Whether the mesh of this chunk has to be generated again
    pub closed spec fn dirty(&self) -> bool {
        self.regenerate_mesh
    }

    /// What the last generation of the mesh left for the next one
    pub closed spec fn carry_data(&self) -> <<T as Tile>::MeshBuilder as MeshBuilder>::CarryData {
        self.mesh_carry_data
    }

    /// The entity that shows the mesh of this chunk, if there is one yet
    pub closed spec fn entity(&self) -> Option<bevy::ecs::entity::Entity> {
        self.mesh_entity
    }

    /// The slot of the position with coordinates `pos`
    pub open spec fn slot_at(&self, pos: (int, int)) -> Option<T> {
        self@[ChunkPos::index_of(pos)]
    }

    /// Whether this is a chunk as [`Default`] makes it: without tiles, its
    /// mesh up to date, with carry data that the `default` of their type
    /// may return, and without an entity
    pub open spec fn is_fresh(&self) -> bool {
        &&& self@ == Seq::new((CHUNK_SIZE * CHUNK_SIZE) as nat, |i: int| None::<T>)
        &&& !self.dirty()
        &&& self.entity().is_none()
        &&& call_ensures(
            <<<T as Tile>::MeshBuilder as MeshBuilder>::CarryData as Default>::default,
            (),
            self.carry_data(),
        )
    }

    /// This chunk once it is told to regenerate its mesh: nothing but the
    /// record of that differs
    pub closed spec fn marked(self) -> Self {
        Chunk { regenerate_mesh: true, ..self }
    }

    /// Telling a chunk to regenerate its mesh is idempotent: a chunk that
    /// was told needs its mesh generated again, and telling it once more
    /// changes nothing. Nothing else about the chunk changes either way.
    pub proof fn lemma_marked_is_idempotent(self)
        ensures
            self.marked().dirty(),
            self.marked().marked() == self.marked(),
            self.marked()@ == self@,
            self.dirty() ==> self.marked() == self,
            self.marked().carry_data() == self.carry_data(),
            self.marked().entity() == self.entity(),
    {
    }

    /// Whether `other` differs from this at most in its slots
    pub open spec fn same_state(&self, other: &Self) -> bool {
        &&& other.dirty() == self.dirty()
        &&& other.carry_data() == self.carry_data()
        &&& other.entity() == self.entity()
    }

    /// Returns `true` if the mesh of this has to be generated again
    #[must_use]
    pub fn is_dirty(&self) -> (r: bool)
        ensures
            r == self.dirty(),
    {
        self.regenerate_mesh
    }

    /// What the last generation of the mesh left for the next one
    #[must_use]
    pub fn mesh_carry_data(&self) -> (r: &<<T as Tile>::MeshBuilder as MeshBuilder>::CarryData)
        ensures
            *r == self.carry_data(),
    {
        &self.mesh_carry_data
    }

    /// The entity that shows the mesh of this chunk, if one was attached
    #[must_use]
    pub fn mesh_entity(&self) -> (r: Option<bevy::ecs::entity::Entity>)
        ensures
            r == self.entity(),
    {
        self.mesh_entity
    }

    /// Attaches the entity that shows the mesh of this chunk
    pub fn set_mesh_entity(&mut self, entity: bevy::ecs::entity::Entity)
        requires
            old(self).is_full_grid(),
        ensures
            final(self).is_full_grid(),
            final(self).entity() == Some(entity),
            final(self)@ == old(self)@,
            final(self).dirty() == old(self).dirty(),
            final(self).carry_data() == old(self).carry_data(),
    {
        self.mesh_entity = Some(entity);
    }

    /// Returns `true` if there is a tile at the position specified
    #[must_use]
    pub fn is_set(&self, pos: ChunkPos) -> (r: bool)
        requires
            self.is_full_grid(),
        ensures
            r == self.slot_at(pos@).is_some(),
    {
        self.tiles[pos.as_index()].is_some()
    }

    /// Returns a reference to the tile at the position if there is one
    #[must_use]
    pub fn get(&self, pos: ChunkPos) -> (r: Option<&T>)
        requires
            self.is_full_grid(),
        ensures
            r.is_some() == self.slot_at(pos@).is_some(),
            r.is_some() ==> *r.unwrap() == self.slot_at(pos@).unwrap(),
    {
        self.tiles[pos.as_index()].as_ref()
    }

    /// Returns a mutable reference to the tile at the position if there is one
    ///
    /// If mutating the tile results in a change that requires
    /// regenerating the chunk mesh, call [`Self::regenerate_mesh()`]
    #[must_use]
    pub fn get_mut(&mut self, pos: ChunkPos) -> (r: Option<&mut T>)
        requires
            old(self).is_full_grid(),
        ensures
            final(self).is_full_grid(),
            r.is_some() == old(self).slot_at(pos@).is_some(),
            r.is_some() ==> *r.unwrap() == old(self).slot_at(pos@).unwrap(),
            final(self)@ == (match r {
                Some(tile) => old(self)@.update(ChunkPos::index_of(pos@), Some(*final(tile))),
                None => old(self)@,
            }),
            old(self).same_state(final(self)),
    {
        self.tiles[pos.as_index()].as_mut()
    }

    /// Tells this to regenerate its mesh the next time it is displayed
    ///
    /// Mesh regeneration is more expensive than animation, so use animation whenever
    /// possible
    #[inline]
    pub fn regenerate_mesh(&mut self)
        requires
            old(self).is_full_grid(),
        ensures
            final(self).is_full_grid(),
            *final(self) == old(self).marked(),
            final(self).dirty(),
            final(self)@ == old(self)@,
            final(self).carry_data() == old(self).carry_data(),
            final(self).entity() == old(self).entity(),
    {
        self.regenerate_mesh = true;
    }

    /// Returns all tile slots in this
    ///
    /// They stand in row-major order
    pub fn iter(&self) -> (r: Vec<&Option<T>>)
        requires
            self.is_full_grid(),
        ensures
            r.len() == CHUNK_SIZE * CHUNK_SIZE,
            forall|i: int| 0 <= i < r.len() ==> *(#[trigger] r[i]) == self@[i],
    {
        let mut slots: Vec<&Option<T>> = Vec::new();
        let mut i: usize = 0;
        while i < self.tiles.len()
            invariant
                i <= self.tiles.len(),
                slots.len() == i,
                forall|j: int| 0 <= j < i ==> *(#[trigger] slots[j]) == self.tiles[j],
            decreases self.tiles.len() - i,
        {
            slots.push(&self.tiles[i]);
            i += 1;
        }
        slots
    }

    /// Returns all the set tiles in this, in row-major order
    pub fn iter_tiles(&self) -> (r: Vec<&T>)
        requires
            self.is_full_grid(),
        ensures
            r.len() == placed_tiles(self@).len(),
            forall|i: int| 0 <= i < r.len() ==> *(#[trigger] r[i]) == placed_tiles(self@)[i].1,
    {
        let slots = self.iter();
        let mut tiles: Vec<&T> = Vec::new();
        let mut i: usize = 0;
        while i < slots.len()
            invariant
                i <= slots.len(),
                slots.len() == self@.len(),
                forall|j: int| 0 <= j < slots.len() ==> *(#[trigger] slots[j]) == self@[j],
                tiles.len() == placed_tiles(self@.take(i as int)).len(),
                forall|j: int|
                    0 <= j < tiles.len() ==> *(#[trigger] tiles[j]) == placed_tiles(
                        self@.take(i as int),
                    )[j].1,
            decreases slots.len() - i,
        {
            proof {
                assert(self@.take(i + 1).drop_last() =~= self@.take(i as int));
            }
            match slots[i] {
                Some(tile) => tiles.push(tile),
                None => {},
            }
            i += 1;
        }
        proof {
            assert(self@.take(i as int) =~= self@);
        }
        tiles
    }

    /// Returns all tile slots in this and their position
    ///
    /// They stand in row-major order
    ///
    /// If you are looking for all positions in a chunk,
    /// use [`ChunkPos::iter_positions()`]
    pub fn iter_positions(&self) -> (r: Vec<(ChunkPos, &Option<T>)>)
        requires
            self.is_full_grid(),
        ensures
            r.len() == CHUNK_SIZE * CHUNK_SIZE,
            forall|i: int|
                0 <= i < r.len() ==> (#[trigger] r[i]).0@ == ChunkPos::at_index(i) && *r[i].1
                    == self@[i],
    {
        let positions = ChunkPos::iter_positions();
        let slots = self.iter();
        let mut pairs: Vec<(ChunkPos, &Option<T>)> = Vec::new();
        let mut i: usize = 0;
        while i < slots.len()
            invariant
                i <= slots.len(),
                slots.len() == positions.len(),
                pairs.len() == i,
                forall|j: int|
                    0 <= j < i ==> (#[trigger] pairs[j]).0 == positions[j] && pairs[j].1
                        == slots[j],
            decreases slots.len() - i,
        {
            pairs.push((positions[i], slots[i]));
            i += 1;
        }
        pairs
    }

    /// Returns all the set tiles in this and their positions, in row-major order
    pub fn iter_tile_positions(&self) -> (r: Vec<(ChunkPos, &T)>)
        requires
            self.is_full_grid(),
        ensures
            r.len() == placed_tiles(self@).len(),
            forall|i: int|
                0 <= i < r.len() ==> ((#[trigger] r[i]).0@, *r[i].1) == placed_tiles(self@)[i],
    {
        let pairs = self.iter_positions();
        let mut tiles: Vec<(ChunkPos, &T)> = Vec::new();
        let mut i: usize = 0;
        while i < pairs.len()
            invariant
                i <= pairs.len(),
                pairs.len() == self@.len(),
                forall|j: int|
                    0 <= j < pairs.len() ==> (#[trigger] pairs[j]).0@ == ChunkPos::at_index(j)
                        && *pairs[j].1 == self@[j],
                tiles.len() == placed_tiles(self@.take(i as int)).len(),
                forall|j: int|
                    0 <= j < tiles.len() ==> ((#[trigger] tiles[j]).0@, *tiles[j].1)
                        == placed_tiles(self@.take(i as int))[j],
            decreases pairs.len() - i,
        {
            proof {
                assert(self@.take(i + 1).drop_last() =~= self@.take(i as int));
            }
            let (pos, slot) = pairs[i];
            match slot {
                Some(tile) => tiles.push((pos, tile)),
                None => {},
            }
            i += 1;
        }
        proof {
            assert(self@.take(i as int) =~= self@);
        }
        tiles
    }

    /// Returns all tile slots in this, each open to change
    ///
    /// They stand in row-major order.
    /// If mutating a tile slot results in a change that requires
    /// regenerating the chunk mesh, call [`Self::regenerate_mesh()`]
    pub fn iter_mut(&mut self) -> (r: Vec<&mut Option<T>>)
        requires
            old(self).is_full_grid(),
        ensures
            final(self).is_full_grid(),
            r.len() == CHUNK_SIZE * CHUNK_SIZE,
            forall|i: int| 0 <= i < r.len() ==> *(#[trigger] r[i]) == old(self)@[i],
            forall|i: int| 0 <= i < r.len() ==> final(self)@[i] == *final(#[trigger] r[i]),
            old(self).same_state(final(self)),
    {
        let ghost end = final(self)@;
        let ghost start = self@;
        let mut slots: Vec<&mut Option<T>> = Vec::new();
        let mut rest: &mut [Option<T>] = self.tiles.as_mut_slice();
        assert(Seq::new(slots.len() as nat, |i: int| *final(slots[i])) + final(rest)@ =~= end);
        while rest.len() > 0
            invariant
                slots.len() + rest.len() == start.len(),
                forall|i: int| 0 <= i < slots.len() ==> *(#[trigger] slots[i]) == start[i],
                forall|i: int| 0 <= i < rest.len() ==> (#[trigger] rest[i]) == start[slots.len() + i],
                end == Seq::new(slots.len() as nat, |i: int| *final(slots[i])) + final(rest)@,
            decreases rest.len(),
        {
            let ghost done = Seq::new(slots.len() as nat, |i: int| *final(slots[i]));
            let ghost rest_end = final(rest)@;
            let whole = rest;
            let (head, tail) = whole.split_at_mut(1);
            let ghost head_end = final(head)@;
            let ghost tail_end = final(tail)@;
            assert(rest_end == head_end + tail_end);
            let slot = &mut head[0];
            let ghost slot_end = *final(slot);
            assert(head_end =~= seq![slot_end]);
            slots.push(slot);
            rest = tail;
            assert(Seq::new(slots.len() as nat, |i: int| *final(slots[i])) =~= done.push(
                slot_end,
            ));
            let ghost all_end = Seq::new(slots.len() as nat, |i: int| *final(slots[i]));
            assert(end =~= all_end + final(rest)@);
        }
        assert(final(rest)@ =~= Seq::<Option<T>>::empty());
        slots
    }

    /// Returns all tile slots in this and their position, each slot open
    /// to change
    ///
    /// They stand in row-major order.
    /// If mutating a tile slot results in a change that requires
    /// regenerating the chunk mesh, call [`Self::regenerate_mesh()`]
    ///
    /// If you are looking for all positions in a chunk,
    /// use [`ChunkPos::iter_positions()`]
    pub fn iter_positions_mut(&mut self) -> (r: Vec<(ChunkPos, &mut Option<T>)>)
        requires
            old(self).is_full_grid(),
        ensures
            final(self).is_full_grid(),
            r.len() == CHUNK_SIZE * CHUNK_SIZE,
            forall|i: int|
                0 <= i < r.len() ==> (#[trigger] r[i]).0@ == ChunkPos::at_index(i) && *r[i].1
                    == old(self)@[i],
            forall|i: int| 0 <= i < r.len() ==> final(self)@[i] == *final((#[trigger] r[i]).1),
            old(self).same_state(final(self)),
    {
        let ghost end = final(self)@;
        let ghost start = self@;
        let positions = ChunkPos::iter_positions();
        let mut pairs: Vec<(ChunkPos, &mut Option<T>)> = Vec::new();
        let mut rest: &mut [Option<T>] = self.tiles.as_mut_slice();
        assert(Seq::new(pairs.len() as nat, |i: int| *final(pairs[i].1)) + final(rest)@ =~= end);
        while rest.len() > 0
            invariant
                positions.len() == start.len(),
                forall|i: int|
                    0 <= i < positions.len() ==> (#[trigger] positions[i])@ == ChunkPos::at_index(
                        i,
                    ),
                pairs.len() + rest.len() == start.len(),
                forall|i: int|
                    0 <= i < pairs.len() ==> (#[trigger] pairs[i]).0 == positions[i] && *pairs[i].1
                        == start[i],
                forall|i: int| 0 <= i < rest.len() ==> (#[trigger] rest[i]) == start[pairs.len() + i],
                end == Seq::new(pairs.len() as nat, |i: int| *final(pairs[i].1)) + final(rest)@,
            decreases rest.len(),
        {
            let ghost done = Seq::new(pairs.len() as nat, |i: int| *final(pairs[i].1));
            let ghost rest_end = final(rest)@;
            let whole = rest;
            let (head, tail) = whole.split_at_mut(1);
            let ghost head_end = final(head)@;
            let ghost tail_end = final(tail)@;
            assert(rest_end == head_end + tail_end);
            let slot = &mut head[0];
            let ghost slot_end = *final(slot);
            assert(head_end =~= seq![slot_end]);
            let pos = positions[pairs.len()];
            pairs.push((pos, slot));
            rest = tail;
            assert(Seq::new(pairs.len() as nat, |i: int| *final(pairs[i].1)) =~= done.push(
                slot_end,
            ));
            let ghost all_end = Seq::new(pairs.len() as nat, |i: int| *final(pairs[i].1));
            assert(end =~= all_end + final(rest)@);
        }
        assert(final(rest)@ =~= Seq::<Option<T>>::empty());
        pairs
    }

    /// Returns all the set tiles in this, each open to change, in
    /// row-major order
    ///
    /// If mutating a tile results in a change that requires
    /// regenerating the chunk mesh, call [`Self::regenerate_mesh()`]
    pub fn iter_tiles_mut(&mut self) -> (r: Vec<&mut T>)
        requires
            old(self).is_full_grid(),
        ensures
            final(self).is_full_grid(),
            r.len() == placed_tiles(old(self)@).len(),
            forall|i: int|
                0 <= i < r.len() ==> *(#[trigger] r[i]) == placed_tiles(old(self)@)[i].1,
            forall|index: int|
                0 <= index < CHUNK_SIZE * CHUNK_SIZE ==> #[trigger] final(self)@[index] == (match old(
                    self,
                )@[index] {
                    Some(_) => Some(*final(r[tiles_ahead(old(self)@, index)])),
                    None => None,
                }),
            old(self).same_state(final(self)),
    {
        let ghost end = final(self)@;
        let ghost start = self@;
        let mut tiles: Vec<&mut T> = Vec::new();
        let mut rest: &mut [Option<T>] = self.tiles.as_mut_slice();
        let mut k: usize = 0;
        assert(start.take(0) =~= Seq::<Option<T>>::empty());
        assert(with_tiles(start.take(0), Seq::new(tiles.len() as nat, |i: int| *final(tiles[i])))
            + final(rest)@ =~= end);
        while rest.len() > 0
            invariant
                start.len() == CHUNK_SIZE * CHUNK_SIZE,
                k + rest.len() == start.len(),
                forall|i: int| 0 <= i < rest.len() ==> (#[trigger] rest[i]) == start[k + i],
                tiles.len() == placed_tiles(start.take(k as int)).len(),
                forall|j: int|
                    0 <= j < tiles.len() ==> *(#[trigger] tiles[j]) == placed_tiles(
                        start.take(k as int),
                    )[j].1,
                end == with_tiles(
                    start.take(k as int),
                    Seq::new(tiles.len() as nat, |i: int| *final(tiles[i])),
                ) + final(rest)@,
            decreases rest.len(),
        {
            let ghost done = Seq::new(tiles.len() as nat, |i: int| *final(tiles[i]));
            let ghost rest_end = final(rest)@;
            let whole = rest;
            let (head, tail) = whole.split_at_mut(1);
            let ghost head_end = final(head)@;
            let ghost tail_end = final(tail)@;
            assert(rest_end == head_end + tail_end);
            let slot = &mut head[0];
            let ghost slot_end = *final(slot);
            assert(head_end =~= seq![slot_end]);
            assert(*slot == start[k as int]);
            proof {
                assert(start.take(k + 1).drop_last() =~= start.take(k as int));
                assert(start.take(k + 1).last() == start[k as int]);
            }
            match slot.as_mut() {
                Some(tile) => {
                    let ghost tile_end = *final(tile);
                    assert(slot_end == Some(tile_end));
                    tiles.push(tile);
                    proof {
                        let now = Seq::new(tiles.len() as nat, |i: int| *final(tiles[i]));
                        assert(now.drop_last() =~= done);
                        assert(now.last() == tile_end);
                        assert(with_tiles(start.take(k + 1), now) =~= with_tiles(
                            start.take(k as int),
                            done,
                        ).push(slot_end));
                    }
                },
                None => {
                    proof {
                        assert(slot_end.is_none());
                        let now = Seq::new(tiles.len() as nat, |i: int| *final(tiles[i]));
                        assert(now =~= done);
                        assert(with_tiles(start.take(k + 1), now) =~= with_tiles(
                            start.take(k as int),
                            done,
                        ).push(slot_end));
                    }
                },
            }
            rest = tail;
            k += 1;
            proof {
                let now = Seq::new(tiles.len() as nat, |i: int| *final(tiles[i]));
                assert(end =~= with_tiles(start.take(k as int), now) + final(rest)@);
            }
        }
        proof {
            assert(final(rest)@ =~= Seq::<Option<T>>::empty());
            assert(start.take(k as int) =~= start);
            let now = Seq::new(tiles.len() as nat, |i: int| *final(tiles[i]));
            lemma_with_tiles_len(start, now);
            assert(end =~= with_tiles(start, now));
            assert forall|index: int| 0 <= index < CHUNK_SIZE * CHUNK_SIZE implies #[trigger] end[index]
                == (match start[index] {
                Some(_) => Some(*final(tiles[tiles_ahead(start, index)])),
                None => None,
            }) by {
                lemma_with_tiles_at(start, now, index);
                if start[index].is_some() {
                    lemma_tiles_ahead(start, index);
                }
            }
        }
        tiles
    }

    /// Returns all the set tiles in this and their positions, each tile
    /// open to change, in row-major order
    ///
    /// If mutating a tile results in a change that requires
    /// regenerating the chunk mesh, call [`Self::regenerate_mesh()`]
    pub fn iter_tile_positions_mut(&mut self) -> (r: Vec<(ChunkPos, &mut T)>)
        requires
            old(self).is_full_grid(),
        ensures
            final(self).is_full_grid(),
            r.len() == placed_tiles(old(self)@).len(),
            forall|i: int|
                0 <= i < r.len() ==> ((#[trigger] r[i]).0@, *r[i].1) == placed_tiles(
                    old(self)@,
                )[i],
            forall|index: int|
                0 <= index < CHUNK_SIZE * CHUNK_SIZE ==> #[trigger] final(self)@[index] == (match old(
                    self,
                )@[index] {
                    Some(_) => Some(*final(r[tiles_ahead(old(self)@, index)].1)),
                    None => None,
                }),
            old(self).same_state(final(self)),
    {
        let ghost end = final(self)@;
        let ghost start = self@;
        let positions = ChunkPos::iter_positions();
        let mut tiles: Vec<(ChunkPos, &mut T)> = Vec::new();
        let mut rest: &mut [Option<T>] = self.tiles.as_mut_slice();
        let mut k: usize = 0;
        assert(start.take(0) =~= Seq::<Option<T>>::empty());
        assert(with_tiles(start.take(0), Seq::new(tiles.len() as nat, |i: int| *final(tiles[i].1)))
            + final(rest)@ =~= end);
        while rest.len() > 0
            invariant
                positions.len() == start.len(),
                forall|i: int|
                    0 <= i < positions.len() ==> (#[trigger] positions[i])@ == ChunkPos::at_index(
                        i,
                    ),
                start.len() == CHUNK_SIZE * CHUNK_SIZE,
                k + rest.len() == start.len(),
                forall|i: int| 0 <= i < rest.len() ==> (#[trigger] rest[i]) == start[k + i],
                tiles.len() == placed_tiles(start.take(k as int)).len(),
                forall|j: int|
                    0 <= j < tiles.len() ==> ((#[trigger] tiles[j]).0@, *tiles[j].1)
                        == placed_tiles(start.take(k as int))[j],
                end == with_tiles(
                    start.take(k as int),
                    Seq::new(tiles.len() as nat, |i: int| *final(tiles[i].1)),
                ) + final(rest)@,
            decreases rest.len(),
        {
            let ghost done = Seq::new(tiles.len() as nat, |i: int| *final(tiles[i].1));
            let ghost rest_end = final(rest)@;
            let whole = rest;
            let (head, tail) = whole.split_at_mut(1);
            let ghost head_end = final(head)@;
            let ghost tail_end = final(tail)@;
            assert(rest_end == head_end + tail_end);
            let slot = &mut head[0];
            let ghost slot_end = *final(slot);
            assert(head_end =~= seq![slot_end]);
            assert(*slot == start[k as int]);
            proof {
                assert(start.take(k + 1).drop_last() =~= start.take(k as int));
                assert(start.take(k + 1).last() == start[k as int]);
            }
            match slot.as_mut() {
                Some(tile) => {
                    let ghost tile_end = *final(tile);
                    assert(slot_end == Some(tile_end));
                    tiles.push((positions[k], tile));
                    proof {
                        let now = Seq::new(tiles.len() as nat, |i: int| *final(tiles[i].1));
                        assert(now.drop_last() =~= done);
                        assert(now.last() == tile_end);
                        assert(with_tiles(start.take(k + 1), now) =~= with_tiles(
                            start.take(k as int),
                            done,
                        ).push(slot_end));
                    }
                },
                None => {
                    proof {
                        assert(slot_end.is_none());
                        let now = Seq::new(tiles.len() as nat, |i: int| *final(tiles[i].1));
                        assert(now =~= done);
                        assert(with_tiles(start.take(k + 1), now) =~= with_tiles(
                            start.take(k as int),
                            done,
                        ).push(slot_end));
                    }
                },
            }
            rest = tail;
            k += 1;
            proof {
                let now = Seq::new(tiles.len() as nat, |i: int| *final(tiles[i].1));
                assert(end =~= with_tiles(start.take(k as int), now) + final(rest)@);
            }
        }
        proof {
            assert(final(rest)@ =~= Seq::<Option<T>>::empty());
            assert(start.take(k as int) =~= start);
            let now = Seq::new(tiles.len() as nat, |i: int| *final(tiles[i].1));
            lemma_with_tiles_len(start, now);
            assert(end =~= with_tiles(start, now));
            assert forall|index: int| 0 <= index < CHUNK_SIZE * CHUNK_SIZE implies #[trigger] end[index]
                == (match start[index] {
                Some(_) => Some(*final(tiles[tiles_ahead(start, index)].1)),
                None => None,
            }) by {
                lemma_with_tiles_at(start, now, index);
                if start[index].is_some() {
                    lemma_tiles_ahead(start, index);
                }
            }
        }
        tiles
    }

    /// Returns all the set tiles in this and their positions in the
    /// tilemap, for a chunk that stands at `chunk`, each tile open to
    /// change, in row-major order
    pub(crate) fn iter_tilemap_positions_mut(&mut self, chunk: IVec2) -> (r: Vec<
        (TilemapPos, &mut T),
    >)
        requires
            old(self).is_full_grid(),
        ensures
            final(self).is_full_grid(),
            r.len() == placed_tiles(old(self)@).len(),
            forall|i: int|
                0 <= i < r.len() ==> ((#[trigger] r[i]).0.tile@, *r[i].1) == placed_tiles(
                    old(self)@,
                )[i] && r[i].0.chunk == chunk,
            forall|index: int|
                0 <= index < CHUNK_SIZE * CHUNK_SIZE ==> #[trigger] final(self)@[index] == (match old(
                    self,
                )@[index] {
                    Some(_) => Some(*final(r[tiles_ahead(old(self)@, index)].1)),
                    None => None,
                }),
            old(self).same_state(final(self)),
    {
        let ghost end = final(self)@;
        let ghost start = self@;
        let positions = ChunkPos::iter_positions();
        let mut tiles: Vec<(TilemapPos, &mut T)> = Vec::new();
        let mut rest: &mut [Option<T>] = self.tiles.as_mut_slice();
        let mut k: usize = 0;
        assert(start.take(0) =~= Seq::<Option<T>>::empty());
        assert(with_tiles(start.take(0), Seq::new(tiles.len() as nat, |i: int| *final(tiles[i].1)))
            + final(rest)@ =~= end);
        while rest.len() > 0
            invariant
                positions.len() == start.len(),
                forall|i: int|
                    0 <= i < positions.len() ==> (#[trigger] positions[i])@ == ChunkPos::at_index(
                        i,
                    ),
                start.len() == CHUNK_SIZE * CHUNK_SIZE,
                k + rest.len() == start.len(),
                forall|i: int| 0 <= i < rest.len() ==> (#[trigger] rest[i]) == start[k + i],
                tiles.len() == placed_tiles(start.take(k as int)).len(),
                forall|j: int|
                    0 <= j < tiles.len() ==> ((#[trigger] tiles[j]).0.tile@, *tiles[j].1)
                        == placed_tiles(start.take(k as int))[j] && tiles[j].0.chunk == chunk,
                end == with_tiles(
                    start.take(k as int),
                    Seq::new(tiles.len() as nat, |i: int| *final(tiles[i].1)),
                ) + final(rest)@,
            decreases rest.len(),
        {
            let ghost done = Seq::new(tiles.len() as nat, |i: int| *final(tiles[i].1));
            let ghost rest_end = final(rest)@;
            let whole = rest;
            let (head, tail) = whole.split_at_mut(1);
            let ghost head_end = final(head)@;
            let ghost tail_end = final(tail)@;
            assert(rest_end == head_end + tail_end);
            let slot = &mut head[0];
            let ghost slot_end = *final(slot);
            assert(head_end =~= seq![slot_end]);
            assert(*slot == start[k as int]);
            proof {
                assert(start.take(k + 1).drop_last() =~= start.take(k as int));
                assert(start.take(k + 1).last() == start[k as int]);
            }
            match slot.as_mut() {
                Some(tile) => {
                    let ghost tile_end = *final(tile);
                    assert(slot_end == Some(tile_end));
                    tiles.push((TilemapPos { chunk, tile: positions[k] }, tile));
                    proof {
                        let now = Seq::new(tiles.len() as nat, |i: int| *final(tiles[i].1));
                        assert(now.drop_last() =~= done);
                        assert(now.last() == tile_end);
                        assert(with_tiles(start.take(k + 1), now) =~= with_tiles(
                            start.take(k as int),
                            done,
                        ).push(slot_end));
                    }
                },
                None => {
                    proof {
                        assert(slot_end.is_none());
                        let now = Seq::new(tiles.len() as nat, |i: int| *final(tiles[i].1));
                        assert(now =~= done);
                        assert(with_tiles(start.take(k + 1), now) =~= with_tiles(
                            start.take(k as int),
                            done,
                        ).push(slot_end));
                    }
                },
            }
            rest = tail;
            k += 1;
            proof {
                let now = Seq::new(tiles.len() as nat, |i: int| *final(tiles[i].1));
                assert(end =~= with_tiles(start.take(k as int), now) + final(rest)@);
            }
        }
        proof {
            assert(final(rest)@ =~= Seq::<Option<T>>::empty());
            assert(start.take(k as int) =~= start);
            let now = Seq::new(tiles.len() as nat, |i: int| *final(tiles[i].1));
            lemma_with_tiles_len(start, now);
            assert(end =~= with_tiles(start, now));
            assert forall|index: int| 0 <= index < CHUNK_SIZE * CHUNK_SIZE implies #[trigger] end[index]
                == (match start[index] {
                Some(_) => Some(*final(tiles[tiles_ahead(start, index)].1)),
                None => None,
            }) by {
                lemma_with_tiles_at(start, now, index);
                if start[index].is_some() {
                    lemma_tiles_ahead(start, index);
                }
            }
        }
        tiles
    }

    /// Takes what the last generation of the mesh left for the next one,
    /// and leaves the default value in its place
    ///
    /// This is the first step of generating the mesh again;
    /// [`finish_regeneration`](Self::finish_regeneration) is the last.
    pub fn take_carry_data(&mut self) -> (r: <<T as Tile>::MeshBuilder as MeshBuilder>::CarryData)
        requires
            old(self).is_full_grid(),
        ensures
            final(self).is_full_grid(),
            r == old(self).carry_data(),
            call_ensures(
                <<<T as Tile>::MeshBuilder as MeshBuilder>::CarryData as Default>::default,
                (),
                final(self).carry_data(),
            ),
            final(self)@ == old(self)@,
            final(self).dirty() == old(self).dirty(),
            final(self).entity() == old(self).entity(),
    {
        let mut carry_data = Default::default();
        std::mem::swap(&mut self.mesh_carry_data, &mut carry_data);
        carry_data
    }

    /// Keeps `carry_data` for the next generation of the mesh, and records
    /// that the mesh is up to date
    ///
    /// Nothing else records that: a chunk whose tiles were written needs
    /// its mesh generated again until a generation has been finished.
    pub fn finish_regeneration(
        &mut self,
        carry_data: <<T as Tile>::MeshBuilder as MeshBuilder>::CarryData,
    )
        requires
            old(self).is_full_grid(),
        ensures
            final(self).is_full_grid(),
            final(self).carry_data() == carry_data,
            !final(self).dirty(),
            final(self)@ == old(self)@,
            final(self).entity() == old(self).entity(),
    {
        self.mesh_carry_data = carry_data;
        self.regenerate_mesh = false;
    }

    /// Sets the tile at `pos`, returning its previous value
    ///
    /// Tells this to regenerate its mesh the next time it is displayed,
    /// whether or not the tile differs from the one before.
    pub fn set(&mut self, pos: ChunkPos, tile: T) -> (r: Option<T>)
        requires
            old(self).is_full_grid(),
        ensures
            final(self).is_full_grid(),
            r == old(self).slot_at(pos@),
            final(self)@ == old(self)@.update(ChunkPos::index_of(pos@), Some(tile)),
            final(self).dirty(),
            final(self).carry_data() == old(self).carry_data(),
            final(self).entity() == old(self).entity(),
    {
        self.regenerate_mesh();
        let mut slot = Some(tile);
        std::mem::swap(&mut self.tiles[pos.as_index()], &mut slot);
        slot
    }

    /// Removes the tile at `pos`, returning its previous value
    ///
    /// Tells this to regenerate its mesh the next time it is displayed,
    /// whether or not there was a tile.
    pub fn remove(&mut self, pos: ChunkPos) -> (r: Option<T>)
        requires
            old(self).is_full_grid(),
        ensures
            final(self).is_full_grid(),
            r == old(self).slot_at(pos@),
            final(self)@ == old(self)@.update(ChunkPos::index_of(pos@), None),
            final(self).dirty(),
            final(self).carry_data() == old(self).carry_data(),
            final(self).entity() == old(self).entity(),
    {
        self.regenerate_mesh();
        let mut slot = None;
        std::mem::swap(&mut self.tiles[pos.as_index()], &mut slot);
        slot
    }
}

impl<T: Tile> Default for Chunk<T> {
    /// A chunk without tiles, whose mesh is up to date, with the default
    /// carry data and no entity
    fn default() -> (r: Self)
        ensures
            r.is_full_grid(),
            r.is_fresh(),
    {
        let mut tiles: Vec<Option<T>> = Vec::new();
        while tiles.len() < CHUNK_SIZE * CHUNK_SIZE
            invariant
                tiles.len() <= CHUNK_SIZE * CHUNK_SIZE,
                forall|i: int| 0 <= i < tiles.len() ==> (#[trigger] tiles[i]).is_none(),
            decreases CHUNK_SIZE * CHUNK_SIZE - tiles.len(),
        {
            tiles.push(None);
        }
        assert(tiles@ =~= Seq::new((CHUNK_SIZE * CHUNK_SIZE) as nat, |i: int| None::<T>));
        Chunk {
            tiles,
            regenerate_mesh: false,
            mesh_carry_data: Default::default(),
            mesh_entity: None,
        }
    }
}

impl<T: Tile> Index<ChunkPos> for Chunk<T> {
    type Output = Option<T>;

    /// Returns a reference to the tile slot at the index
    fn index(&self, index: ChunkPos) -> (r: &Self::Output)
        ensures
            *r == self.slot_at(index@),
    {
        &self.tiles[index.as_index()]
    }
}

impl<T: Tile> vstd::std_specs::core::IndexSpecImpl<ChunkPos> for Chunk<T> {
    open spec fn index_req(&self, index: &ChunkPos) -> bool {
        self.is_full_grid()
    }
}

impl<T: Tile> IndexMut<ChunkPos> for Chunk<T> {
    /// Returns a mutable reference to the tile slot at the index
    ///
    /// If mutating the tile slot results in a change that requires
    /// regenerating the chunk mesh, call [`Self::regenerate_mesh()`]
    fn index_mut(&mut self, index: ChunkPos) -> (r: &mut Self::Output)
        requires
            old(self).is_full_grid(),
        ensures
            final(self).is_full_grid(),
            *r == old(self).slot_at(index@),
            final(self)@ == old(self)@.update(ChunkPos::index_of(index@), *final(r)),
            old(self).same_state(final(self)),
    {
        &mut self.tiles[index.as_index()]
    }
}

/// A position in a chunk
///
/// Both coordinates are always at least 0 and less than [`CHUNK_SIZE`].
///
/// # Notes
///
/// `+` and `-` are only defined where the result stays inside the chunk.
/// To carry into the neighbouring chunk, add to a
/// [`TilemapPos`](super::TilemapPos) instead. To wrap around the borders of
/// the chunk, use [`wrapping_add`](Self::wrapping_add) or
/// [`wrapping_sub`](Self::wrapping_sub).
#[derive(Debug, Clone, Copy, PartialEq, Eq, Hash, Structural)]
pub struct ChunkPos(u8, u8);

impl View for ChunkPos {
    type V = (int, int);

    /// The coordinates, x first
    closed spec fn view(&self) -> (int, int) {
        (self.0 as int, self.1 as int)
    }
}

/// Whether a coordinate lies inside a chunk
pub open spec fn in_chunk(v: int) -> bool {
    0 <= v < CHUNK_SIZE
}

/// The sum of two coordinates, wrapped at [`CHUNK_SIZE`], and whether the
/// sum left the chunk
fn overflowing_add_u8(lhs: u8, rhs: u8) -> (r: (u8, bool))
    requires
        in_chunk(lhs as int),
        in_chunk(rhs as int),
    ensures
        r.0 == (lhs + rhs) % (CHUNK_SIZE as int),
        r.1 == (lhs + rhs >= CHUNK_SIZE),
{
    let sum: u8 = lhs.wrapping_add(rhs);
    let mask: u8 = CHUNK_SIZE as u8 - 1;
    assert(sum & 31 == sum % 32) by (bit_vector);
    (sum & mask, sum >= CHUNK_SIZE as u8)
}

/// The difference of two coordinates, wrapped at [`CHUNK_SIZE`], and
/// whether the difference left the chunk
fn overflowing_sub_u8(lhs: u8, rhs: u8) -> (r: (u8, bool))
    requires
        in_chunk(lhs as int),
        in_chunk(rhs as int),
    ensures
        r.0 == (lhs - rhs) % (CHUNK_SIZE as int),
        r.1 == (lhs < rhs),
{
    let diff: u8 = lhs.wrapping_sub(rhs);
    let mask: u8 = CHUNK_SIZE as u8 - 1;
    assert(diff & 31 == diff % 32) by (bit_vector);
    (diff & mask, lhs < rhs)
}

impl ChunkPos {
    /// The position of the tile at (0, 0) in a chunk
    #[must_use]
    pub fn zero() -> (r: Self)
        ensures
            r@ == (0int, 0int),
    {
        ChunkPos(0, 0)
    }

    /// The invariant of the type: both coordinates lie inside a chunk
    #[verifier::type_invariant]
    pub open spec fn in_bounds(self) -> bool {
        in_chunk(self@.0) && in_chunk(self@.1)
    }

    /// Positions with the same coordinates are the same position.
    pub proof fn lemma_view_injective(self, other: Self)
        requires
            self@ == other@,
        ensures
            self == other,
    {
    }

    /// Creates a [`ChunkPos`] with the given x and y coordinates
    ///
    /// Both have to be less than [`CHUNK_SIZE`]; [`try_new`](Self::try_new)
    /// takes any coordinates.
    #[must_use]
    #[inline]
    pub fn new(x: u8, y: u8) -> (r: Self)
        requires
            x < CHUNK_SIZE,
            y < CHUNK_SIZE,
        ensures
            r@ == (x as int, y as int),
    {
        ChunkPos(x, y)
    }

    /// Returns [`Some`] if a [`ChunkPos`] could be constructed from the given coordinates
    #[must_use]
    #[inline]
    pub fn try_new(x: u8, y: u8) -> (r: Option<Self>)
        ensures
            r.is_some() <==> x < CHUNK_SIZE && y < CHUNK_SIZE,
            r.is_some() ==> r.unwrap()@ == (x as int, y as int),
    {
        if x < CHUNK_SIZE as u8 && y < CHUNK_SIZE as u8 {
            Some(ChunkPos(x, y))
        } else {
            None
        }
    }

    /// The x coordinate of this
    #[must_use]
    #[inline]
    pub fn x(self) -> (r: u8)
        ensures
            r == self@.0,
            r < CHUNK_SIZE,
    {
        proof {
            use_type_invariant(&self);
        }
        self.0
    }

    /// The y coordinate of this
    #[must_use]
    #[inline]
    pub fn y(self) -> (r: u8)
        ensures
            r == self@.1,
            r < CHUNK_SIZE,
    {
        proof {
            use_type_invariant(&self);
        }
        self.1
    }

    /// Returns a tuple of the x and y position of this
    #[must_use]
    #[inline]
    pub fn tup(self) -> (r: (u8, u8))
        ensures
            r.0 == self@.0,
            r.1 == self@.1,
            r.0 < CHUNK_SIZE,
            r.1 < CHUNK_SIZE,
    {
        (self.x(), self.y())
    }

    /// Sets the x position of this
    ///
    /// `x` has to be less than [`CHUNK_SIZE`].
    #[inline]
    pub fn set_x(&mut self, x: u8)
        requires
            x < CHUNK_SIZE,
        ensures
            final(self)@ == (x as int, old(self)@.1),
    {
        proof {
            use_type_invariant(&*self);
        }
        self.0 = x
    }

    /// Sets the y position of this
    ///
    /// `y` has to be less than [`CHUNK_SIZE`].
    #[inline]
    pub fn set_y(&mut self, y: u8)
        requires
            y < CHUNK_SIZE,
        ensures
            final(self)@ == (old(self)@.0, y as int),
    {
        proof {
            use_type_invariant(&*self);
        }
        self.1 = y
    }

    /// The index of a position in a row-major array of
    /// [`CHUNK_SIZE`]x[`CHUNK_SIZE`] slots
    pub open spec fn index_of(pos: (int, int)) -> int {
        pos.0 + pos.1 * CHUNK_SIZE
    }

    /// This, but as an index into a [`CHUNK_SIZE`]x[`CHUNK_SIZE`] array (row-major)
    #[must_use]
    pub fn as_index(self) -> (r: usize)
        ensures
            r == Self::index_of(self@),
            r < CHUNK_SIZE * CHUNK_SIZE,
    {
        let (x, y) = self.tup();
        x as usize + y as usize * CHUNK_SIZE
    }

    /// This as an [`IVec2`]
    #[must_use]
    pub fn as_ivec2(self) -> (r: IVec2)
        ensures
            r.x == self@.0,
            r.y == self@.1,
    {
        IVec2::new(self.x() as i32, self.y() as i32)
    }

    /// `self` + `rhs`, wrapped at [`CHUNK_SIZE`]
    #[must_use]
    pub fn wrapping_add(self, rhs: Self) -> (r: Self)
        ensures
            r@.0 == (self@.0 + rhs@.0) % (CHUNK_SIZE as int),
            r@.1 == (self@.1 + rhs@.1) % (CHUNK_SIZE as int),
    {
        let (x, _cx) = overflowing_add_u8(self.x(), rhs.x());
        let (y, _cy) = overflowing_add_u8(self.y(), rhs.y());
        ChunkPos(x, y)
    }

    /// `self` - `rhs`, wrapped at [`CHUNK_SIZE`]
    #[must_use]
    pub fn wrapping_sub(self, rhs: Self) -> (r: Self)
        ensures
            r@.0 == (self@.0 - rhs@.0) % (CHUNK_SIZE as int),
            r@.1 == (self@.1 - rhs@.1) % (CHUNK_SIZE as int),
    {
        let (x, _cx) = overflowing_sub_u8(self.x(), rhs.x());
        let (y, _cy) = overflowing_sub_u8(self.y(), rhs.y());
        ChunkPos(x, y)
    }

    /// `self` + `rhs`
    ///
    /// Returns the result of the addition wrapped around [`CHUNK_SIZE`],
    /// and a [`BVec2`] indicating on which axes the sum left the chunk
    #[must_use]
    pub fn overflowing_add(self, rhs: Self) -> (r: (Self, BVec2))
        ensures
            r.0@.0 == (self@.0 + rhs@.0) % (CHUNK_SIZE as int),
            r.0@.1 == (self@.1 + rhs@.1) % (CHUNK_SIZE as int),
            r.1.x == (self@.0 + rhs@.0 >= CHUNK_SIZE),
            r.1.y == (self@.1 + rhs@.1 >= CHUNK_SIZE),
    {
        let (x, cx) = overflowing_add_u8(self.x(), rhs.x());
        let (y, cy) = overflowing_add_u8(self.y(), rhs.y());
        (ChunkPos(x, y), BVec2::new(cx, cy))
    }

    /// `self` - `rhs`
    ///
    /// Returns the result of the subtraction wrapped around [`CHUNK_SIZE`],
    /// and a [`BVec2`] indicating on which axes the difference left the chunk
    pub fn overflowing_sub(self, rhs: Self) -> (r: (Self, BVec2))
        ensures
            r.0@.0 == (self@.0 - rhs@.0) % (CHUNK_SIZE as int),
            r.0@.1 == (self@.1 - rhs@.1) % (CHUNK_SIZE as int),
            r.1.x == (self@.0 < rhs@.0),
            r.1.y == (self@.1 < rhs@.1),
    {
        let (x, cx) = overflowing_sub_u8(self.x(), rhs.x());
        let (y, cy) = overflowing_sub_u8(self.y(), rhs.y());
        (ChunkPos(x, y), BVec2::new(cx, cy))
    }

    /// The position that stands at `index` in row-major order
    pub open spec fn at_index(index: int) -> (int, int) {
        (index % (CHUNK_SIZE as int), index / (CHUNK_SIZE as int))
    }

    /// The position after this one in row-major order, if this is not the last
    fn successor(self) -> (r: Option<Self>)
        ensures
            match r {
                Some(next) => Self::index_of(next@) == Self::index_of(self@) + 1,
                None => Self::index_of(self@) + 1 == CHUNK_SIZE * CHUNK_SIZE,
            },
    {
        let (mut x, mut y) = self.tup();
        x += 1;
        if x == CHUNK_SIZE as u8 {
            x = 0;
            y += 1;
        }
        ChunkPos::try_new(x, y)
    }

    /// Returns all possible positions
    ///
    /// They stand in row-major order: each position stands at its own
    /// [index](Self::as_index).
    pub fn iter_positions() -> (r: Vec<Self>)
        ensures
            r.len() == CHUNK_SIZE * CHUNK_SIZE,
            forall|i: int| 0 <= i < r.len() ==> (#[trigger] r[i])@ == Self::at_index(i),
            forall|i: int| 0 <= i < r.len() ==> Self::index_of((#[trigger] r[i])@) == i,
    {
        let mut all: Vec<ChunkPos> = Vec::new();
        let mut next: Option<ChunkPos> = Some(ChunkPos::zero());
        while next.is_some()
            invariant
                match next {
                    Some(pos) => all.len() == Self::index_of(pos@) && pos.in_bounds(),
                    None => all.len() == CHUNK_SIZE * CHUNK_SIZE,
                },
                all.len() <= CHUNK_SIZE * CHUNK_SIZE,
                forall|i: int| 0 <= i < all.len() ==> (#[trigger] all[i])@ == Self::at_index(i),
            decreases CHUNK_SIZE * CHUNK_SIZE - all.len() + (if next.is_some() { 1int } else { 0int }),
        {
            let pos = next.unwrap();
            proof {
                Self::lemma_index_of_at_index(pos@);
            }
            all.push(pos);
            next = pos.successor();
            proof {
                if let Some(following) = next {
                    use_type_invariant(&following);
                }
            }
        }
        proof {
            assert forall|i: int| 0 <= i < all.len() implies Self::index_of((#[trigger] all[i])@)
                == i by {
                Self::lemma_at_index_of_index(i);
            }
        }
        all
    }

    /// A position inside a chunk stands at its own index.
    pub proof fn lemma_index_of_at_index(pos: (int, int))
        requires
            in_chunk(pos.0),
            in_chunk(pos.1),
        ensures
            0 <= Self::index_of(pos) < CHUNK_SIZE * CHUNK_SIZE,
            Self::at_index(Self::index_of(pos)) == pos,
    {
    }

    /// Every index of a chunk's array is the index of the position inside
    /// the chunk that stands at it.
    pub proof fn lemma_at_index_of_index(index: int)
        requires
            0 <= index < CHUNK_SIZE * CHUNK_SIZE,
        ensures
            in_chunk(Self::at_index(index).0),
            in_chunk(Self::at_index(index).1),
            Self::index_of(Self::at_index(index)) == index,
    {
    }

    /// Taking the index is one-to-one: two positions with the same index
    /// are the same position.
    pub proof fn lemma_as_index_injective(self, other: Self)
        requires
            self.in_bounds(),
            other.in_bounds(),
            Self::index_of(self@) == Self::index_of(other@),
        ensures
            self == other,
    {
        Self::lemma_index_of_at_index(self@);
        Self::lemma_index_of_at_index(other@);
    }

    /// Taking the index is onto: every index of a chunk's array is the
    /// index of a position.
    pub proof fn lemma_as_index_onto(index: int) -> (pos: Self)
        requires
            0 <= index < CHUNK_SIZE * CHUNK_SIZE,
        ensures
            pos.in_bounds(),
            pos@ == Self::at_index(index),
            Self::index_of(pos@) == index,
    {
        Self::lemma_at_index_of_index(index);
        ChunkPos((index % 32) as u8, (index / 32) as u8)
    }
}

impl TryFrom<IVec2> for ChunkPos {
    type Error = ();

    /// The position with the coordinates of `value`, if both lie inside a chunk
    fn try_from(value: IVec2) -> (r: Result<Self, Self::Error>) {
        if value.x >= 0 && value.x < CHUNK_SIZE as i32 && value.y >= 0 && value.y
            < CHUNK_SIZE as i32 {
            Ok(ChunkPos(value.x as u8, value.y as u8))
        } else {
            Err(())
        }
    }
}

impl vstd::std_specs::convert::TryFromSpecImpl<IVec2> for ChunkPos {
    open spec fn obeys_try_from_spec() -> bool {
        true
    }

    open spec fn try_from_spec(value: IVec2) -> Result<Self, Self::Error> {
        if in_chunk(value.x as int) && in_chunk(value.y as int) {
            Ok(Self::with_coordinates(value.x as int, value.y as int))
        } else {
            Err(())
        }
    }
}

impl ChunkPos {
    /// The position with the given coordinates
    pub closed spec fn with_coordinates(x: int, y: int) -> Self {
        ChunkPos(x as u8, y as u8)
    }

    /// What [`with_coordinates`](Self::with_coordinates) gives for
    /// coordinates inside a chunk
    pub broadcast proof fn lemma_with_coordinates(x: int, y: int)
        requires
            in_chunk(x),
            in_chunk(y),
        ensures
            (#[trigger] Self::with_coordinates(x, y))@ == (x, y),
            Self::with_coordinates(x, y).in_bounds(),
    {
    }
}

impl From<ChunkPos> for IVec2 {
    #[inline]
    fn from(v: ChunkPos) -> (r: Self) {
        IVec2::new(v.x() as i32, v.y() as i32)
    }
}

impl vstd::std_specs::convert::FromSpecImpl<ChunkPos> for IVec2 {
    open spec fn obeys_from_spec() -> bool {
        true
    }

    open spec fn from_spec(v: ChunkPos) -> Self {
        IVec2 { x: v@.0 as i32, y: v@.1 as i32 }
    }
}

impl Add for ChunkPos {
    type Output = Self;

    /// The component-wise sum, where it lies inside the chunk
    fn add(self, rhs: Self) -> (r: Self::Output) {
        ChunkPos::new(self.x() + rhs.x(), self.y() + rhs.y())
    }
}

impl vstd::std_specs::ops::AddSpecImpl for ChunkPos {
    open spec fn obeys_add_spec() -> bool {
        true
    }

    open spec fn add_req(self, rhs: Self) -> bool {
        in_chunk(self@.0 + rhs@.0) && in_chunk(self@.1 + rhs@.1)
    }

    open spec fn add_spec(self, rhs: Self) -> Self::Output {
        Self::with_coordinates(self@.0 + rhs@.0, self@.1 + rhs@.1)
    }
}

impl AddAssign for ChunkPos {
    /// Adds `rhs` to this, where the sum lies inside the chunk
    fn add_assign(&mut self, rhs: Self)
        requires
            in_chunk(old(self)@.0 + rhs@.0),
            in_chunk(old(self)@.1 + rhs@.1),
        ensures
            final(self)@ == (old(self)@.0 + rhs@.0, old(self)@.1 + rhs@.1),
    {
        proof {
            use_type_invariant(&*self);
            use_type_invariant(&rhs);
        }
        self.0 += rhs.0;
        self.1 += rhs.1;
    }
}

impl Sub for ChunkPos {
    type Output = Self;

    /// The component-wise difference, where it lies inside the chunk
    fn sub(self, rhs: Self) -> (r: Self::Output) {
        ChunkPos::new(self.x() - rhs.x(), self.y() - rhs.y())
    }
}

impl vstd::std_specs::ops::SubSpecImpl for ChunkPos {
    open spec fn obeys_sub_spec() -> bool {
        true
    }

    open spec fn sub_req(self, rhs: Self) -> bool {
        in_chunk(self@.0 - rhs@.0) && in_chunk(self@.1 - rhs@.1)
    }

    open spec fn sub_spec(self, rhs: Self) -> Self::Output {
        Self::with_coordinates(self@.0 - rhs@.0, self@.1 - rhs@.1)
    }
}

impl SubAssign for ChunkPos {
    /// Subtracts `rhs` from this, where the difference lies inside the chunk
    fn sub_assign(&mut self, rhs: Self)
        requires
            in_chunk(old(self)@.0 - rhs@.0),
            in_chunk(old(self)@.1 - rhs@.1),
        ensures
            final(self)@ == (old(self)@.0 - rhs@.0, old(self)@.1 - rhs@.1),
    {
        proof {
            use_type_invariant(&*self);
            use_type_invariant(&rhs);
        }
        self.0 -= rhs.0;
        self.1 -= rhs.1;
    }
}

} // verus!
