//! Creation of meshes from tilemaps

use vstd::prelude::*;

use crate::math::{fits_i32, vec_scaled, IVec2};
use crate::tile::Tile;
use crate::tilemap::{placed_tiles, Chunk, Tilemap};
use crate::CHUNK_SIZE;

verus! {

/// The meshes of bevy. A mesh is made by a [`MeshBuilder`] and handed on
/// as it is; nothing here looks into one.
#[verifier::external_type_specification]
#[verifier::external_body]
pub struct ExMesh(bevy::render::mesh::Mesh);

/// Trait for types used to build meshes for tilemap
/// [`Chunk`](crate::tilemap::Chunk)s
pub trait MeshBuilder: Sized {
    /// Saved after mesh generation is finished and
    /// passed back when mesh generation begins again
    ///
    /// Used to store information that can be used to speed up mesh generation
    /// (for example, the number of vertices last used). If the mesh for the chunk
    /// this is generating has not been generated recently, the default value of
    /// `CarryData` is used
    type CarryData: core::fmt::Debug + Default + Send + Sync;

    /// The type of the material meshes from this use
    type Material;

    /// Returns the material that meshes from this use
    ///
    /// It is only ever called once per tilemap, and its result is kept.
    fn material() -> Self::Material;

    /// Creates a new instance of this that will be fed every tile in the chunk for
    /// mesh generation
    fn init(carry_data: Self::CarryData) -> Self;

    /// Sets the offset at which to add the next few tile meshes, in tiles
    /// from the corner of the chunk
    fn set_offset(&mut self, offset: IVec2);

    /// Finishes mesh generation.
    ///
    /// Returns the generated mesh and the new carry data
    fn finish(self) -> (bevy::render::mesh::Mesh, Self::CarryData);
}

/// The offset that a builder is given for the tile at the position with
/// coordinates `pos`: the coordinates as a vector
pub open spec fn offset_of(pos: (int, int)) -> IVec2 {
    IVec2 { x: pos.0 as i32, y: pos.1 as i32 }
}

/// Whether `k` is the number of one of `count` tiles, counted from 0
pub open spec fn is_tile_number(k: int, count: int) -> bool {
    0 <= k < count
}

/// Generates the mesh of `chunk` again, if the chunk needs it
///
/// A builder is made from the carry data of the chunk and is given every
/// tile of the chunk in row-major order, each after its offset in the
/// chunk. What the builder leaves as carry data is kept in the chunk, and
/// only then is the chunk recorded as up to date. The tiles and the entity
/// of the chunk stay as they are.
///
/// Returns the new mesh, or `None` for a chunk that was up to date, which
/// is left as it is.
///
/// What the builder does is up to its type. The contract says which calls
/// were made. There are builders `after[0]`, ..., `after[n]`, one more than
/// the chunk has tiles, and builders `placed[0]`, ..., `placed[n - 1]`:
/// `init` may return `after[0]` for the carry data of the chunk;
/// `set_offset` with the offset of the `k`-th tile may lead from `after[k]`
/// to `placed[k]`, and `add_to_mesh` of that tile from there to
/// `after[k + 1]`; and `finish` may return for `after[n]` the mesh that is
/// returned and the carry data that the chunk then has.
pub fn generate_mesh<T: Tile>(chunk: &mut Chunk<T>) -> (r: Option<bevy::render::mesh::Mesh>)
    requires
        old(chunk).is_full_grid(),
    ensures
        r.is_some() == old(chunk).dirty(),
        !final(chunk).dirty(),
        final(chunk)@ == old(chunk)@,
        final(chunk).entity() == old(chunk).entity(),
        !old(chunk).dirty() ==> *final(chunk) == *old(chunk),
        final(chunk).is_full_grid(),
        old(chunk).dirty() ==> exists|after: Seq<T::MeshBuilder>, placed: Seq<T::MeshBuilder>|
            #![trigger after.len(), placed.len()]
            {
                &&& after.len() == placed_tiles(old(chunk)@).len() + 1
                &&& placed.len() == placed_tiles(old(chunk)@).len()
                &&& call_ensures(T::MeshBuilder::init, (old(chunk).carry_data(),), after[0])
                &&& forall|k: int|
                    #![trigger is_tile_number(k, placed_tiles(old(chunk)@).len() as int)]
                    is_tile_number(k, placed_tiles(old(chunk)@).len() as int) ==> (exists|
                        at: &mut T::MeshBuilder,
                    |
                        #![trigger call_ensures(
                            T::MeshBuilder::set_offset,
                            (at, offset_of(placed_tiles(old(chunk)@)[k].0)),
                            (),
                        )]
                        *at == after[k] && *final(at) == placed[k] && call_ensures(
                            T::MeshBuilder::set_offset,
                            (at, offset_of(placed_tiles(old(chunk)@)[k].0)),
                            (),
                        )) && (exists|at: &mut T::MeshBuilder|
                        #![trigger call_ensures(
                            T::add_to_mesh,
                            (&placed_tiles(old(chunk)@)[k].1, at),
                            (),
                        )]
                        *at == placed[k] && *final(at) == after[k + 1] && call_ensures(
                            T::add_to_mesh,
                            (&placed_tiles(old(chunk)@)[k].1, at),
                            (),
                        ))
                &&& call_ensures(
                    T::MeshBuilder::finish,
                    (after[placed.len() as int],),
                    (r.unwrap(), final(chunk).carry_data()),
                )
            },
{
    if !chunk.is_dirty() {
        return None;
    }
    let ghost carried = chunk.carry_data();
    let ghost placed_all = placed_tiles(chunk@);
    let mut mesh_builder = T::MeshBuilder::init(chunk.take_carry_data());
    let ghost mut after: Seq<T::MeshBuilder> = seq![mesh_builder];
    let ghost mut placed: Seq<T::MeshBuilder> = Seq::empty();
    let tiles = chunk.iter_tile_positions();
    let mut i: usize = 0;
    while i < tiles.len()
        invariant
            i <= tiles.len(),
            tiles.len() == placed_all.len(),
            forall|k: int|
                0 <= k < tiles.len() ==> ((#[trigger] tiles[k]).0@, *tiles[k].1) == placed_all[k],
            after.len() == i + 1,
            placed.len() == i,
            after[i as int] == mesh_builder,
            call_ensures(T::MeshBuilder::init, (carried,), after[0]),
            forall|k: int|
                #![trigger is_tile_number(k, i as int)]
                is_tile_number(k, i as int) ==> (exists|at: &mut T::MeshBuilder|
                    #![trigger call_ensures(
                        T::MeshBuilder::set_offset,
                        (at, offset_of(placed_all[k].0)),
                        (),
                    )]
                    *at == after[k] && *final(at) == placed[k] && call_ensures(
                        T::MeshBuilder::set_offset,
                        (at, offset_of(placed_all[k].0)),
                        (),
                    )) && (exists|at: &mut T::MeshBuilder|
                    #![trigger call_ensures(T::add_to_mesh, (&placed_all[k].1, at), ())]
                    *at == placed[k] && *final(at) == after[k + 1] && call_ensures(
                        T::add_to_mesh,
                        (&placed_all[k].1, at),
                        (),
                    )),
        decreases tiles.len() - i,
    {
        let (tile_pos, tile) = tiles[i];
        let offset = tile_pos.as_ivec2();
        let ghost before = mesh_builder;
        let ghost earlier = after;
        let ghost earlier_placed = placed;
        assert(offset == offset_of(placed_all[i as int].0));
        assert(*tile == placed_all[i as int].1);
        mesh_builder.set_offset(offset);
        let ghost with_offset = mesh_builder;
        assert(exists|at: &mut T::MeshBuilder|
            *at == before && *final(at) == with_offset && #[trigger] call_ensures(
                T::MeshBuilder::set_offset,
                (at, offset_of(placed_all[i as int].0)),
                (),
            ));
        tile.add_to_mesh(&mut mesh_builder);
        assert(exists|at: &mut T::MeshBuilder|
            *at == with_offset && *final(at) == mesh_builder && #[trigger] call_ensures(
                T::add_to_mesh,
                (&placed_all[i as int].1, at),
                (),
            ));
        proof {
            after = after.push(mesh_builder);
            placed = placed.push(with_offset);
            assert forall|k: int| #![trigger is_tile_number(k, i + 1)] is_tile_number(k, i + 1) implies (exists|
                at: &mut T::MeshBuilder,
            |
                #![trigger call_ensures(
                    T::MeshBuilder::set_offset,
                    (at, offset_of(placed_all[k].0)),
                    (),
                )]
                *at == after[k] && *final(at) == placed[k] && call_ensures(
                    T::MeshBuilder::set_offset,
                    (at, offset_of(placed_all[k].0)),
                    (),
                )) && (exists|at: &mut T::MeshBuilder|
                #![trigger call_ensures(T::add_to_mesh, (&placed_all[k].1, at), ())]
                *at == placed[k] && *final(at) == after[k + 1] && call_ensures(
                    T::add_to_mesh,
                    (&placed_all[k].1, at),
                    (),
                )) by {
                if k < i {
                    assert(is_tile_number(k, i as int));
                    assert(after[k] == earlier[k]);
                    assert(after[k + 1] == earlier[k + 1]);
                    assert(placed[k] == earlier_placed[k]);
                } else {
                    assert(after[k] == before);
                    assert(placed[k] == with_offset);
                    assert(after[k + 1] == mesh_builder);
                }
            }
        }
        i += 1;
    }
    let (new_mesh, carry_data) = mesh_builder.finish();
    chunk.finish_regeneration(carry_data);
    assert(after.len() == placed.len() + 1);
    Some(new_mesh)
}

/// Those of `positions` whose chunk in `chunks` needs its mesh generated
/// again, in the order of `positions`
pub open spec fn dirty_positions<T: Tile>(
    chunks: Map<IVec2, Chunk<T>>,
    positions: Seq<IVec2>,
) -> Seq<IVec2>
    decreases positions.len(),
{
    if positions.len() == 0 {
        Seq::empty()
    } else {
        let before = dirty_positions(chunks, positions.drop_last());
        if chunks[positions.last()].dirty() {
            before.push(positions.last())
        } else {
            before
        }
    }
}

/// How many of the chunks that stand before the `j`-th of `positions` need
/// their mesh generated again
pub open spec fn dirty_before<T: Tile>(
    chunks: Map<IVec2, Chunk<T>>,
    positions: Seq<IVec2>,
    j: int,
) -> int {
    dirty_positions(chunks, positions.take(j)).len() as int
}

/// Generates again the mesh of every chunk of `tilemap` that needs it
///
/// Returns the new meshes, each with the coordinate of its chunk, in the
/// order in which the chunks were made. Afterwards every chunk is up to
/// date. No chunk is made or dropped, and the tiles and entities of the
/// chunks stay as they are.
///
/// Each chunk that needed its mesh is left as [`generate_mesh`] may leave
/// it, with the mesh that is returned for it.
pub fn generate_meshes<T: Tile>(tilemap: &mut Tilemap<T>) -> (r: Vec<
    (IVec2, bevy::render::mesh::Mesh),
>)
    requires
        old(tilemap).well_formed(),
    ensures
        final(tilemap).well_formed(),
        final(tilemap)@.dom() == old(tilemap)@.dom(),
        final(tilemap).positions() == old(tilemap).positions(),
        final(tilemap).material_handle() == old(tilemap).material_handle(),
        forall|pos: IVec2| #[trigger]
            old(tilemap)@.contains_key(pos) ==> {
                &&& !final(tilemap)@[pos].dirty()
                &&& final(tilemap)@[pos]@ == old(tilemap)@[pos]@
                &&& final(tilemap)@[pos].entity() == old(tilemap)@[pos].entity()
                &&& !old(tilemap)@[pos].dirty() ==> final(tilemap)@[pos] == old(tilemap)@[pos]
            },
        r.len() == dirty_positions(old(tilemap)@, old(tilemap).positions()).len(),
        forall|i: int|
            0 <= i < r.len() ==> (#[trigger] r[i]).0 == dirty_positions(
                old(tilemap)@,
                old(tilemap).positions(),
            )[i],
        forall|j: int|
            #![trigger old(tilemap).positions()[j]]
            0 <= j < old(tilemap).positions().len() && old(tilemap)@[old(tilemap).positions()[j]].dirty() ==> 0
                <= dirty_before(old(tilemap)@, old(tilemap).positions(), j) < r.len() && exists|
                at: &mut Chunk<T>,
            |
                #![trigger call_ensures(
                    generate_mesh::<T>,
                    (at,),
                    Some(r[dirty_before(old(tilemap)@, old(tilemap).positions(), j)].1),
                )]
                *at == old(tilemap)@[old(tilemap).positions()[j]] && *final(at) == final(tilemap)@[old(
                    tilemap,
                ).positions()[j]] && call_ensures(
                    generate_mesh::<T>,
                    (at,),
                    Some(r[dirty_before(old(tilemap)@, old(tilemap).positions(), j)].1),
                ),
{
    let positions = tilemap.chunk_positions();
    let mut meshes: Vec<(IVec2, bevy::render::mesh::Mesh)> = Vec::new();
    let mut i: usize = 0;
    proof {
        tilemap.lemma_well_formed();
    }
    while i < positions.len()
        invariant
            i <= positions.len(),
            tilemap.well_formed(),
            old(tilemap).well_formed(),
            positions@ == old(tilemap).positions(),
            positions@.no_duplicates(),
            forall|pos: IVec2| old(tilemap)@.contains_key(pos) <==> positions@.contains(pos),
            tilemap@.dom() == old(tilemap)@.dom(),
            tilemap.positions() == old(tilemap).positions(),
            tilemap.material_handle() == old(tilemap).material_handle(),
            forall|j: int|
                0 <= j < i ==> {
                    let pos = #[trigger] positions[j];
                    &&& !tilemap@[pos].dirty()
                    &&& tilemap@[pos]@ == old(tilemap)@[pos]@
                    &&& tilemap@[pos].entity() == old(tilemap)@[pos].entity()
                    &&& !old(tilemap)@[pos].dirty() ==> tilemap@[pos] == old(tilemap)@[pos]
                },
            forall|j: int|
                i <= j < positions.len() ==> tilemap@[#[trigger] positions[j]] == old(
                    tilemap,
                )@[positions[j]],
            meshes.len() == dirty_positions(old(tilemap)@, positions@.take(i as int)).len(),
            forall|j: int|
                0 <= j < meshes.len() ==> (#[trigger] meshes[j]).0 == dirty_positions(
                    old(tilemap)@,
                    positions@.take(i as int),
                )[j],
            forall|j: int|
                #![trigger old(tilemap).positions()[j]]
                0 <= j < i && old(tilemap)@[old(tilemap).positions()[j]].dirty() ==> 0
                    <= dirty_before(old(tilemap)@, old(tilemap).positions(), j) < meshes.len() && exists|
                    at: &mut Chunk<T>,
                |
                    #![trigger call_ensures(
                        generate_mesh::<T>,
                        (at,),
                        Some(meshes[dirty_before(old(tilemap)@, old(tilemap).positions(), j)].1),
                    )]
                    *at == old(tilemap)@[old(tilemap).positions()[j]] && *final(at) == tilemap@[old(
                        tilemap,
                    ).positions()[j]] && call_ensures(
                        generate_mesh::<T>,
                        (at,),
                        Some(meshes[dirty_before(old(tilemap)@, old(tilemap).positions(), j)].1),
                    ),
        decreases positions.len() - i,
    {
        let pos = positions[i];
        assert(positions@.contains(pos));
        let ghost chunks_before = tilemap@;
        let ghost meshes_before = meshes@;
        let mut made: Option<bevy::render::mesh::Mesh> = None;
        match tilemap.get_chunk_mut(pos) {
            Some(chunk) => {
                made = generate_mesh(chunk);
            },
            None => {},
        }
        proof {
            assert(positions@.take(i + 1).drop_last() =~= positions@.take(i as int));
            assert forall|j: int| 0 <= j < positions.len() && j != i implies positions[j]
                != pos by {
                assert(positions@[j] != positions@[i as int]);
            }
            assert(old(tilemap)@[pos].dirty() ==> exists|at: &mut Chunk<T>|
                #![trigger call_ensures(generate_mesh::<T>, (at,), made)]
                *at == old(tilemap)@[pos] && *final(at) == tilemap@[pos] && call_ensures(
                    generate_mesh::<T>,
                    (at,),
                    made,
                ));
        }
        match made {
            Some(mesh) => {
                meshes.push((pos, mesh));
            },
            None => {},
        }
        proof {
            assert(dirty_before(old(tilemap)@, old(tilemap).positions(), i as int)
                == meshes_before.len());
            assert forall|j: int|
                #![trigger old(tilemap).positions()[j]]
                0 <= j < i + 1 && old(tilemap)@[old(tilemap).positions()[j]].dirty() implies 0
                <= dirty_before(old(tilemap)@, old(tilemap).positions(), j) < meshes.len()
                && exists|at: &mut Chunk<T>|
                #![trigger call_ensures(
                    generate_mesh::<T>,
                    (at,),
                    Some(meshes[dirty_before(old(tilemap)@, old(tilemap).positions(), j)].1),
                )]
                *at == old(tilemap)@[old(tilemap).positions()[j]] && *final(at)
                    == tilemap@[old(tilemap).positions()[j]] && call_ensures(
                    generate_mesh::<T>,
                    (at,),
                    Some(meshes[dirty_before(old(tilemap)@, old(tilemap).positions(), j)].1),
                ) by {
                if j < i {
                    assert(positions[j] != pos);
                    assert(tilemap@[positions[j]] == chunks_before[positions[j]]);
                    assert(meshes[dirty_before(old(tilemap)@, old(tilemap).positions(), j)]
                        == meshes_before[dirty_before(old(tilemap)@, old(tilemap).positions(), j)]);
                } else {
                    assert(meshes[dirty_before(old(tilemap)@, old(tilemap).positions(), j)].1
                        == made.unwrap());
                }
            }
        }
        i += 1;
    }
    proof {
        assert(positions@.take(i as int) =~= positions@);
        assert forall|pos: IVec2| #[trigger] old(tilemap)@.contains_key(pos) implies {
            &&& !tilemap@[pos].dirty()
            &&& tilemap@[pos]@ == old(tilemap)@[pos]@
            &&& tilemap@[pos].entity() == old(tilemap)@[pos].entity()
            &&& !old(tilemap)@[pos].dirty() ==> tilemap@[pos] == old(tilemap)@[pos]
        } by {
            assert(positions@.contains(pos));
            let j = choose|j: int| 0 <= j < positions.len() && positions[j] == pos;
            assert(positions[j] == pos);
        }
    }
    meshes
}

/// Where the mesh of the chunk at `chunk_pos` starts, in tiles: the
/// coordinate of the chunk times [`CHUNK_SIZE`]
///
/// The product has to fit an [`IVec2`].
pub fn chunk_origin(chunk_pos: IVec2) -> (r: IVec2)
    requires
        fits_i32(chunk_pos.x * CHUNK_SIZE),
        fits_i32(chunk_pos.y * CHUNK_SIZE),
    ensures
        r.x == chunk_pos.x * CHUNK_SIZE,
        r.y == chunk_pos.y * CHUNK_SIZE,
{
    vec_scaled(chunk_pos, CHUNK_SIZE as i32)
}

} // verus!
