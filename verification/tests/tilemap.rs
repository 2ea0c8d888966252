use bevy::asset::HandleUntyped;
use bevy::ecs::entity::Entity;
use bevy::render::mesh::{Mesh, PrimitiveTopology};
use bevy::utils::Uuid;
use chunked_tilemap::math::IVec2;
use chunked_tilemap::rendering::{generate_mesh, generate_meshes, MeshBuilder};
use chunked_tilemap::tile::Tile;
use chunked_tilemap::tilemap::{Chunk, ChunkPos, Tilemap, TilemapPos};
use chunked_tilemap::CHUNK_SIZE;

#[derive(Clone, Debug, PartialEq)]
struct Stone(u32);

#[derive(Clone, Debug, Default, PartialEq)]
struct Seen {
    generation: u32,
    tiles: Vec<(i32, i32, u32)>,
}

struct Recorder {
    generation: u32,
    offset: IVec2,
    tiles: Vec<(i32, i32, u32)>,
}

impl MeshBuilder for Recorder {
    type CarryData = Seen;
    type Material = ();

    fn material() {}

    fn init(carry_data: Seen) -> Self {
        Recorder { generation: carry_data.generation + 1, offset: IVec2::new(-1, -1), tiles: Vec::new() }
    }

    fn set_offset(&mut self, offset: IVec2) {
        self.offset = offset;
    }

    fn finish(self) -> (Mesh, Seen) {
        (
            Mesh::new(PrimitiveTopology::TriangleList),
            Seen { generation: self.generation, tiles: self.tiles },
        )
    }
}

impl Tile for Stone {
    type MeshBuilder = Recorder;
    type MeshUpdater = ();

    fn add_to_mesh(&self, builder: &mut Recorder) {
        builder.tiles.push((builder.offset.x, builder.offset.y, self.0));
    }
}

fn handle() -> HandleUntyped {
    HandleUntyped::weak_from_u64(Uuid::from_u128(1), 7)
}

fn pos(chunk_x: i32, chunk_y: i32, x: u8, y: u8) -> TilemapPos {
    TilemapPos { chunk: IVec2::new(chunk_x, chunk_y), tile: ChunkPos::new(x, y) }
}

fn occupied(chunk: &Chunk<Stone>) -> usize {
    chunk.iter().iter().filter(|slot| slot.is_some()).count()
}

#[test]
fn default_chunk_is_empty_and_clean() {
    let chunk = Chunk::<Stone>::default();
    assert_eq!(chunk.iter().len(), CHUNK_SIZE * CHUNK_SIZE);
    assert_eq!(occupied(&chunk), 0);
    assert!(!chunk.is_dirty());
    assert_eq!(chunk.mesh_entity(), None);
    assert_eq!(chunk.mesh_carry_data(), &Seen::default());
    assert!(chunk.iter_tiles().is_empty());
}

#[test]
fn chunk_set_returns_the_tile_before() {
    let mut chunk = Chunk::<Stone>::default();
    let at = ChunkPos::new(3, 1);
    assert_eq!(chunk.set(at, Stone(1)), None);
    assert!(chunk.is_set(at));
    assert_eq!(chunk.get(at), Some(&Stone(1)));
    assert_eq!(chunk.set(at, Stone(2)), Some(Stone(1)));
    assert_eq!(chunk.get(at), Some(&Stone(2)));
    assert_eq!(chunk[at], Some(Stone(2)));
    assert_eq!(occupied(&chunk), 1);
    assert_eq!(chunk.iter()[35], &Some(Stone(2)));
}

#[test]
fn chunk_remove_clears_the_slot_and_marks_the_chunk() {
    let mut chunk = Chunk::<Stone>::default();
    let at = ChunkPos::new(31, 31);
    assert_eq!(chunk.remove(at), None);
    assert!(chunk.is_dirty());
    chunk.set(at, Stone(9));
    assert_eq!(chunk.remove(at), Some(Stone(9)));
    assert!(!chunk.is_set(at));
    assert_eq!(chunk.get(at), None);
}

#[test]
fn chunk_get_mut_changes_the_tile_without_marking_the_chunk() {
    let mut chunk = Chunk::<Stone>::default();
    let at = ChunkPos::new(0, 2);
    chunk.set(at, Stone(1));
    assert!(generate_mesh(&mut chunk).is_some());
    match chunk.get_mut(at) {
        Some(tile) => tile.0 = 5,
        None => panic!("the tile was set"),
    }
    assert_eq!(chunk.get(at), Some(&Stone(5)));
    assert!(!chunk.is_dirty());
    assert!(chunk.get_mut(ChunkPos::new(1, 2)).is_none());
    chunk[ChunkPos::new(1, 2)] = Some(Stone(6));
    assert_eq!(chunk.get(ChunkPos::new(1, 2)), Some(&Stone(6)));
    assert!(!chunk.is_dirty());
    chunk.regenerate_mesh();
    assert!(chunk.is_dirty());
}

#[test]
fn writes_mark_the_chunk_until_its_mesh_is_generated() {
    let mut chunk = Chunk::<Stone>::default();
    chunk.set(ChunkPos::new(1, 1), Stone(1));
    chunk.set(ChunkPos::new(1, 1), Stone(1));
    chunk.set(ChunkPos::new(2, 1), Stone(2));
    chunk.regenerate_mesh();
    assert!(chunk.is_dirty());
    assert!(generate_mesh(&mut chunk).is_some());
    assert!(!chunk.is_dirty());
    assert!(generate_mesh(&mut chunk).is_none());
    assert!(!chunk.is_dirty());
}

#[test]
fn generate_mesh_feeds_the_tiles_in_row_major_order() {
    let mut chunk = Chunk::<Stone>::default();
    chunk.set(ChunkPos::new(5, 2), Stone(3));
    chunk.set(ChunkPos::new(31, 0), Stone(2));
    chunk.set(ChunkPos::new(0, 0), Stone(1));
    chunk.set(ChunkPos::new(4, 2), Stone(4));
    let mesh = generate_mesh(&mut chunk);
    assert_eq!(mesh.map(|mesh| mesh.count_vertices()), Some(0));
    assert_eq!(
        chunk.mesh_carry_data(),
        &Seen { generation: 1, tiles: vec![(0, 0, 1), (31, 0, 2), (4, 2, 4), (5, 2, 3)] }
    );
    assert_eq!(occupied(&chunk), 4);
}

#[test]
fn generate_mesh_hands_the_carry_data_on() {
    let mut chunk = Chunk::<Stone>::default();
    chunk.set(ChunkPos::new(0, 0), Stone(1));
    generate_mesh(&mut chunk);
    assert_eq!(chunk.mesh_carry_data().generation, 1);
    generate_mesh(&mut chunk);
    assert_eq!(chunk.mesh_carry_data().generation, 1);
    chunk.remove(ChunkPos::new(0, 0));
    generate_mesh(&mut chunk);
    assert_eq!(chunk.mesh_carry_data(), &Seen { generation: 2, tiles: Vec::new() });
}

#[test]
fn carry_data_can_be_taken_and_put_back() {
    let mut chunk = Chunk::<Stone>::default();
    chunk.set(ChunkPos::new(0, 0), Stone(1));
    chunk.finish_regeneration(Seen { generation: 4, tiles: vec![(1, 2, 3)] });
    assert!(!chunk.is_dirty());
    let taken = chunk.take_carry_data();
    assert_eq!(taken, Seen { generation: 4, tiles: vec![(1, 2, 3)] });
    assert_eq!(chunk.mesh_carry_data(), &Seen::default());
    assert!(chunk.is_set(ChunkPos::new(0, 0)));
}

#[test]
fn chunk_keeps_the_entity_it_is_given() {
    let mut chunk = Chunk::<Stone>::default();
    chunk.set_mesh_entity(Entity::from_raw(12));
    assert_eq!(chunk.mesh_entity(), Some(Entity::from_raw(12)));
    chunk.set(ChunkPos::new(0, 0), Stone(1));
    generate_mesh(&mut chunk);
    assert_eq!(chunk.mesh_entity(), Some(Entity::from_raw(12)));
}

#[test]
fn chunk_iterates_in_row_major_order() {
    let mut chunk = Chunk::<Stone>::default();
    chunk.set(ChunkPos::new(2, 1), Stone(3));
    chunk.set(ChunkPos::new(1, 0), Stone(1));
    chunk.set(ChunkPos::new(0, 1), Stone(2));
    assert_eq!(chunk.iter_tiles(), vec![&Stone(1), &Stone(2), &Stone(3)]);
    assert_eq!(
        chunk.iter_tile_positions(),
        vec![
            (ChunkPos::new(1, 0), &Stone(1)),
            (ChunkPos::new(0, 1), &Stone(2)),
            (ChunkPos::new(2, 1), &Stone(3)),
        ]
    );
    let slots = chunk.iter_positions();
    assert_eq!(slots.len(), CHUNK_SIZE * CHUNK_SIZE);
    assert_eq!(slots[0], (ChunkPos::new(0, 0), &None));
    assert_eq!(slots[1], (ChunkPos::new(1, 0), &Some(Stone(1))));
    assert_eq!(slots[34], (ChunkPos::new(2, 1), &Some(Stone(3))));
    for (index, (at, _)) in slots.iter().enumerate() {
        assert_eq!(at.as_index(), index);
    }
}

#[test]
fn chunk_iterates_with_access_to_change() {
    let mut chunk = Chunk::<Stone>::default();
    chunk.set(ChunkPos::new(2, 1), Stone(3));
    chunk.set(ChunkPos::new(1, 0), Stone(1));
    for tile in chunk.iter_tiles_mut() {
        tile.0 *= 10;
    }
    assert_eq!(chunk.iter_tiles(), vec![&Stone(10), &Stone(30)]);
    for (at, tile) in chunk.iter_tile_positions_mut() {
        tile.0 += at.x() as u32;
    }
    assert_eq!(chunk.iter_tiles(), vec![&Stone(11), &Stone(32)]);
    for (index, slot) in chunk.iter_mut().into_iter().enumerate() {
        if index == 1 {
            *slot = None;
        }
        if index == 1023 {
            *slot = Some(Stone(7));
        }
    }
    assert_eq!(chunk.iter_tiles(), vec![&Stone(32), &Stone(7)]);
    for (at, slot) in chunk.iter_positions_mut() {
        if at == ChunkPos::new(2, 1) {
            *slot = Some(Stone(at.as_index() as u32));
        }
    }
    assert_eq!(
        chunk.iter_tile_positions(),
        vec![(ChunkPos::new(2, 1), &Stone(34)), (ChunkPos::new(31, 31), &Stone(7))]
    );
}

#[test]
fn new_tilemap_is_empty() {
    let map = Tilemap::<Stone>::new(handle());
    assert!(map.iter_chunks().is_empty());
    assert!(map.iter().is_empty());
    assert!(map.chunk_positions().is_empty());
    assert_eq!(map.material().id, handle().id);
    assert!(map.get_chunk(IVec2::new(0, 0)).is_none());
}

#[test]
fn reading_never_creates_a_chunk() {
    let mut map = Tilemap::<Stone>::new(handle());
    assert_eq!(map.get(pos(4, 4, 1, 1)), None);
    assert!(map.get_mut(pos(4, 4, 1, 1)).is_none());
    assert!(map.get_chunk(IVec2::new(4, 4)).is_none());
    assert!(map.get_chunk_mut(IVec2::new(4, 4)).is_none());
    assert_eq!(map.remove(pos(4, 4, 1, 1)), None);
    assert_eq!(map.iter_chunks().len(), 0);
}

#[test]
fn writing_creates_a_chunk_once() {
    let mut map = Tilemap::<Stone>::new(handle());
    assert_eq!(map.set(pos(4, -4, 1, 1), Stone(1)), None);
    assert_eq!(map.iter_chunks().len(), 1);
    assert_eq!(map.set(pos(4, -4, 1, 1), Stone(2)), Some(Stone(1)));
    assert_eq!(map.set(pos(4, -4, 9, 9), Stone(3)), None);
    assert_eq!(map.iter_chunks().len(), 1);
    assert_eq!(map.set(pos(-4, 4, 1, 1), Stone(4)), None);
    assert_eq!(map.iter_chunks().len(), 2);
    assert_eq!(map.chunk_positions(), vec![IVec2::new(4, -4), IVec2::new(-4, 4)]);
    assert_eq!(map.get(pos(4, -4, 1, 1)), Some(&Stone(2)));
    assert_eq!(map.get(pos(-4, 4, 1, 1)), Some(&Stone(4)));
    assert_eq!(map.get(pos(-4, 4, 9, 9)), None);
}

#[test]
fn removing_keeps_the_chunk() {
    let mut map = Tilemap::<Stone>::new(handle());
    map.set(pos(0, 0, 1, 1), Stone(1));
    generate_meshes(&mut map);
    assert_eq!(map.remove(pos(0, 0, 1, 1)), Some(Stone(1)));
    assert_eq!(map.get(pos(0, 0, 1, 1)), None);
    assert_eq!(map.iter_chunks().len(), 1);
    assert!(map.iter_chunks()[0].is_dirty());
    assert_eq!(map.remove(pos(0, 0, 1, 1)), None);
}

#[test]
fn get_or_create_chunk_returns_the_chunk_that_is_there() {
    let mut map = Tilemap::<Stone>::new(handle());
    map.get_or_create_chunk(IVec2::new(2, 3)).set(ChunkPos::new(0, 0), Stone(1));
    assert_eq!(map.iter_chunks().len(), 1);
    assert!(map.get_or_create_chunk(IVec2::new(2, 3)).is_set(ChunkPos::new(0, 0)));
    assert_eq!(map.iter_chunks().len(), 1);
    assert!(!map.get_or_create_chunk(IVec2::new(3, 2)).is_dirty());
    assert_eq!(map.iter_chunks().len(), 2);
    assert_eq!(map.get(pos(2, 3, 0, 0)), Some(&Stone(1)));
}

#[test]
fn get_mut_changes_the_tile_in_place() {
    let mut map = Tilemap::<Stone>::new(handle());
    map.set(pos(1, 1, 5, 6), Stone(1));
    match map.get_mut(pos(1, 1, 5, 6)) {
        Some(tile) => tile.0 = 8,
        None => panic!("the tile was set"),
    }
    assert_eq!(map.get(pos(1, 1, 5, 6)), Some(&Stone(8)));
    match map.get_chunk_mut(IVec2::new(1, 1)) {
        Some(chunk) => assert_eq!(chunk.remove(ChunkPos::new(5, 6)), Some(Stone(8))),
        None => panic!("the chunk was made"),
    }
    assert_eq!(map.get(pos(1, 1, 5, 6)), None);
}

#[test]
fn tilemap_iterates_chunk_after_chunk() {
    let mut map = Tilemap::<Stone>::new(handle());
    map.set(pos(1, 0, 3, 3), Stone(4));
    map.set(pos(0, 0, 31, 31), Stone(2));
    map.set(pos(1, 0, 0, 0), Stone(3));
    map.set(pos(0, 0, 0, 5), Stone(1));
    assert_eq!(map.iter(), vec![&Stone(3), &Stone(4), &Stone(1), &Stone(2)]);
    assert_eq!(
        map.iter_positions(),
        vec![
            (pos(1, 0, 0, 0), &Stone(3)),
            (pos(1, 0, 3, 3), &Stone(4)),
            (pos(0, 0, 0, 5), &Stone(1)),
            (pos(0, 0, 31, 31), &Stone(2)),
        ]
    );
    let chunks = map.iter_chunk_positions();
    assert_eq!(chunks.len(), 2);
    assert_eq!(chunks[0].0, &IVec2::new(1, 0));
    assert_eq!(chunks[1].0, &IVec2::new(0, 0));
    assert!(chunks[0].1.is_set(ChunkPos::new(3, 3)));
    assert!(chunks[1].1.is_set(ChunkPos::new(0, 5)));
}

#[test]
fn tilemap_iterates_with_access_to_change() {
    let mut map = Tilemap::<Stone>::new(handle());
    map.set(pos(1, 0, 3, 3), Stone(4));
    map.set(pos(0, 0, 31, 31), Stone(2));
    map.set(pos(1, 0, 0, 0), Stone(3));
    for tile in map.iter_mut() {
        tile.0 += 100;
    }
    assert_eq!(map.iter(), vec![&Stone(103), &Stone(104), &Stone(102)]);
    for (at, tile) in map.iter_positions_mut() {
        tile.0 = (at.as_ivec2().x * 1000 + at.as_ivec2().y) as u32;
    }
    assert_eq!(map.get(pos(1, 0, 0, 0)), Some(&Stone(32000)));
    assert_eq!(map.get(pos(1, 0, 3, 3)), Some(&Stone(35003)));
    assert_eq!(map.get(pos(0, 0, 31, 31)), Some(&Stone(31031)));
    generate_meshes(&mut map);
    for chunk in map.iter_chunks_mut() {
        chunk.regenerate_mesh();
    }
    assert!(map.iter_chunks().iter().all(|chunk| chunk.is_dirty()));
    generate_meshes(&mut map);
    for (at, chunk) in map.iter_chunk_positions_mut() {
        if *at == IVec2::new(0, 0) {
            chunk.remove(ChunkPos::new(31, 31));
        }
    }
    assert_eq!(map.iter().len(), 2);
    assert!(!map.iter_chunks()[0].is_dirty());
    assert!(map.iter_chunks()[1].is_dirty());
}

#[test]
fn generate_meshes_builds_only_what_is_out_of_date() {
    let mut map = Tilemap::<Stone>::new(handle());
    map.set(pos(0, 0, 0, 0), Stone(1));
    map.set(pos(5, 5, 0, 0), Stone(2));
    map.set(pos(-5, 5, 0, 0), Stone(3));
    let first = generate_meshes(&mut map);
    let made: Vec<IVec2> = first.iter().map(|(at, _)| *at).collect();
    assert_eq!(made, vec![IVec2::new(0, 0), IVec2::new(5, 5), IVec2::new(-5, 5)]);
    assert!(generate_meshes(&mut map).is_empty());
    map.set(pos(5, 5, 1, 0), Stone(4));
    let second = generate_meshes(&mut map);
    let made: Vec<IVec2> = second.iter().map(|(at, _)| *at).collect();
    assert_eq!(made, vec![IVec2::new(5, 5)]);
    assert!(map.iter_chunks().iter().all(|chunk| !chunk.is_dirty()));
    assert_eq!(map.iter().len(), 4);
}

#[test]
fn neighbouring_tiles_across_a_chunk_border() {
    let mut map = Tilemap::<Stone>::new(handle());
    let a = TilemapPos::from(IVec2::new(31, 31));
    let b = TilemapPos::from(IVec2::new(32, 0));
    assert_eq!(a, pos(0, 0, 31, 31));
    assert_eq!(b, pos(1, 0, 0, 0));
    assert_eq!(map.set(a, Stone(1)), None);
    assert_eq!(map.set(b, Stone(2)), None);

    assert_eq!(map.chunk_positions(), vec![IVec2::new(0, 0), IVec2::new(1, 0)]);
    for at in [IVec2::new(0, 0), IVec2::new(1, 0)] {
        let chunk = map.get_chunk(at).expect("the chunk was written to");
        assert!(chunk.is_dirty());
        assert_eq!(occupied(chunk), 1);
        assert_eq!(chunk.mesh_carry_data(), &Seen::default());
    }

    let meshes = generate_meshes(&mut map);
    assert_eq!(meshes.len(), 2);
    assert_eq!(meshes[0].0, IVec2::new(0, 0));
    assert_eq!(meshes[1].0, IVec2::new(1, 0));

    let first = map.get_chunk(IVec2::new(0, 0)).expect("the chunk was written to");
    assert!(!first.is_dirty());
    assert_eq!(first.mesh_carry_data(), &Seen { generation: 1, tiles: vec![(31, 31, 1)] });
    let second = map.get_chunk(IVec2::new(1, 0)).expect("the chunk was written to");
    assert!(!second.is_dirty());
    assert_eq!(second.mesh_carry_data(), &Seen { generation: 1, tiles: vec![(0, 0, 2)] });
    assert_eq!(map.iter_chunks().len(), 2);
}
