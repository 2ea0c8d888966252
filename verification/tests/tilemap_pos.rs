use chunked_tilemap::math::IVec2;
use chunked_tilemap::rendering::chunk_origin;
use chunked_tilemap::tilemap::{ChunkPos, TilemapPos};

fn pos(chunk_x: i32, chunk_y: i32, x: u8, y: u8) -> TilemapPos {
    TilemapPos { chunk: IVec2::new(chunk_x, chunk_y), tile: ChunkPos::new(x, y) }
}

#[test]
fn zero_is_tile_zero_of_chunk_zero() {
    assert_eq!(TilemapPos::zero(), pos(0, 0, 0, 0));
}

#[test]
fn from_splits_an_absolute_coordinate() {
    assert_eq!(TilemapPos::from(IVec2::new(0, 0)), pos(0, 0, 0, 0));
    assert_eq!(TilemapPos::from(IVec2::new(31, 31)), pos(0, 0, 31, 31));
    assert_eq!(TilemapPos::from(IVec2::new(32, 0)), pos(1, 0, 0, 0));
    assert_eq!(TilemapPos::from(IVec2::new(100, 65)), pos(3, 2, 4, 1));
}

#[test]
fn from_rounds_down_for_negative_coordinates() {
    assert_eq!(TilemapPos::from(IVec2::new(-1, -1)), pos(-1, -1, 31, 31));
    assert_eq!(TilemapPos::from(IVec2::new(-32, -33)), pos(-1, -2, 0, 31));
    assert_eq!(TilemapPos::from(IVec2::new(-64, 5)), pos(-2, 0, 0, 5));
    assert_eq!(TilemapPos::from(IVec2::new(i32::MIN, i32::MAX)), pos(-67108864, 67108863, 0, 31));
}

#[test]
fn as_ivec2_is_chunk_times_size_plus_tile() {
    assert_eq!(pos(3, 2, 4, 1).as_ivec2(), IVec2::new(100, 65));
    assert_eq!(pos(-1, -1, 31, 31).as_ivec2(), IVec2::new(-1, -1));
    assert_eq!(pos(0, -2, 0, 0).as_ivec2(), IVec2::new(0, -64));
}

#[test]
fn absolute_coordinates_survive_the_round_trip() {
    for x in -130..130 {
        for y in [-97, -64, -33, -32, -31, -1, 0, 1, 31, 32, 33, 95] {
            let v = IVec2::new(x, y);
            assert_eq!(TilemapPos::from(v).as_ivec2(), v);
        }
    }
    for v in [IVec2::new(i32::MIN, i32::MAX), IVec2::new(i32::MAX, i32::MIN)] {
        assert_eq!(TilemapPos::from(v).as_ivec2(), v);
    }
}

#[test]
fn positions_survive_the_round_trip() {
    for chunk in -3..3 {
        for tile in 0..32u8 {
            let p = pos(chunk, -chunk, tile, 31 - tile);
            assert_eq!(TilemapPos::from(p.as_ivec2()), p);
        }
    }
}

#[test]
fn adding_tiles_carries_into_the_chunk() {
    let sum = pos(5, 7, 31, 0) + ChunkPos::new(1, 0);
    assert_eq!(sum, pos(6, 7, 0, 0));
    let sum = pos(5, 7, 0, 31) + ChunkPos::new(0, 31);
    assert_eq!(sum, pos(5, 8, 0, 30));
    let sum = pos(-1, -1, 31, 31) + ChunkPos::new(1, 1);
    assert_eq!(sum, pos(0, 0, 0, 0));
    let sum = pos(2, 2, 3, 4) + ChunkPos::new(5, 6);
    assert_eq!(sum, pos(2, 2, 8, 10));
}

#[test]
fn adding_a_sum_of_exactly_the_chunk_size_carries() {
    let sum = pos(0, 0, 16, 31) + ChunkPos::new(16, 1);
    assert_eq!(sum, pos(1, 1, 0, 0));
}

#[test]
fn subtracting_tiles_borrows_from_the_chunk() {
    let difference = pos(5, 7, 0, 0) - ChunkPos::new(1, 0);
    assert_eq!(difference, pos(4, 7, 31, 0));
    let difference = pos(0, 0, 0, 0) - ChunkPos::new(31, 31);
    assert_eq!(difference, pos(-1, -1, 1, 1));
    let difference = pos(2, 2, 8, 10) - ChunkPos::new(5, 6);
    assert_eq!(difference, pos(2, 2, 3, 4));
}

#[test]
fn adding_positions_adds_chunks_and_tiles() {
    let sum = pos(1, 2, 31, 10) + pos(10, 20, 1, 5);
    assert_eq!(sum, pos(12, 22, 0, 15));
    let sum = pos(-4, 0, 20, 20) + pos(1, -1, 20, 20);
    assert_eq!(sum, pos(-2, 0, 8, 8));
}

#[test]
fn subtracting_positions_subtracts_chunks_and_tiles() {
    let difference = pos(12, 22, 0, 15) - pos(10, 20, 1, 5);
    assert_eq!(difference, pos(1, 2, 31, 10));
    let difference = pos(0, 0, 0, 0) - pos(0, 0, 0, 1);
    assert_eq!(difference, pos(0, -1, 0, 31));
}

#[test]
fn addition_agrees_with_absolute_coordinates() {
    let points = [pos(0, 0, 0, 0), pos(1, -1, 31, 31), pos(-3, 2, 16, 1), pos(7, 7, 5, 30)];
    for a in points {
        for b in points {
            let sum = (a + b).as_ivec2();
            assert_eq!(sum.x, a.as_ivec2().x + b.as_ivec2().x);
            assert_eq!(sum.y, a.as_ivec2().y + b.as_ivec2().y);
            let difference = (a - b).as_ivec2();
            assert_eq!(difference.x, a.as_ivec2().x - b.as_ivec2().x);
            assert_eq!(difference.y, a.as_ivec2().y - b.as_ivec2().y);
        }
    }
}

#[test]
fn adding_chunks_leaves_the_tile() {
    let sum = pos(1, 2, 31, 31) + IVec2::new(3, -5);
    assert_eq!(sum, pos(4, -3, 31, 31));
    let difference = pos(1, 2, 0, 7) - IVec2::new(3, -5);
    assert_eq!(difference, pos(-2, 7, 0, 7));
}

#[test]
fn assigning_operators_agree_with_the_plain_ones() {
    let start = pos(1, 2, 31, 10);
    let mut p = start;
    p += pos(10, 20, 1, 5);
    assert_eq!(p, start + pos(10, 20, 1, 5));
    p -= pos(10, 20, 1, 5);
    assert_eq!(p, start);
    p += ChunkPos::new(1, 22);
    assert_eq!(p, pos(2, 3, 0, 0));
    p -= ChunkPos::new(1, 22);
    assert_eq!(p, start);
    p += IVec2::new(-4, 4);
    assert_eq!(p, pos(-3, 6, 31, 10));
    p -= IVec2::new(-4, 4);
    assert_eq!(p, start);
}

#[test]
fn chunk_origin_is_the_coordinate_times_the_chunk_size() {
    assert_eq!(chunk_origin(IVec2::new(0, 0)), IVec2::new(0, 0));
    assert_eq!(chunk_origin(IVec2::new(1, -1)), IVec2::new(32, -32));
    assert_eq!(chunk_origin(IVec2::new(-7, 100)), IVec2::new(-224, 3200));
}
