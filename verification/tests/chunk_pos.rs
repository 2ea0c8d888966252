use chunked_tilemap::math::{BVec2, IVec2};
use chunked_tilemap::tilemap::ChunkPos;
use chunked_tilemap::CHUNK_SIZE;

#[test]
fn chunk_size_is_a_power_of_two() {
    assert_eq!(CHUNK_SIZE, 32);
    assert!(CHUNK_SIZE.is_power_of_two());
}

#[test]
fn new_keeps_the_coordinates() {
    let pos = ChunkPos::new(3, 17);
    assert_eq!(pos.x(), 3);
    assert_eq!(pos.y(), 17);
    assert_eq!(pos.tup(), (3, 17));
}

#[test]
fn zero_is_the_origin() {
    assert_eq!(ChunkPos::zero(), ChunkPos::new(0, 0));
    assert_eq!(ChunkPos::zero().as_index(), 0);
}

#[test]
fn try_new_accepts_only_coordinates_inside_a_chunk() {
    assert_eq!(ChunkPos::try_new(0, 0), Some(ChunkPos::new(0, 0)));
    assert_eq!(ChunkPos::try_new(31, 31), Some(ChunkPos::new(31, 31)));
    assert_eq!(ChunkPos::try_new(32, 0), None);
    assert_eq!(ChunkPos::try_new(0, 32), None);
    assert_eq!(ChunkPos::try_new(255, 255), None);
}

#[test]
fn set_x_and_set_y_change_one_coordinate_each() {
    let mut pos = ChunkPos::new(1, 2);
    pos.set_x(30);
    assert_eq!(pos.tup(), (30, 2));
    pos.set_y(31);
    assert_eq!(pos.tup(), (30, 31));
}

#[test]
fn as_index_is_row_major() {
    assert_eq!(ChunkPos::new(0, 0).as_index(), 0);
    assert_eq!(ChunkPos::new(1, 0).as_index(), 1);
    assert_eq!(ChunkPos::new(0, 1).as_index(), 32);
    assert_eq!(ChunkPos::new(3, 1).as_index(), 35);
    assert_eq!(ChunkPos::new(31, 31).as_index(), 1023);
}

#[test]
fn as_index_gives_each_index_exactly_once() {
    let mut seen = vec![0u32; CHUNK_SIZE * CHUNK_SIZE];
    for y in 0..CHUNK_SIZE as u8 {
        for x in 0..CHUNK_SIZE as u8 {
            seen[ChunkPos::new(x, y).as_index()] += 1;
        }
    }
    assert!(seen.iter().all(|&count| count == 1));
}

#[test]
fn iter_positions_lists_every_position_in_row_major_order() {
    let all = ChunkPos::iter_positions();
    assert_eq!(all.len(), CHUNK_SIZE * CHUNK_SIZE);
    assert_eq!(all[0], ChunkPos::new(0, 0));
    assert_eq!(all[1], ChunkPos::new(1, 0));
    assert_eq!(all[31], ChunkPos::new(31, 0));
    assert_eq!(all[32], ChunkPos::new(0, 1));
    assert_eq!(all[1023], ChunkPos::new(31, 31));
    for (index, pos) in all.iter().enumerate() {
        assert_eq!(pos.as_index(), index);
    }
}

#[test]
fn iter_positions_can_be_taken_again() {
    assert_eq!(ChunkPos::iter_positions(), ChunkPos::iter_positions());
}

#[test]
fn as_ivec2_widens_the_coordinates() {
    assert_eq!(ChunkPos::new(4, 9).as_ivec2(), IVec2::new(4, 9));
    assert_eq!(IVec2::from(ChunkPos::new(31, 0)), IVec2 { x: 31, y: 0 });
}

#[test]
fn try_from_accepts_only_vectors_inside_a_chunk() {
    assert_eq!(ChunkPos::try_from(IVec2::new(4, 9)), Ok(ChunkPos::new(4, 9)));
    assert_eq!(ChunkPos::try_from(IVec2::new(31, 31)), Ok(ChunkPos::new(31, 31)));
    assert_eq!(ChunkPos::try_from(IVec2::new(-1, 0)), Err(()));
    assert_eq!(ChunkPos::try_from(IVec2::new(0, -1)), Err(()));
    assert_eq!(ChunkPos::try_from(IVec2::new(32, 0)), Err(()));
    assert_eq!(ChunkPos::try_from(IVec2::new(0, 32)), Err(()));
    assert_eq!(ChunkPos::try_from(IVec2::new(256, 0)), Err(()));
}

#[test]
fn wrapping_add_wraps_at_the_chunk_size() {
    let sum = ChunkPos::new(31, 5).wrapping_add(ChunkPos::new(1, 6));
    assert_eq!(sum, ChunkPos::new(0, 11));
    let sum = ChunkPos::new(31, 31).wrapping_add(ChunkPos::new(31, 31));
    assert_eq!(sum, ChunkPos::new(30, 30));
    let sum = ChunkPos::new(10, 20).wrapping_add(ChunkPos::new(5, 3));
    assert_eq!(sum, ChunkPos::new(15, 23));
}

#[test]
fn wrapping_sub_wraps_at_the_chunk_size() {
    let difference = ChunkPos::new(0, 5).wrapping_sub(ChunkPos::new(1, 6));
    assert_eq!(difference, ChunkPos::new(31, 31));
    let difference = ChunkPos::new(0, 0).wrapping_sub(ChunkPos::new(31, 31));
    assert_eq!(difference, ChunkPos::new(1, 1));
    let difference = ChunkPos::new(10, 20).wrapping_sub(ChunkPos::new(5, 3));
    assert_eq!(difference, ChunkPos::new(5, 17));
}

#[test]
fn overflowing_add_reports_the_axes_that_left_the_chunk() {
    let (sum, carry) = ChunkPos::new(31, 0).overflowing_add(ChunkPos::new(1, 0));
    assert_eq!(sum, ChunkPos::new(0, 0));
    assert_eq!(carry, BVec2::new(true, false));
    let (sum, carry) = ChunkPos::new(3, 31).overflowing_add(ChunkPos::new(4, 31));
    assert_eq!(sum, ChunkPos::new(7, 30));
    assert_eq!(carry, BVec2 { x: false, y: true });
    let (sum, carry) = ChunkPos::new(16, 16).overflowing_add(ChunkPos::new(16, 15));
    assert_eq!(sum, ChunkPos::new(0, 31));
    assert_eq!(carry, BVec2::new(true, false));
    let (sum, carry) = ChunkPos::new(17, 1).overflowing_add(ChunkPos::new(16, 1));
    assert_eq!(sum, ChunkPos::new(1, 2));
    assert_eq!(carry, BVec2::new(true, false));
}

#[test]
fn overflowing_sub_reports_the_axes_that_left_the_chunk() {
    let (difference, borrow) = ChunkPos::new(0, 0).overflowing_sub(ChunkPos::new(1, 0));
    assert_eq!(difference, ChunkPos::new(31, 0));
    assert_eq!(borrow, BVec2::new(true, false));
    let (difference, borrow) = ChunkPos::new(5, 5).overflowing_sub(ChunkPos::new(5, 6));
    assert_eq!(difference, ChunkPos::new(0, 31));
    assert_eq!(borrow, BVec2::new(false, true));
    let (difference, borrow) = ChunkPos::new(9, 9).overflowing_sub(ChunkPos::new(2, 3));
    assert_eq!(difference, ChunkPos::new(7, 6));
    assert_eq!(borrow, BVec2::new(false, false));
}

#[test]
fn operators_add_and_subtract_inside_the_chunk() {
    assert_eq!(ChunkPos::new(3, 4) + ChunkPos::new(10, 20), ChunkPos::new(13, 24));
    assert_eq!(ChunkPos::new(13, 24) - ChunkPos::new(10, 20), ChunkPos::new(3, 4));
    let mut pos = ChunkPos::new(1, 1);
    pos += ChunkPos::new(30, 2);
    assert_eq!(pos, ChunkPos::new(31, 3));
    pos -= ChunkPos::new(31, 3);
    assert_eq!(pos, ChunkPos::zero());
}
