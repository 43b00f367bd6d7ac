//! Directions, masks and linear indices.
use simulife::grid::{
    bit_to_dir, bitmask_to_dirs, dir_to_bitmask, direction_to_delta, linear_idx, opposite_dir,
    rotate_left, rotate_right,
};
use simulife::protocol::{
    Direction, CHUNK_AREA, CHUNK_EDGE, STEM_CONNECT_EAST, STEM_CONNECT_NORTH, STEM_CONNECT_SOUTH,
    STEM_CONNECT_WEST,
};

#[test]
fn dir_bitmask_round_trip() {
    for d in [
        Direction::North,
        Direction::East,
        Direction::South,
        Direction::West,
    ] {
        let mask = dir_to_bitmask(d);
        let dirs = bitmask_to_dirs(mask);
        assert_eq!(dirs, vec![d]);
        assert_eq!(bit_to_dir(mask), d);
    }
}

#[test]
fn bitmask_to_dirs_decodes_combined_mask() {
    let mask = STEM_CONNECT_NORTH | STEM_CONNECT_EAST | STEM_CONNECT_SOUTH | STEM_CONNECT_WEST;
    assert_eq!(
        bitmask_to_dirs(mask),
        vec![
            Direction::North,
            Direction::East,
            Direction::South,
            Direction::West,
        ]
    );
    assert!(bitmask_to_dirs(0).is_empty());
}

#[test]
fn rotate_left_cycles_through_all_dirs() {
    let mut d = Direction::North;
    d = rotate_left(d);
    assert_eq!(d, Direction::West);
    d = rotate_left(d);
    assert_eq!(d, Direction::South);
    d = rotate_left(d);
    assert_eq!(d, Direction::East);
    d = rotate_left(d);
    assert_eq!(d, Direction::North);
}

#[test]
fn rotate_right_cycles_through_all_dirs() {
    let mut d = Direction::North;
    d = rotate_right(d);
    assert_eq!(d, Direction::East);
    d = rotate_right(d);
    assert_eq!(d, Direction::South);
    d = rotate_right(d);
    assert_eq!(d, Direction::West);
    d = rotate_right(d);
    assert_eq!(d, Direction::North);
}

#[test]
fn opposite_dir_is_involution() {
    for d in [
        Direction::North,
        Direction::East,
        Direction::South,
        Direction::West,
    ] {
        assert_eq!(opposite_dir(opposite_dir(d)), d);
    }
    assert_eq!(opposite_dir(Direction::North), Direction::South);
    assert_eq!(opposite_dir(Direction::East), Direction::West);
}

#[test]
fn direction_to_delta_matches_screen_axes() {
    assert_eq!(direction_to_delta(Direction::North), (0, -1));
    assert_eq!(direction_to_delta(Direction::East), (1, 0));
    assert_eq!(direction_to_delta(Direction::South), (0, 1));
    assert_eq!(direction_to_delta(Direction::West), (-1, 0));
}

#[test]
fn linear_idx_packs_chunks_then_cells() {
    // 2x1 chunk world: idx 0 is chunk(0,0)'s first cell.
    assert_eq!(linear_idx(2, 0, 0), 0);
    // last cell of chunk(0,0)
    let edge = CHUNK_EDGE as i32;
    assert_eq!(linear_idx(2, edge - 1, edge - 1), CHUNK_AREA - 1);
    // first cell of chunk(1,0)
    assert_eq!(linear_idx(2, edge, 0), CHUNK_AREA);
}
