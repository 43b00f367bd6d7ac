//! Geometry of the chunked world.
//!
//! The world is a rectangle of chunks, chunk after chunk in row-major order,
//! each chunk holding its cells row by row. A cell is named either by its world
//! coordinates or by its linear index: the position it has when all cells are
//! laid out in storage order. The flat view of a world is the sequence of its
//! cells by linear index.
use vstd::prelude::*;
use crate::protocol::{Cell, CellView, Chunk, Direction, CHUNK_AREA, CHUNK_EDGE, STEM_CONNECT_EAST};
use crate::protocol::{STEM_CONNECT_NORTH, STEM_CONNECT_SOUTH, STEM_CONNECT_WEST};

verus! {

// ---------------------------------------------------------------------------
// Directions
// ---------------------------------------------------------------------------
/// Horizontal step of a direction; east is positive.
pub open spec fn dx_of(dir: Direction) -> int {
    match dir {
        Direction::East => 1,
        Direction::West => -1,
        _ => 0,
    }
}

/// Vertical step of a direction; south is positive.
pub open spec fn dy_of(dir: Direction) -> int {
    match dir {
        Direction::North => -1,
        Direction::South => 1,
        _ => 0,
    }
}

/// A quarter turn to the left.
pub open spec fn left_of(d: Direction) -> Direction {
    match d {
        Direction::North => Direction::West,
        Direction::West => Direction::South,
        Direction::South => Direction::East,
        Direction::East => Direction::North,
    }
}

/// A quarter turn to the right.
pub open spec fn right_of(d: Direction) -> Direction {
    match d {
        Direction::North => Direction::East,
        Direction::East => Direction::South,
        Direction::South => Direction::West,
        Direction::West => Direction::North,
    }
}

/// A half turn.
pub open spec fn opposite(d: Direction) -> Direction {
    match d {
        Direction::North => Direction::South,
        Direction::East => Direction::West,
        Direction::South => Direction::North,
        Direction::West => Direction::East,
    }
}

/// The bit that stands for a direction in a stem's masks.
pub open spec fn bit_of(d: Direction) -> u8 {
    match d {
        Direction::North => STEM_CONNECT_NORTH,
        Direction::East => STEM_CONNECT_EAST,
        Direction::South => STEM_CONNECT_SOUTH,
        Direction::West => STEM_CONNECT_WEST,
    }
}

/// The direction of a single bit; anything that is not the north, east or south
/// bit reads as west.
pub open spec fn dir_of_bit(bit: u8) -> Direction {
    if bit == STEM_CONNECT_NORTH {
        Direction::North
    } else if bit == STEM_CONNECT_EAST {
        Direction::East
    } else if bit == STEM_CONNECT_SOUTH {
        Direction::South
    } else {
        Direction::West
    }
}

/// The four directions in scan order.
pub open spec fn dir_at(k: int) -> Direction {
    if k == 0 {
        Direction::North
    } else if k == 1 {
        Direction::East
    } else if k == 2 {
        Direction::South
    } else {
        Direction::West
    }
}

/// Whether a mask names a direction.
pub open spec fn has_dir(mask: u8, d: Direction) -> bool {
    mask & bit_of(d) != 0
}

/// The directions that a mask names among the first `k`, in scan order.
pub open spec fn mask_dirs(mask: u8, k: nat) -> Seq<Direction>
    decreases k,
{
    if k == 0 {
        Seq::empty()
    } else {
        let before = mask_dirs(mask, (k - 1) as nat);
        let d = dir_at(k - 1);
        if has_dir(mask, d) {
            before.push(d)
        } else {
            before
        }
    }
}

/// A mask lists exactly the directions that it names.
pub proof fn lemma_mask_dirs(mask: u8, d: Direction)
    ensures
        mask_dirs(mask, 4).contains(d) == has_dir(mask, d),
        mask_dirs(mask, 4).no_duplicates(),
        mask_dirs(mask, 4).len() <= 4,
{
    lemma_mask_dirs_upto(mask, 4);
    let dirs = mask_dirs(mask, 4);
    let k: int = match d {
        Direction::North => 0,
        Direction::East => 1,
        Direction::South => 2,
        Direction::West => 3,
    };
    assert(dir_at(k) == d);
    if dirs.contains(d) {
        let t = choose|t: int| 0 <= t < dirs.len() && dirs[t] == d;
        assert(has_dir(mask, dirs[t]));
    }
}

/// The directions listed from the first `k` are among them, named by the mask,
/// complete and without repetition.
proof fn lemma_mask_dirs_upto(mask: u8, k: nat)
    requires
        k <= 4,
    ensures
        mask_dirs(mask, k).len() <= k,
        forall|t: int|
            0 <= t < mask_dirs(mask, k).len() ==> has_dir(mask, #[trigger] mask_dirs(mask, k)[t]),
        forall|t: int|
            0 <= t < mask_dirs(mask, k).len() ==> exists|m: int|
                0 <= m < k && #[trigger] dir_at(m) == #[trigger] mask_dirs(mask, k)[t],
        forall|m: int|
            0 <= m < k && has_dir(mask, #[trigger] dir_at(m)) ==> mask_dirs(mask, k).contains(
                dir_at(m),
            ),
        mask_dirs(mask, k).no_duplicates(),
    decreases k,
{
    if k > 0 {
        lemma_mask_dirs_upto(mask, (k - 1) as nat);
        let before = mask_dirs(mask, (k - 1) as nat);
        let after = mask_dirs(mask, k);
        let d = dir_at(k - 1);
        if has_dir(mask, d) {
            assert(after == before.push(d));
            assert(after[before.len() as int] == d);
            assert forall|m: int| 0 <= m < k && has_dir(mask, #[trigger] dir_at(m)) implies after.contains(
                dir_at(m),
            ) by {
                if m < k - 1 {
                    let t = choose|t: int| 0 <= t < before.len() && before[t] == dir_at(m);
                    assert(after[t] == dir_at(m));
                }
            }
            assert forall|t: int| 0 <= t < after.len() implies exists|m: int|
                0 <= m < k && #[trigger] dir_at(m) == #[trigger] after[t] by {
                if t < before.len() {
                    assert(after[t] == before[t]);
                    let m = choose|m: int| 0 <= m < k - 1 && #[trigger] dir_at(m) == before[t];
                    assert(dir_at(m) == after[t]);
                } else {
                    assert(dir_at(k - 1) == after[t]);
                }
            }
            assert(forall|t: int| 0 <= t < before.len() ==> before[t] != d);
        }
    }
}

/// Four quarter turns to the same side lead back, turns to the left and to the right
/// undo each other, and two quarter turns make a half turn, which undoes itself and
/// reverses the step.
pub proof fn lemma_turns(d: Direction)
    ensures
        left_of(left_of(left_of(left_of(d)))) == d,
        right_of(right_of(right_of(right_of(d)))) == d,
        left_of(right_of(d)) == d,
        right_of(left_of(d)) == d,
        opposite(d) == left_of(left_of(d)),
        opposite(d) == right_of(right_of(d)),
        opposite(opposite(d)) == d,
        dx_of(opposite(d)) == -dx_of(d),
        dy_of(opposite(d)) == -dy_of(d),
{
}

/// Every direction has a bit of its own, from which it can be told.
pub proof fn lemma_bits(d: Direction, e: Direction)
    ensures
        dir_of_bit(bit_of(d)) == d,
        has_dir(bit_of(d), e) == (d == e),
        has_dir(0, d) == false,
{
    assert(1u8 & 1u8 != 0 && 1u8 & 2u8 == 0 && 1u8 & 4u8 == 0 && 1u8 & 8u8 == 0) by (bit_vector);
    assert(2u8 & 1u8 == 0 && 2u8 & 2u8 != 0 && 2u8 & 4u8 == 0 && 2u8 & 8u8 == 0) by (bit_vector);
    assert(4u8 & 1u8 == 0 && 4u8 & 2u8 == 0 && 4u8 & 4u8 != 0 && 4u8 & 8u8 == 0) by (bit_vector);
    assert(8u8 & 1u8 == 0 && 8u8 & 2u8 == 0 && 8u8 & 4u8 == 0 && 8u8 & 8u8 != 0) by (bit_vector);
    assert(0u8 & 1u8 == 0 && 0u8 & 2u8 == 0 && 0u8 & 4u8 == 0 && 0u8 & 8u8 == 0) by (bit_vector);
}

/// The direction to the left of a direction.
pub fn rotate_left(d: Direction) -> (turned: Direction)
    ensures
        turned == left_of(d),
{
    match d {
        Direction::North => Direction::West,
        Direction::West => Direction::South,
        Direction::South => Direction::East,
        Direction::East => Direction::North,
    }
}

/// The direction to the right of a direction.
pub fn rotate_right(d: Direction) -> (turned: Direction)
    ensures
        turned == right_of(d),
{
    match d {
        Direction::North => Direction::East,
        Direction::East => Direction::South,
        Direction::South => Direction::West,
        Direction::West => Direction::North,
    }
}

/// The opposite direction.
pub fn opposite_dir(d: Direction) -> (turned: Direction)
    ensures
        turned == opposite(d),
{
    match d {
        Direction::North => Direction::South,
        Direction::East => Direction::West,
        Direction::South => Direction::North,
        Direction::West => Direction::East,
    }
}

/// The bit of a direction in a stem's masks.
pub fn dir_to_bitmask(d: Direction) -> (bit: u8)
    ensures
        bit == bit_of(d),
{
    match d {
        Direction::North => STEM_CONNECT_NORTH,
        Direction::East => STEM_CONNECT_EAST,
        Direction::South => STEM_CONNECT_SOUTH,
        Direction::West => STEM_CONNECT_WEST,
    }
}

/// The direction of a bit; every other number stands for west.
pub fn bit_to_dir(bit: u8) -> (dir: Direction)
    ensures
        dir == dir_of_bit(bit),
{
    if bit == STEM_CONNECT_NORTH {
        Direction::North
    } else if bit == STEM_CONNECT_EAST {
        Direction::East
    } else if bit == STEM_CONNECT_SOUTH {
        Direction::South
    } else {
        Direction::West
    }
}

/// The `k`-th direction in scan order.
pub fn nth_dir(k: usize) -> (dir: Direction)
    ensures
        dir == dir_at(k as int),
{
    if k == 0 {
        Direction::North
    } else if k == 1 {
        Direction::East
    } else if k == 2 {
        Direction::South
    } else {
        Direction::West
    }
}

/// The directions that a mask names, in scan order.
pub fn bitmask_to_dirs(mask: u8) -> (dirs: Vec<Direction>)
    ensures
        dirs@ == mask_dirs(mask, 4),
{
    let mut dirs: Vec<Direction> = Vec::new();
    let mut k: usize = 0;
    while k < 4
        invariant
            k <= 4,
            dirs@ == mask_dirs(mask, k as nat),
        decreases 4 - k,
    {
        let d = nth_dir(k);
        if mask & dir_to_bitmask(d) != 0 {
            dirs.push(d);
        }
        k = k + 1;
    }
    dirs
}

/// The step in a direction, as column and row offset.
pub fn direction_to_delta(dir: Direction) -> (delta: (i32, i32))
    ensures
        delta.0 == dx_of(dir),
        delta.1 == dy_of(dir),
{
    match dir {
        Direction::North => (0, -1),
        Direction::East => (1, 0),
        Direction::South => (0, 1),
        Direction::West => (-1, 0),
    }
}

// ---------------------------------------------------------------------------
// Coordinates and linear indices
// ---------------------------------------------------------------------------
/// Linear index of the cell at world coordinates `(x, y)`.
pub open spec fn idx_of(chunks_x: int, x: int, y: int) -> int {
    ((y / 32) * chunks_x + x / 32) * 1024 + (y % 32) * 32 + x % 32
}

/// World x of a linear index.
pub open spec fn x_of(chunks_x: int, i: int) -> int {
    ((i / 1024) % chunks_x) * 32 + (i % 1024) % 32
}

/// World y of a linear index.
pub open spec fn y_of(chunks_x: int, i: int) -> int {
    ((i / 1024) / chunks_x) * 32 + (i % 1024) / 32
}

/// Where a coordinate lands on an axis of `max` cells: folded onto the axis when
/// the world wraps, nowhere when it lies off a hard edge.
pub open spec fn on_axis(c: int, max: int, wrap: bool) -> Option<int> {
    if wrap {
        Some(c % max)
    } else if c < 0 || c >= max {
        None
    } else {
        Some(c)
    }
}

/// The extent of a world in chunks, and whether its opposite edges meet.
#[derive(Clone, Copy, Debug, PartialEq, Eq, Structural)]
pub struct Grid {
    pub chunks_x: u32,
    pub chunks_y: u32,
    pub wrap: bool,
}

impl Grid {
    /// Number of cells in the world.
    pub open spec fn cells(self) -> int {
        cell_count(self.chunks_x as int, self.chunks_y as int)
    }

    /// World coordinates are `i32` and linear indices are `usize`.
    pub open spec fn fits(self) -> bool {
        &&& 32 * self.chunks_x <= i32::MAX
        &&& 32 * self.chunks_y <= i32::MAX
        &&& self.cells() <= usize::MAX
    }
}

/// Linear index of the cell `(dx, dy)` away from cell `i`, if there is one.
#[verifier::opaque]
pub open spec fn nbr(g: Grid, i: int, dx: int, dy: int) -> Option<int> {
    match (
        on_axis(x_of(g.chunks_x as int, i) + dx, 32 * g.chunks_x, g.wrap),
        on_axis(y_of(g.chunks_x as int, i) + dy, 32 * g.chunks_y, g.wrap),
    ) {
        (Some(nx), Some(ny)) => Some(idx_of(g.chunks_x as int, nx, ny)),
        _ => None,
    }
}

/// The neighbour of a cell in a direction.
pub open spec fn nbr_dir(g: Grid, i: int, d: Direction) -> Option<int> {
    nbr(g, i, dx_of(d), dy_of(d))
}

/// Number of cells in the world.
pub open spec fn cell_count(chunks_x: int, chunks_y: int) -> int {
    chunks_x * chunks_y * 1024
}

/// Coordinates stay inside the world and determine the index, and back.
pub proof fn lemma_idx_of(chunks_x: int, chunks_y: int, x: int, y: int)
    requires
        0 <= x < 32 * chunks_x,
        0 <= y < 32 * chunks_y,
    ensures
        0 <= idx_of(chunks_x, x, y) < cell_count(chunks_x, chunks_y),
        x_of(chunks_x, idx_of(chunks_x, x, y)) == x,
        y_of(chunks_x, idx_of(chunks_x, x, y)) == y,
        idx_of(chunks_x, x, y) / 1024 == (y / 32) * chunks_x + x / 32,
        idx_of(chunks_x, x, y) % 1024 == (y % 32) * 32 + x % 32,
{
    let cx = x / 32;
    let cy = y / 32;
    let q = cy * chunks_x + cx;
    assert(0 <= cx < chunks_x);
    assert(0 <= cy < chunks_y);
    let local = (y % 32) * 32 + x % 32;
    assert(0 <= local < 1024);
    let i = idx_of(chunks_x, x, y);
    assert(i == q * 1024 + local);
    assert(0 <= q < chunks_x * chunks_y) by (nonlinear_arith)
        requires
            q == cy * chunks_x + cx,
            0 <= cx < chunks_x,
            0 <= cy < chunks_y,
    ;
    assert(i / 1024 == q && i % 1024 == local);
    assert(q / chunks_x == cy && q % chunks_x == cx) by {
        vstd::arithmetic::div_mod::lemma_fundamental_div_mod_converse(q, chunks_x, cy, cx);
    }
    assert(chunks_x * chunks_y * 1024 > q * 1024 + local);
}

/// Indices stay inside the world and determine the coordinates, and back.
pub proof fn lemma_xy_of(chunks_x: int, chunks_y: int, i: int)
    requires
        0 < chunks_x,
        0 < chunks_y,
        0 <= i < cell_count(chunks_x, chunks_y),
    ensures
        0 <= x_of(chunks_x, i) < 32 * chunks_x,
        0 <= y_of(chunks_x, i) < 32 * chunks_y,
        idx_of(chunks_x, x_of(chunks_x, i), y_of(chunks_x, i)) == i,
{
    let q = i / 1024;
    let local = i % 1024;
    assert(0 <= q < chunks_x * chunks_y);
    let cx = q % chunks_x;
    let cy = q / chunks_x;
    assert(q == cy * chunks_x + cx && 0 <= cx < chunks_x && 0 <= cy < chunks_y) by {
        vstd::arithmetic::div_mod::lemma_fundamental_div_mod(q, chunks_x);
        assert(chunks_x * cy == cy * chunks_x) by (nonlinear_arith);
        assert(0 <= cy < chunks_y) by (nonlinear_arith)
            requires
                q == cy * chunks_x + cx,
                0 <= q < chunks_x * chunks_y,
                0 <= cx < chunks_x,
                0 < chunks_y,
        ;
    }
    let x = x_of(chunks_x, i);
    let y = y_of(chunks_x, i);
    assert(x == cx * 32 + local % 32);
    assert(y == cy * 32 + local / 32);
    assert(x / 32 == cx && x % 32 == local % 32);
    assert(y / 32 == cy && y % 32 == local / 32);
}

/// A world with a cell has chunks in both directions.
pub proof fn lemma_nonempty(chunks_x: int, chunks_y: int, i: int)
    requires
        0 <= chunks_x,
        0 <= chunks_y,
        0 <= i < cell_count(chunks_x, chunks_y),
    ensures
        0 < chunks_x,
        0 < chunks_y,
{
    assert(0 < chunks_x && 0 < chunks_y) by (nonlinear_arith)
        requires
            0 <= chunks_x,
            0 <= chunks_y,
            0 < chunks_x * chunks_y * 1024,
    ;
}

/// A neighbour is a cell of the world, and a wrapped world has all neighbours.
pub proof fn lemma_nbr_in_world(g: Grid, i: int, dx: int, dy: int)
    requires
        0 <= i < g.cells(),
    ensures
        nbr(g, i, dx, dy) matches Some(j) ==> 0 <= j < g.cells(),
        g.wrap ==> nbr(g, i, dx, dy) is Some,
{
    reveal(nbr);
    let chunks_x = g.chunks_x as int;
    let chunks_y = g.chunks_y as int;
    lemma_nonempty(chunks_x, chunks_y, i);
    let ax = on_axis(x_of(chunks_x, i) + dx, 32 * chunks_x, g.wrap);
    let ay = on_axis(y_of(chunks_x, i) + dy, 32 * chunks_y, g.wrap);
    if ax is Some && ay is Some {
        lemma_idx_of(chunks_x, chunks_y, ax->0, ay->0);
    }
}

/// A step of `(dx, dy)` leads as many columns and rows on. Where the world wraps, columns and
/// rows are counted on from the other edge; where it does not, a step over the edge leads
/// nowhere.
pub proof fn lemma_nbr_is_so_far_away(g: Grid, i: int, dx: int, dy: int)
    requires
        0 <= i < g.cells(),
    ensures
        ({
            let c = g.chunks_x as int;
            let wide = 32 * c;
            let high = 32 * g.chunks_y as int;
            let x = x_of(c, i) + dx;
            let y = y_of(c, i) + dy;
            match nbr(g, i, dx, dy) {
                Some(j) => if g.wrap {
                    x_of(c, j) == x % wide && y_of(c, j) == y % high
                } else {
                    x_of(c, j) == x && y_of(c, j) == y && 0 <= x < wide && 0 <= y < high
                },
                None => !g.wrap && (x < 0 || x >= wide || y < 0 || y >= high),
            }
        }),
{
    reveal(nbr);
    let chunks_x = g.chunks_x as int;
    let chunks_y = g.chunks_y as int;
    lemma_nonempty(chunks_x, chunks_y, i);
    let ax = on_axis(x_of(chunks_x, i) + dx, 32 * chunks_x, g.wrap);
    let ay = on_axis(y_of(chunks_x, i) + dy, 32 * chunks_y, g.wrap);
    if ax is Some && ay is Some {
        lemma_idx_of(chunks_x, chunks_y, ax->0, ay->0);
    }
}

/// The neighbours of a cell in different directions are different cells.
pub proof fn lemma_nbr_distinct(g: Grid, i: int, a: Direction, b: Direction)
    requires
        0 <= i < g.cells(),
        nbr_dir(g, i, a) is Some,
        nbr_dir(g, i, a) == nbr_dir(g, i, b),
    ensures
        a == b,
{
    reveal(nbr);
    let cx = g.chunks_x as int;
    let cy = g.chunks_y as int;
    lemma_nonempty(cx, cy, i);
    lemma_xy_of(cx, cy, i);
    let x = x_of(cx, i);
    let y = y_of(cx, i);
    let ax = on_axis(x + dx_of(a), 32 * cx, g.wrap)->0;
    let ay = on_axis(y + dy_of(a), 32 * cy, g.wrap)->0;
    let bx = on_axis(x + dx_of(b), 32 * cx, g.wrap)->0;
    let by = on_axis(y + dy_of(b), 32 * cy, g.wrap)->0;
    lemma_idx_of(cx, cy, ax, ay);
    lemma_idx_of(cx, cy, bx, by);
    assert(ax == bx && ay == by);
    lemma_axis_distinct(x + dx_of(a), x + dx_of(b), 32 * cx, g.wrap);
    lemma_axis_distinct(y + dy_of(a), y + dy_of(b), 32 * cy, g.wrap);
}

/// The cells at different places of the 3x3 square around a cell are different cells.
pub proof fn lemma_nbr_apart(g: Grid, i: int, ax: int, ay: int, bx: int, by: int)
    requires
        0 <= i < g.cells(),
        -1 <= ax <= 1,
        -1 <= ay <= 1,
        -1 <= bx <= 1,
        -1 <= by <= 1,
        nbr(g, i, ax, ay) is Some,
        nbr(g, i, ax, ay) == nbr(g, i, bx, by),
    ensures
        ax == bx && ay == by,
{
    reveal(nbr);
    let cx = g.chunks_x as int;
    let cy = g.chunks_y as int;
    lemma_nonempty(cx, cy, i);
    lemma_xy_of(cx, cy, i);
    let x = x_of(cx, i);
    let y = y_of(cx, i);
    let px = on_axis(x + ax, 32 * cx, g.wrap)->0;
    let py = on_axis(y + ay, 32 * cy, g.wrap)->0;
    let qx = on_axis(x + bx, 32 * cx, g.wrap)->0;
    let qy = on_axis(y + by, 32 * cy, g.wrap)->0;
    lemma_idx_of(cx, cy, px, py);
    lemma_idx_of(cx, cy, qx, qy);
    assert(px == qx && py == qy);
    lemma_axis_distinct(x + ax, x + bx, 32 * cx, g.wrap);
    lemma_axis_distinct(y + ay, y + by, 32 * cy, g.wrap);
}

proof fn lemma_axis_distinct(a: int, b: int, max: int, wrap: bool)
    requires
        max > 2,
        -2 <= a - b <= 2,
        on_axis(a, max, wrap) is Some,
        on_axis(a, max, wrap) == on_axis(b, max, wrap),
    ensures
        a == b,
{
    if wrap {
        assert(a - b == max * (a / max - b / max)) by (nonlinear_arith)
            requires
                max > 2,
                a % max == b % max,
        ;
        let k = a / max - b / max;
        assert(k == 0) by (nonlinear_arith)
            requires
                -2 <= max * k <= 2,
                max > 2,
        ;
    }
}

/// Going one step and then the opposite step leads back: neighbourhood is
/// symmetric, with hard edges and on a wrapped world alike.
pub proof fn lemma_nbr_symmetric(g: Grid, i: int, dx: int, dy: int)
    requires
        0 <= i < g.cells(),
    ensures
        nbr(g, i, dx, dy) matches Some(j) ==> nbr(g, j, -dx, -dy) == Some(i),
{
    reveal(nbr);
    let chunks_x = g.chunks_x as int;
    let chunks_y = g.chunks_y as int;
    lemma_nonempty(chunks_x, chunks_y, i);
    lemma_xy_of(chunks_x, chunks_y, i);
    let x = x_of(chunks_x, i);
    let y = y_of(chunks_x, i);
    let ax = on_axis(x + dx, 32 * chunks_x, g.wrap);
    let ay = on_axis(y + dy, 32 * chunks_y, g.wrap);
    if ax is Some && ay is Some {
        lemma_idx_of(chunks_x, chunks_y, ax->0, ay->0);
        lemma_axis_back(x, dx, 32 * chunks_x, g.wrap);
        lemma_axis_back(y, dy, 32 * chunks_y, g.wrap);
    }
}

proof fn lemma_axis_back(c: int, d: int, max: int, wrap: bool)
    requires
        0 <= c < max,
    ensures
        on_axis(c + d, max, wrap) matches Some(n) ==> on_axis(n - d, max, wrap) == Some(c),
{
    if wrap {
        let n = (c + d) % max;
        vstd::arithmetic::div_mod::lemma_fundamental_div_mod(c + d, max);
        let k = (c + d) / max;
        assert(n - d == max * (-k) + c) by (nonlinear_arith)
            requires
                c + d == max * k + n,
        ;
        vstd::arithmetic::div_mod::lemma_mod_multiples_vanish(-k, c, max);
        vstd::arithmetic::div_mod::lemma_small_mod(c as nat, max as nat);
    }
}

/// Linear index of the cell at world coordinates `(wx, wy)`.
pub fn linear_idx(chunks_x: u32, wx: i32, wy: i32) -> (idx: usize)
    requires
        0 <= wx,
        0 <= wy,
        idx_of(chunks_x as int, wx as int, wy as int) <= usize::MAX,
    ensures
        idx == idx_of(chunks_x as int, wx as int, wy as int),
{
    let cx: usize = (wx / 32) as usize;
    let cy: usize = (wy / 32) as usize;
    let lx: usize = (wx % 32) as usize;
    let ly: usize = (wy % 32) as usize;
    let ghost row = (wy as int / 32) * (chunks_x as int);
    assert(row == cy * chunks_x);
    assert(0 <= row) by (nonlinear_arith)
        requires
            row == (wy as int / 32) * (chunks_x as int),
            0 <= wy,
            0 <= chunks_x,
    ;
    let chunk_idx: usize = cy * chunks_x as usize + cx;
    chunk_idx * CHUNK_AREA + ly * (CHUNK_EDGE as usize) + lx
}

/// Where a coordinate lands on an axis of `max` cells.
pub fn in_bounds(c: i32, max: i32, wrap: bool) -> (landed: Option<i32>)
    requires
        0 < max,
    ensures
        match landed {
            Some(n) => on_axis(c as int, max as int, wrap) == Some(n as int),
            None => on_axis(c as int, max as int, wrap) is None,
        },
{
    if wrap {
        c.checked_rem_euclid(max)
    } else if c < 0 || c >= max {
        None
    } else {
        Some(c)
    }
}

// ---------------------------------------------------------------------------
// The flat view of a world
// ---------------------------------------------------------------------------
/// A world of the extent of `g`, with all its cells.
pub open spec fn shaped(chunks: Seq<Chunk>, g: Grid) -> bool {
    &&& g.fits()
    &&& chunks.len() == g.chunks_x * g.chunks_y
    &&& forall|c: int| 0 <= c < chunks.len() ==> (#[trigger] chunks[c]).cells.len() == CHUNK_AREA
}

/// All cells of a world by linear index.
#[verifier::opaque]
pub open spec fn world_of(chunks: Seq<Chunk>) -> Seq<CellView> {
    Seq::new((chunks.len() * 1024) as nat, |i: int| chunks[i / 1024].cells@[i % 1024]@)
}

/// Same number of chunks, at the same coordinates, with as many cells.
pub open spec fn same_layout(a: Seq<Chunk>, b: Seq<Chunk>) -> bool {
    &&& a.len() == b.len()
    &&& forall|c: int|
        0 <= c < a.len() ==> (#[trigger] a[c]).coord == b[c].coord && a[c].cells.len()
            == b[c].cells.len()
}

/// What a layout-preserving change keeps.
pub proof fn lemma_same_layout_shaped(a: Seq<Chunk>, b: Seq<Chunk>, g: Grid)
    requires
        shaped(a, g),
        same_layout(a, b),
    ensures
        shaped(b, g),
        world_of(b).len() == g.cells(),
{
    lemma_world_len(a, g);
    reveal(world_of);
    assert forall|c: int| 0 <= c < b.len() implies (#[trigger] b[c]).cells.len() == CHUNK_AREA by {
        assert(a[c].cells.len() == CHUNK_AREA);
    }
}

/// The flat view of a world has as many cells as the world.
pub proof fn lemma_world_len(chunks: Seq<Chunk>, g: Grid)
    requires
        shaped(chunks, g),
    ensures
        world_of(chunks).len() == g.cells(),
{
    reveal(world_of);
}

/// Worlds that fit their index types are far smaller than what a `u64` counts.
pub proof fn lemma_cells_bound(g: Grid)
    requires
        g.fits(),
    ensures
        0 <= g.cells() < 0x4000_0000_0000_0000,
{
    let x = g.chunks_x as int;
    let y = g.chunks_y as int;
    assert(0 <= x * y * 1024 < 0x4000_0000_0000_0000) by (nonlinear_arith)
        requires
            0 <= x < 0x400_0000,
            0 <= y < 0x400_0000,
    ;
}

/// The cell at a linear index.
pub fn cell_ref(chunks: &Vec<Chunk>, g: Grid, i: usize) -> (cell: &Cell)
    requires
        shaped(chunks@, g),
        i < g.cells(),
    ensures
        cell@ == world_of(chunks@)[i as int],
{
    proof {
        reveal(world_of);
    }
    &chunks[i / CHUNK_AREA].cells[i % CHUNK_AREA]
}

/// Exclusive access to the cell at a linear index.
pub fn cell_mut(chunks: &mut Vec<Chunk>, g: Grid, i: usize) -> (cell: &mut Cell)
    requires
        shaped(old(chunks)@, g),
        i < g.cells(),
    ensures
        cell@ == world_of(old(chunks)@)[i as int],
        world_of(final(chunks)@) == world_of(old(chunks)@).update(i as int, (*final(cell))@),
        same_layout(old(chunks)@, final(chunks)@),
        shaped(final(chunks)@, g),
{
    let c: usize = i / CHUNK_AREA;
    let k: usize = i % CHUNK_AREA;
    proof {
        reveal(world_of);
    }
    &mut chunks[c].cells[k]
}

/// Number of cells in the world.
pub fn total_cells(g: Grid) -> (n: usize)
    requires
        g.fits(),
    ensures
        n == g.cells(),
{
    proof {
        let x = g.chunks_x as int;
        let y = g.chunks_y as int;
        assert(0 <= x * y <= x * y * 1024) by (nonlinear_arith)
            requires
                0 <= x,
                0 <= y,
        ;
    }
    let chunks: usize = g.chunks_x as usize * g.chunks_y as usize;
    chunks * CHUNK_AREA
}

/// World coordinates of a linear index.
pub fn coords(g: Grid, i: usize) -> (xy: (i32, i32))
    requires
        g.fits(),
        i < g.cells(),
    ensures
        xy.0 == x_of(g.chunks_x as int, i as int),
        xy.1 == y_of(g.chunks_x as int, i as int),
        0 <= xy.0 < 32 * g.chunks_x,
        0 <= xy.1 < 32 * g.chunks_y,
{
    proof {
        lemma_nonempty(g.chunks_x as int, g.chunks_y as int, i as int);
        lemma_xy_of(g.chunks_x as int, g.chunks_y as int, i as int);
    }
    let q: usize = i / CHUNK_AREA;
    let local: usize = i % CHUNK_AREA;
    let chunks_x: usize = g.chunks_x as usize;
    let cx: usize = q % chunks_x;
    let cy: usize = q / chunks_x;
    let x: i32 = cx as i32 * 32 + (local % 32) as i32;
    let y: i32 = cy as i32 * 32 + (local / 32) as i32;
    (x, y)
}

/// Linear index of the cell one step of `(dx, dy)` away from cell `i`.
pub fn neighbor(g: Grid, i: usize, dx: i32, dy: i32) -> (j: Option<usize>)
    requires
        g.fits(),
        i < g.cells(),
        -1 <= dx <= 1,
        -1 <= dy <= 1,
    ensures
        match j {
            Some(n) => nbr(g, i as int, dx as int, dy as int) == Some(n as int) && n < g.cells(),
            None => nbr(g, i as int, dx as int, dy as int) is None,
        },
{
    let (x, y) = coords(g, i);
    let max_x: i32 = (g.chunks_x * 32) as i32;
    let max_y: i32 = (g.chunks_y * 32) as i32;
    proof {
        reveal(nbr);
        lemma_nbr_in_world(g, i as int, dx as int, dy as int);
    }
    let nx = match in_bounds(x + dx, max_x, g.wrap) {
        Some(n) => n,
        None => {
            return None;
        },
    };
    let ny = match in_bounds(y + dy, max_y, g.wrap) {
        Some(n) => n,
        None => {
            return None;
        },
    };
    proof {
        lemma_idx_of(g.chunks_x as int, g.chunks_y as int, nx as int, ny as int);
    }
    Some(linear_idx(g.chunks_x, nx, ny))
}

/// The neighbour of a cell in a direction.
pub fn neighbor_in(g: Grid, i: usize, dir: Direction) -> (j: Option<usize>)
    requires
        g.fits(),
        i < g.cells(),
    ensures
        match j {
            Some(n) => nbr_dir(g, i as int, dir) == Some(n as int) && n < g.cells(),
            None => nbr_dir(g, i as int, dir) is None,
        },
{
    let (dx, dy) = direction_to_delta(dir);
    neighbor(g, i, dx, dy)
}

/// The cell next to cell `i` in a direction, if there is one.
pub open spec fn cell_towards(g: Grid, w: Seq<CellView>, i: int, d: Direction) -> Option<CellView> {
    match nbr_dir(g, i, d) {
        Some(q) => Some(w[q]),
        None => None,
    }
}

/// The cell next to cell `i` in a direction.
pub fn neighbor_cell(chunks: &Vec<Chunk>, g: Grid, i: usize, dir: Direction) -> (cell: Option<&Cell>)
    requires
        shaped(chunks@, g),
        i < g.cells(),
    ensures
        match cell {
            Some(c) => cell_towards(g, world_of(chunks@), i as int, dir) == Some(c@),
            None => cell_towards(g, world_of(chunks@), i as int, dir) is None,
        },
{
    match neighbor_in(g, i, dir) {
        Some(q) => Some(cell_ref(chunks, g, q)),
        None => None,
    }
}

/// A step leads to the next cell in one of the four directions, north up and east to the
/// right, where rows are counted from the top; a turn to the right turns it clockwise.
pub proof fn lemma_steps_on_screen(d: Direction)
    ensures
        d == Direction::North ==> dx_of(d) == 0 && dy_of(d) == -1,
        d == Direction::East ==> dx_of(d) == 1 && dy_of(d) == 0,
        dx_of(right_of(d)) == -dy_of(d),
        dy_of(right_of(d)) == dx_of(d),
        dx_of(left_of(d)) == dy_of(d),
        dy_of(left_of(d)) == -dx_of(d),
{
}

/// Cells are numbered chunk by chunk, and row by row within a chunk.
pub proof fn lemma_cells_are_packed(chunks_x: int, cx: int, cy: int, column: int, row: int)
    requires
        0 <= column < 32,
        0 <= row < 32,
    ensures
        idx_of(chunks_x, 32 * cx + column, 32 * cy + row) == 1024 * (cy * chunks_x + cx) + 32 * row
            + column,
{
    assert((32 * cy + row) / 32 == cy && (32 * cx + column) / 32 == cx);
    assert((32 * cy + row) % 32 == row && (32 * cx + column) % 32 == column);
}

} // verus!
