//! What the viewer hands to the GPU.
use vstd::prelude::*;
use std::collections::HashMap;
use crate::grid::{dx_of, dy_of, has_dir};
use crate::protocol::{told_owner, ChunkCoord, Direction, WireCell, WireChunk, WireOccupant, STEM_CONNECT_EAST};
use crate::protocol::{STEM_CONNECT_NORTH, STEM_CONNECT_SOUTH, STEM_CONNECT_WEST};
use crate::sim::stem::{lemma_mask_from, mask_from, mask_from_flags};

verus! {

pub const GPU_KIND_EMPTY: u32 = 0;

pub const GPU_KIND_LEAF: u32 = 1;

pub const GPU_KIND_ROOT: u32 = 2;

pub const GPU_KIND_STEM: u32 = 3;

pub const GPU_KIND_ANTENNA: u32 = 4;

pub const GPU_KIND_SPROUT: u32 = 5;

pub const GPU_KIND_SEED: u32 = 6;

/// A cell as the shader reads it. The mutation rate is a fixed-point number.
#[derive(Clone, Copy, Debug, PartialEq, Eq, Structural)]
pub struct GpuCell {
    pub organic: u32,
    pub soil_energy: u32,
    pub sunlit: u32,
    pub kind: u32,
    pub plant: u32,
    pub energy: u32,
    pub facing: u32,
    pub connections: u32,
    pub clan: u32,
    pub mutation_rate: u32,
}

/// The number of a direction in the shader.
pub open spec fn facing_code(d: Direction) -> u32 {
    match d {
        Direction::North => 0,
        Direction::East => 1,
        Direction::South => 2,
        Direction::West => 3,
    }
}

/// The number of a direction for the shader.
pub fn facing_to_u32(d: Direction) -> (code: u32)
    ensures
        code == facing_code(d),
{
    match d {
        Direction::North => 0,
        Direction::East => 1,
        Direction::South => 2,
        Direction::West => 3,
    }
}

/// A cell for the shader. Fields that an occupant does not have are 0.
pub open spec fn gpu_cell(cell: WireCell) -> GpuCell {
    let base = GpuCell {
        organic: cell.organic as u32,
        soil_energy: cell.soil_energy as u32,
        sunlit: if cell.sunlit {
            1
        } else {
            0
        },
        kind: GPU_KIND_EMPTY,
        plant: 0,
        energy: 0,
        facing: 0,
        connections: 0,
        clan: 0,
        mutation_rate: cell.lineage_mutation_rate,
    };
    match cell.occupant {
        WireOccupant::Empty => base,
        WireOccupant::Leaf { plant, clan, energy, facing, .. } => GpuCell {
            kind: GPU_KIND_LEAF,
            plant,
            clan: clan as u32,
            energy: energy as u32,
            facing: facing_code(facing),
            ..base
        },
        WireOccupant::Root { plant, clan, energy, .. } => GpuCell {
            kind: GPU_KIND_ROOT,
            plant,
            clan: clan as u32,
            energy: energy as u32,
            ..base
        },
        WireOccupant::Stem { plant, clan, energy, connections, .. } => GpuCell {
            kind: GPU_KIND_STEM,
            plant,
            clan: clan as u32,
            energy: energy as u32,
            connections: connections as u32,
            ..base
        },
        WireOccupant::Antenna { plant, clan, energy, .. } => GpuCell {
            kind: GPU_KIND_ANTENNA,
            plant,
            clan: clan as u32,
            energy: energy as u32,
            ..base
        },
        WireOccupant::Sprout { plant, clan, energy, facing, .. } => GpuCell {
            kind: GPU_KIND_SPROUT,
            plant,
            clan: clan as u32,
            energy: energy as u32,
            facing: facing_code(facing),
            ..base
        },
        WireOccupant::Seed { plant, clan, energy, facing, .. } => GpuCell {
            kind: GPU_KIND_SEED,
            plant,
            clan: clan as u32,
            energy: energy as u32,
            facing: facing_code(facing),
            ..base
        },
    }
}

/// The form of a cell for the GPU.
pub fn to_gpu_cell(cell: &WireCell) -> (gpu: GpuCell)
    ensures
        gpu == gpu_cell(*cell),
{
    let base = GpuCell {
        organic: cell.organic as u32,
        soil_energy: cell.soil_energy as u32,
        sunlit: if cell.sunlit {
            1
        } else {
            0
        },
        kind: GPU_KIND_EMPTY,
        plant: 0,
        energy: 0,
        facing: 0,
        connections: 0,
        clan: 0,
        mutation_rate: cell.lineage_mutation_rate,
    };
    match &cell.occupant {
        WireOccupant::Empty => base,
        WireOccupant::Leaf { plant, clan, energy, facing, .. } => GpuCell {
            kind: GPU_KIND_LEAF,
            plant: *plant,
            clan: *clan as u32,
            energy: *energy as u32,
            facing: facing_to_u32(*facing),
            ..base
        },
        WireOccupant::Root { plant, clan, energy, .. } => GpuCell {
            kind: GPU_KIND_ROOT,
            plant: *plant,
            clan: *clan as u32,
            energy: *energy as u32,
            ..base
        },
        WireOccupant::Stem { plant, clan, energy, connections, .. } => GpuCell {
            kind: GPU_KIND_STEM,
            plant: *plant,
            clan: *clan as u32,
            energy: *energy as u32,
            connections: *connections as u32,
            ..base
        },
        WireOccupant::Antenna { plant, clan, energy, .. } => GpuCell {
            kind: GPU_KIND_ANTENNA,
            plant: *plant,
            clan: *clan as u32,
            energy: *energy as u32,
            ..base
        },
        WireOccupant::Sprout { plant, clan, energy, facing, .. } => GpuCell {
            kind: GPU_KIND_SPROUT,
            plant: *plant,
            clan: *clan as u32,
            energy: *energy as u32,
            facing: facing_to_u32(*facing),
            ..base
        },
        WireOccupant::Seed { plant, clan, energy, facing, .. } => GpuCell {
            kind: GPU_KIND_SEED,
            plant: *plant,
            clan: *clan as u32,
            energy: *energy as u32,
            facing: facing_to_u32(*facing),
            ..base
        },
    }
}

// ---------------------------------------------------------------------------
// Finding cells among chunks
// ---------------------------------------------------------------------------
/// Index of the last of the first `m` chunks at chunk coordinates `(cx, cy)`.
pub open spec fn last_chunk_at(chunks: Seq<WireChunk>, cx: int, cy: int, m: nat) -> Option<int>
    decreases m,
{
    if m == 0 {
        None
    } else if chunks[m - 1].coord.x == cx && chunks[m - 1].coord.y == cy {
        Some(m - 1)
    } else {
        last_chunk_at(chunks, cx, cy, (m - 1) as nat)
    }
}

/// Index of the first chunk, from the `from`-th on, at chunk coordinates `(cx, cy)`.
pub open spec fn first_chunk_at(chunks: Seq<WireChunk>, cx: int, cy: int, from: int) -> Option<int>
    decreases chunks.len() - from,
{
    if from < 0 || from >= chunks.len() {
        None
    } else if chunks[from].coord.x == cx && chunks[from].coord.y == cy {
        Some(from)
    } else {
        first_chunk_at(chunks, cx, cy, from + 1)
    }
}

/// Position inside its chunk of the cell at world coordinates `(x, y)`.
pub open spec fn local_idx(x: int, y: int) -> int {
    (y % 32) * 32 + x % 32
}

/// An index of chunks by their coordinates.
pub struct ChunkLookup {
    map: HashMap<u64, usize>,
}

/// Chunk coordinates as one number.
spec fn packed(cx: int, cy: int) -> u64 {
    ((cx + 0x8000_0000) * 0x1_0000_0000 + (cy + 0x8000_0000)) as u64
}

spec fn in_i32(c: int) -> bool {
    -0x8000_0000 <= c < 0x8000_0000
}

impl ChunkLookup {
    /// Index of the chunk at chunk coordinates.
    pub closed spec fn entry(&self, cx: int, cy: int) -> Option<int> {
        if in_i32(cx) && in_i32(cy) && self.map@.contains_key(packed(cx, cy)) {
            Some(self.map@[packed(cx, cy)] as int)
        } else {
            None
        }
    }

    /// Whether the lookup knows some chunks: the last of those at the same
    /// coordinates.
    pub open spec fn indexes(&self, chunks: Seq<WireChunk>) -> bool {
        forall|cx: int, cy: int| #[trigger]
            self.entry(cx, cy) == last_chunk_at(chunks, cx, cy, chunks.len())
    }

    fn key(x: i32, y: i32) -> (k: u64)
        ensures
            k == packed(x as int, y as int),
    {
        let ux: u64 = (x as i64 + 0x8000_0000) as u64;
        let uy: u64 = (y as i64 + 0x8000_0000) as u64;
        ux * 0x1_0000_0000 + uy
    }

    /// Index some chunks.
    pub fn of(chunks: &Vec<WireChunk>) -> (lookup: ChunkLookup)
        ensures
            lookup.indexes(chunks@),
    {
        broadcast use vstd::std_specs::hash::group_hash_axioms;

        let mut lookup = ChunkLookup { map: HashMap::new() };
        let mut c: usize = 0;
        while c < chunks.len()
            invariant
                c <= chunks.len(),
                forall|cx: int, cy: int| #[trigger]
                    lookup.entry(cx, cy) == last_chunk_at(chunks@, cx, cy, c as nat),
            decreases chunks.len() - c,
        {
            broadcast use vstd::std_specs::hash::group_hash_axioms;

            let coord = chunks[c].coord;
            let ghost before = lookup;
            let k: u64 = ChunkLookup::key(coord.x, coord.y);
            lookup.map.insert(k, c);
            proof {
                assert forall|cx: int, cy: int| #[trigger]
                    lookup.entry(cx, cy) == last_chunk_at(chunks@, cx, cy, (c + 1) as nat) by {
                    assert(before.entry(cx, cy) == last_chunk_at(chunks@, cx, cy, c as nat));
                    if in_i32(cx) && in_i32(cy) && packed(cx, cy) == k {
                        assert(cx == coord.x && cy == coord.y);
                    }
                }
            }
            c = c + 1;
        }
        lookup
    }

    fn get(&self, cx: i64, cy: i64) -> (idx: Option<usize>)
        ensures
            match idx {
                Some(c) => self.entry(cx as int, cy as int) == Some(c as int),
                None => self.entry(cx as int, cy as int) is None,
            },
    {
        broadcast use vstd::std_specs::hash::group_hash_axioms;

        if cx < -0x8000_0000 || cx >= 0x8000_0000 || cy < -0x8000_0000 || cy >= 0x8000_0000 {
            return None;
        }
        let k: u64 = ChunkLookup::key(cx as i32, cy as i32);
        match self.map.get(&k) {
            Some(c) => Some(*c),
            None => None,
        }
    }
}

/// Whether something stands at world coordinates `(wx, wy)`.
pub open spec fn present(chunks: Seq<WireChunk>, wx: int, wy: int) -> bool {
    match last_chunk_at(chunks, wx / 32, wy / 32, chunks.len()) {
        Some(c) => local_idx(wx, wy) < chunks[c].cells.len() && !(chunks[c].cells@[local_idx(
            wx,
            wy,
        )].occupant is Empty),
        None => false,
    }
}

proof fn lemma_last_chunk_at(chunks: Seq<WireChunk>, cx: int, cy: int, m: nat)
    requires
        m <= chunks.len(),
    ensures
        last_chunk_at(chunks, cx, cy, m) matches Some(c) ==> 0 <= c < m,
    decreases m,
{
    if m > 0 {
        lemma_last_chunk_at(chunks, cx, cy, (m - 1) as nat);
    }
}

fn floor32(c: i64) -> (q: i64)
    ensures
        q == c as int / 32,
{
    match c.checked_div_euclid(32) {
        Some(q) => q,
        None => 0,
    }
}

fn rem32(c: i64) -> (r: usize)
    ensures
        r == c as int % 32,
{
    match c.checked_rem_euclid(32) {
        Some(r) => r as usize,
        None => 0,
    }
}

/// Whether something stands at world coordinates; unknown chunks are empty.
pub fn neighbor_present(chunks: &Vec<WireChunk>, lookup: &ChunkLookup, wx: i64, wy: i64) -> (yes: bool)
    requires
        lookup.indexes(chunks@),
    ensures
        yes == present(chunks@, wx as int, wy as int),
{
    let cx: i64 = floor32(wx);
    let cy: i64 = floor32(wy);
    let k: usize = rem32(wy) * 32 + rem32(wx);
    proof {
        lemma_last_chunk_at(chunks@, cx as int, cy as int, chunks.len() as nat);
        assert(lookup.entry(cx as int, cy as int) == last_chunk_at(
            chunks@,
            cx as int,
            cy as int,
            chunks.len() as nat,
        ));
    }
    match lookup.get(cx, cy) {
        Some(c) => {
            if k < chunks[c].cells.len() {
                match &chunks[c].cells[k].occupant {
                    WireOccupant::Empty => false,
                    _ => true,
                }
            } else {
                false
            }
        },
        None => false,
    }
}

/// Whether a stem at `(wx, wy)` is drawn connected in a direction.
pub open spec fn drawn_link(raw: u8, chunks: Seq<WireChunk>, wx: int, wy: int, d: Direction) -> bool {
    has_dir(raw, d) && present(chunks, wx + dx_of(d), wy + dy_of(d))
}

/// The links of a stem at `(wx, wy)` that lead to something.
pub open spec fn drawn_links(raw: u8, chunks: Seq<WireChunk>, wx: int, wy: int) -> u8 {
    mask_from(
        drawn_link(raw, chunks, wx, wy, Direction::North),
        drawn_link(raw, chunks, wx, wy, Direction::East),
        drawn_link(raw, chunks, wx, wy, Direction::South),
        drawn_link(raw, chunks, wx, wy, Direction::West),
    )
}

/// Mask out the links of a stem that lead to empty cells.
pub fn effective_stem_connections(
    raw: u8,
    chunks: &Vec<WireChunk>,
    lookup: &ChunkLookup,
    wx: i64,
    wy: i64,
) -> (links: u32)
    requires
        lookup.indexes(chunks@),
        i64::MIN < wx < i64::MAX,
        i64::MIN < wy < i64::MAX,
    ensures
        links == drawn_links(raw, chunks@, wx as int, wy as int),
{
    let north = raw & STEM_CONNECT_NORTH != 0 && neighbor_present(chunks, lookup, wx, wy - 1);
    let east = raw & STEM_CONNECT_EAST != 0 && neighbor_present(chunks, lookup, wx + 1, wy);
    let south = raw & STEM_CONNECT_SOUTH != 0 && neighbor_present(chunks, lookup, wx, wy + 1);
    let west = raw & STEM_CONNECT_WEST != 0 && neighbor_present(chunks, lookup, wx - 1, wy);
    mask_from_flags(north, east, south, west) as u32
}

/// What the shader reads for cell `k` of chunk `c`.
pub open spec fn drawn_cell(chunks: Seq<WireChunk>, c: int, k: int) -> GpuCell {
    let cell = chunks[c].cells@[k];
    let wx = chunks[c].coord.x * 32 + k % 32;
    let wy = chunks[c].coord.y * 32 + k / 32;
    match cell.occupant {
        WireOccupant::Stem { connections, .. } => GpuCell {
            connections: drawn_links(connections, chunks, wx, wy) as u32,
            ..gpu_cell(cell)
        },
        _ => gpu_cell(cell),
    }
}

/// What the shader reads for the first `m` cells of chunk `c`.
pub open spec fn drawn_chunk(chunks: Seq<WireChunk>, c: int, m: nat) -> Seq<GpuCell> {
    Seq::new(m, |k: int| drawn_cell(chunks, c, k))
}

/// What the shader reads for the first `m` chunks.
pub open spec fn drawn_chunks(chunks: Seq<WireChunk>, m: nat) -> Seq<GpuCell>
    decreases m,
{
    if m == 0 {
        Seq::empty()
    } else {
        drawn_chunks(chunks, (m - 1) as nat) + drawn_chunk(
            chunks,
            m - 1,
            chunks[m - 1].cells.len() as nat,
        )
    }
}

/// The cells of all chunks for the shader, chunk after chunk.
pub fn gpu_cells(chunks: &Vec<WireChunk>) -> (cells: Vec<GpuCell>)
    ensures
        cells@ == drawn_chunks(chunks@, chunks.len() as nat),
{
    let lookup = ChunkLookup::of(chunks);
    let mut cells: Vec<GpuCell> = Vec::new();
    let mut c: usize = 0;
    while c < chunks.len()
        invariant
            c <= chunks.len(),
            lookup.indexes(chunks@),
            cells@ == drawn_chunks(chunks@, c as nat),
        decreases chunks.len() - c,
    {
        let chunk = &chunks[c];
        let mut k: usize = 0;
        let mut column: i64 = 0;
        let mut row: i64 = 0;
        assert(cells@ =~= drawn_chunks(chunks@, c as nat) + drawn_chunk(chunks@, c as int, 0));
        while k < chunk.cells.len()
            invariant
                c < chunks.len(),
                *chunk == chunks@[c as int],
                k <= chunk.cells.len(),
                lookup.indexes(chunks@),
                column == k as int % 32,
                row == k as int / 32,
                cells@ == drawn_chunks(chunks@, c as nat) + drawn_chunk(
                    chunks@,
                    c as int,
                    k as nat,
                ),
            decreases chunk.cells.len() - k,
        {
            let cell = &chunk.cells[k];
            let mut gpu = to_gpu_cell(cell);
            if let WireOccupant::Stem { connections, .. } = &cell.occupant {
                let wx: i64 = chunk.coord.x as i64 * 32 + column;
                let wy: i64 = chunk.coord.y as i64 * 32 + row;
                gpu.connections = effective_stem_connections(*connections, chunks, &lookup, wx, wy);
            }
            cells.push(gpu);
            assert(cells@ =~= drawn_chunks(chunks@, c as nat) + drawn_chunk(
                chunks@,
                c as int,
                (k + 1) as nat,
            ));
            if column == 31 {
                column = 0;
                row = row + 1;
            } else {
                column = column + 1;
            }
            k = k + 1;
        }
        c = c + 1;
    }
    cells
}

/// The chunk and cell at world coordinates.
pub fn find_cell(chunks: &Vec<WireChunk>, x: i32, y: i32) -> (found: Option<(ChunkCoord, &WireCell)>)
    ensures
        match first_chunk_at(chunks@, x as int / 32, y as int / 32, 0) {
            Some(c) => if local_idx(x as int, y as int) < chunks@[c].cells.len() {
                found == Some(
                    (
                        chunks@[c].coord,
                        &chunks@[c].cells@[local_idx(x as int, y as int)],
                    ),
                )
            } else {
                found is None
            },
            None => found is None,
        },
{
    let cx: i64 = floor32(x as i64);
    let cy: i64 = floor32(y as i64);
    let k: usize = rem32(y as i64) * 32 + rem32(x as i64);
    let mut c: usize = 0;
    while c < chunks.len()
        invariant
            c <= chunks.len(),
            cx == x as int / 32,
            cy == y as int / 32,
            k == local_idx(x as int, y as int),
            first_chunk_at(chunks@, cx as int, cy as int, 0) == first_chunk_at(
                chunks@,
                cx as int,
                cy as int,
                c as int,
            ),
        decreases chunks.len() - c,
    {
        let chunk = &chunks[c];
        if chunk.coord.x as i64 == cx && chunk.coord.y as i64 == cy {
            if k < chunk.cells.len() {
                return Some((chunk.coord, &chunk.cells[k]));
            } else {
                return None;
            }
        }
        c = c + 1;
    }
    None
}

// ---------------------------------------------------------------------------
// What the shader is told
// ---------------------------------------------------------------------------
/// The shader is told the soil, the light and the rate of a cell as they are, and of its
/// occupant the kind, the plant, the clan, the energy and, where it has one, the facing.
pub proof fn lemma_the_shader_is_told(cell: WireCell)
    ensures
        ({
            let gpu = gpu_cell(cell);
            let occ = cell.occupant;
            &&& gpu.organic == cell.organic
            &&& gpu.soil_energy == cell.soil_energy
            &&& gpu.sunlit == (if cell.sunlit {
                1u32
            } else {
                0
            })
            &&& gpu.mutation_rate == cell.lineage_mutation_rate
            &&& (gpu.kind == 0) == (occ is Empty)
            &&& (gpu.kind == 1) == (occ is Leaf)
            &&& (gpu.kind == 2) == (occ is Root)
            &&& (gpu.kind == 3) == (occ is Stem)
            &&& (gpu.kind == 4) == (occ is Antenna)
            &&& (gpu.kind == 5) == (occ is Sprout)
            &&& (gpu.kind == 6) == (occ is Seed)
            &&& told_owner(occ) matches Some((plant, clan, energy)) ==> gpu.plant == plant && gpu.clan
                == clan && gpu.energy == energy
            &&& occ matches WireOccupant::Leaf { facing, .. } ==> gpu.facing == clockwise(facing)
            &&& occ matches WireOccupant::Sprout { facing, .. } ==> gpu.facing == clockwise(facing)
            &&& occ matches WireOccupant::Seed { facing, .. } ==> gpu.facing == clockwise(facing)
            &&& occ matches WireOccupant::Stem { connections, .. } ==> gpu.connections == connections
        }),
{
}

/// The quarter turns to the right from north to a direction.
pub open spec fn clockwise(d: Direction) -> int {
    if d == Direction::North {
        0
    } else if d == Direction::East {
        1
    } else if d == Direction::South {
        2
    } else {
        3
    }
}

/// A link of a stem is drawn exactly if the stem has it and something stands where it leads.
pub proof fn lemma_links_lead_to_something(raw: u8, chunks: Seq<WireChunk>, wx: int, wy: int)
    ensures
        has_dir(drawn_links(raw, chunks, wx, wy), Direction::North) == (has_dir(raw, Direction::North)
            && present(chunks, wx, wy - 1)),
        has_dir(drawn_links(raw, chunks, wx, wy), Direction::East) == (has_dir(raw, Direction::East)
            && present(chunks, wx + 1, wy)),
        has_dir(drawn_links(raw, chunks, wx, wy), Direction::South) == (has_dir(raw, Direction::South)
            && present(chunks, wx, wy + 1)),
        has_dir(drawn_links(raw, chunks, wx, wy), Direction::West) == (has_dir(raw, Direction::West)
            && present(chunks, wx - 1, wy)),
{
    lemma_mask_from(
        drawn_link(raw, chunks, wx, wy, Direction::North),
        drawn_link(raw, chunks, wx, wy, Direction::East),
        drawn_link(raw, chunks, wx, wy, Direction::South),
        drawn_link(raw, chunks, wx, wy, Direction::West),
    );
}

/// Something stands at the place of cell `k` of chunk `c` exactly if that cell is occupied,
/// unless a later chunk has the same coordinates; and a cell is found by its place, unless an
/// earlier chunk has the same coordinates.
pub proof fn lemma_cells_are_found_by_their_place(chunks: Seq<WireChunk>, c: int, column: int, row: int)
    requires
        0 <= c < chunks.len(),
        0 <= column < 32,
        0 <= row < 32,
        32 * row + column < chunks[c].cells.len(),
    ensures
        ({
            let wx = 32 * chunks[c].coord.x + column;
            let wy = 32 * chunks[c].coord.y + row;
            &&& wx / 32 == chunks[c].coord.x && wy / 32 == chunks[c].coord.y
            &&& local_idx(wx, wy) == 32 * row + column
            &&& (forall|d: int|
                c < d < chunks.len() ==> (#[trigger] chunks[d]).coord != chunks[c].coord) ==> present(
                chunks,
                wx,
                wy,
            ) == !(chunks[c].cells@[32 * row + column].occupant is Empty)
            &&& (forall|d: int|
                0 <= d < c ==> (#[trigger] chunks[d]).coord != chunks[c].coord) ==> first_chunk_at(
                chunks,
                wx / 32,
                wy / 32,
                0,
            ) == Some(c)
        }),
{
    let cx = chunks[c].coord.x as int;
    let cy = chunks[c].coord.y as int;
    if forall|d: int| c < d < chunks.len() ==> (#[trigger] chunks[d]).coord != chunks[c].coord {
        lemma_last_is(chunks, c, chunks.len());
    }
    if forall|d: int| 0 <= d < c ==> (#[trigger] chunks[d]).coord != chunks[c].coord {
        lemma_first_is(chunks, c, 0);
    }
}

proof fn lemma_last_is(chunks: Seq<WireChunk>, c: int, m: nat)
    requires
        0 <= c < m <= chunks.len(),
        forall|d: int| c < d < chunks.len() ==> (#[trigger] chunks[d]).coord != chunks[c].coord,
    ensures
        last_chunk_at(chunks, chunks[c].coord.x as int, chunks[c].coord.y as int, m) == Some(c),
    decreases m,
{
    if m - 1 > c {
        assert(chunks[m - 1].coord != chunks[c].coord);
        lemma_last_is(chunks, c, (m - 1) as nat);
    }
}

proof fn lemma_first_is(chunks: Seq<WireChunk>, c: int, from: int)
    requires
        0 <= from <= c < chunks.len(),
        forall|d: int| 0 <= d < c ==> (#[trigger] chunks[d]).coord != chunks[c].coord,
    ensures
        first_chunk_at(chunks, chunks[c].coord.x as int, chunks[c].coord.y as int, from) == Some(c),
    decreases c - from,
{
    if from < c {
        assert(chunks[from].coord != chunks[c].coord);
        lemma_first_is(chunks, c, from + 1);
    }
}

/// Nothing stands where no chunk lies.
pub proof fn lemma_nothing_outside_the_chunks(chunks: Seq<WireChunk>, wx: int, wy: int)
    requires
        forall|c: int|
            0 <= c < chunks.len() ==> (#[trigger] chunks[c]).coord.x != wx / 32 || chunks[c].coord.y
                != wy / 32,
    ensures
        !present(chunks, wx, wy),
        first_chunk_at(chunks, wx / 32, wy / 32, 0) is None,
{
    lemma_none_at(chunks, wx / 32, wy / 32, chunks.len());
    lemma_none_from(chunks, wx / 32, wy / 32, 0);
}

proof fn lemma_none_at(chunks: Seq<WireChunk>, cx: int, cy: int, m: nat)
    requires
        m <= chunks.len(),
        forall|c: int|
            0 <= c < chunks.len() ==> (#[trigger] chunks[c]).coord.x != cx || chunks[c].coord.y != cy,
    ensures
        last_chunk_at(chunks, cx, cy, m) is None,
    decreases m,
{
    if m > 0 {
        assert(chunks[m - 1].coord.x != cx || chunks[m - 1].coord.y != cy);
        lemma_none_at(chunks, cx, cy, (m - 1) as nat);
    }
}

proof fn lemma_none_from(chunks: Seq<WireChunk>, cx: int, cy: int, from: int)
    requires
        0 <= from,
        forall|c: int|
            0 <= c < chunks.len() ==> (#[trigger] chunks[c]).coord.x != cx || chunks[c].coord.y != cy,
    ensures
        first_chunk_at(chunks, cx, cy, from) is None,
    decreases chunks.len() - from,
{
    if from < chunks.len() {
        assert(chunks[from].coord.x != cx || chunks[from].coord.y != cy);
        lemma_none_from(chunks, cx, cy, from + 1);
    }
}

/// Whole chunks follow one another: cell `k` of chunk `c` is handed over in its place, as it
/// is, but with those links of a stem that lead to something.
pub proof fn lemma_cells_are_handed_over_in_place(chunks: Seq<WireChunk>, c: int, k: int)
    requires
        forall|d: int| 0 <= d < chunks.len() ==> (#[trigger] chunks[d]).cells.len() == 1024,
        0 <= c < chunks.len(),
        0 <= k < 1024,
    ensures
        ({
            let all = drawn_chunks(chunks, chunks.len());
            let cell = chunks[c].cells@[k];
            let plain = gpu_cell(cell);
            let wx = 32 * chunks[c].coord.x + k % 32;
            let wy = 32 * chunks[c].coord.y + k / 32;
            &&& all.len() == 1024 * chunks.len()
            &&& !(cell.occupant is Stem) ==> all[1024 * c + k] == plain
            &&& cell.occupant matches WireOccupant::Stem { connections, .. } ==> all[1024 * c + k] == (
            GpuCell { connections: drawn_links(connections, chunks, wx, wy) as u32, ..plain })
        }),
{
    lemma_drawn_at(chunks, c, k, chunks.len());
}

proof fn lemma_drawn_at(chunks: Seq<WireChunk>, c: int, k: int, m: nat)
    requires
        m <= chunks.len(),
        forall|d: int| 0 <= d < chunks.len() ==> (#[trigger] chunks[d]).cells.len() == 1024,
        0 <= c,
        0 <= k < 1024,
    ensures
        drawn_chunks(chunks, m).len() == 1024 * m,
        c < m ==> drawn_chunks(chunks, m)[1024 * c + k] == drawn_cell(chunks, c, k),
    decreases m,
{
    if m > 0 {
        lemma_drawn_at(chunks, c, k, (m - 1) as nat);
        assert(chunks[m - 1].cells.len() == 1024);
    }
}

} // verus!
