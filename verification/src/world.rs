//! Building worlds and planting their first sprouts.
use vstd::prelude::*;
use crate::genome::{lemma_copy_stays_in_bounds, mutate_genome, mutated, permitted};
use crate::grid::{cell_count, cell_mut, cell_ref, idx_of, lemma_idx_of, lemma_world_len, linear_idx};
use crate::grid::{same_layout, shaped, world_of, x_of, y_of, Grid};
use crate::protocol::{default_vine_view, Cell, CellView, Chunk, ChunkCoord, ClanId, Direction, Genome};
use crate::protocol::{GenomeView, Occupant, OccupantView, PlantId, WorldGenParams, CHUNK_AREA};
use crate::protocol::{DEFAULT_MUTATION_RATE, MUTATION_RATE_MAX, MUTATION_RATE_MIN};
use crate::rng::{RngView, SimRng};

verus! {

// ---------------------------------------------------------------------------
// Fresh worlds
// ---------------------------------------------------------------------------
/// Edge of a box when `cells` cells are divided among `boxes` boxes.
pub open spec fn box_edge(cells: int, boxes: u32) -> int {
    let n: int = if boxes == 0 {
        1
    } else {
        boxes as int
    };
    if cells / n < 1 {
        1
    } else {
        cells / n
    }
}

/// Whether a position inside a box of edge `edge` keeps `margin` cells away from
/// both of its edges.
pub open spec fn inside_margin(pos: int, edge: int, margin: u32) -> bool {
    margin <= pos && pos < edge - margin
}

/// A cell of a freshly built world. Light falls on a central rectangle of each
/// box, and a toxic border rings it.
pub open spec fn fresh_cell(params: WorldGenParams, x: int, y: int) -> CellView {
    let edge_x = box_edge(32 * params.chunks_x, params.boxes_x);
    let edge_y = box_edge(32 * params.chunks_y, params.boxes_y);
    let bx = x % edge_x;
    let by = y % edge_y;
    let t = params.toxic_border_thickness;
    let toxic = !(inside_margin(bx, edge_x, t) && inside_margin(by, edge_y, t));
    CellView {
        organic: if toxic {
            params.toxic_border_organic
        } else {
            params.default_organic
        },
        soil_energy: params.default_soil_energy,
        sunlit: inside_margin(bx, edge_x, params.sunlit_margin_x) && inside_margin(
            by,
            edge_y,
            params.sunlit_margin_y,
        ),
        lineage_mutation_rate: 0,
        occupant: OccupantView::Empty,
    }
}

/// The grid of a world that is built with some parameters.
pub open spec fn grid_of(params: WorldGenParams, wrap: bool) -> Grid {
    Grid { chunks_x: params.chunks_x, chunks_y: params.chunks_y, wrap }
}

/// Parameters of a world whose coordinates, indices and chunk count fit their
/// types.
pub open spec fn buildable(params: WorldGenParams) -> bool {
    &&& grid_of(params, false).fits()
    &&& params.chunks_x * params.chunks_y <= u32::MAX
}

/// Parameters of a world that can also be planted.
pub open spec fn plantable(params: WorldGenParams) -> bool {
    &&& buildable(params)
    &&& params.boxes_x <= i32::MAX
    &&& params.boxes_y <= i32::MAX
    &&& params.sprout_grid_spacing <= i32::MAX
}

/// Whether a world can be built and planted with some parameters.
pub fn is_plantable(params: &WorldGenParams) -> (yes: bool)
    ensures
        yes == plantable(*params),
{
    let x: u64 = params.chunks_x as u64;
    let y: u64 = params.chunks_y as u64;
    if x * 32 > 0x7FFF_FFFF || y * 32 > 0x7FFF_FFFF {
        return false;
    }
    assert(0 <= x * y * 1024 <= 0x3FF_FFFF * 0x3FF_FFFF * 1024 && 0 <= x * y <= x * y * 1024)
        by (nonlinear_arith)
        requires
            0 <= x <= 0x3FF_FFFF,
            0 <= y <= 0x3FF_FFFF,
    ;
    let chunks: u64 = x * y;
    chunks <= 0xFFFF_FFFF && chunks * 1024 <= usize::MAX as u64 && params.boxes_x <= 0x7FFF_FFFF
        && params.boxes_y <= 0x7FFF_FFFF && params.sprout_grid_spacing <= 0x7FFF_FFFF
}

fn box_side(cells: u32, boxes: u32) -> (edge: u32)
    ensures
        edge == box_edge(cells as int, boxes),
        edge >= 1,
{
    let n: u32 = if boxes == 0 {
        1
    } else {
        boxes
    };
    let edge: u32 = cells / n;
    if edge < 1 {
        1
    } else {
        edge
    }
}

/// Edges of the boxes of a world, in cells.
pub fn box_edges(params: &WorldGenParams) -> (edges: (u32, u32))
    requires
        32 * params.chunks_x <= u32::MAX,
        32 * params.chunks_y <= u32::MAX,
    ensures
        edges.0 == box_edge(32 * params.chunks_x, params.boxes_x),
        edges.1 == box_edge(32 * params.chunks_y, params.boxes_y),
        edges.0 >= 1,
        edges.1 >= 1,
{
    (box_side(params.chunks_x * 32, params.boxes_x), box_side(params.chunks_y * 32, params.boxes_y))
}

fn within(pos: u32, edge: u32, margin: u32) -> (yes: bool)
    ensures
        yes == inside_margin(pos as int, edge as int, margin),
{
    margin <= pos && margin <= edge && pos < edge - margin
}

fn make_cell(params: &WorldGenParams, x: u32, y: u32) -> (cell: Cell)
    requires
        32 * params.chunks_x <= u32::MAX,
        32 * params.chunks_y <= u32::MAX,
    ensures
        cell@ == fresh_cell(*params, x as int, y as int),
{
    let (edge_x, edge_y) = box_edges(params);
    let bx: u32 = x % edge_x;
    let by: u32 = y % edge_y;
    let sunlit = within(bx, edge_x, params.sunlit_margin_x) && within(
        by,
        edge_y,
        params.sunlit_margin_y,
    );
    let t: u32 = params.toxic_border_thickness;
    let toxic = !(within(bx, edge_x, t) && within(by, edge_y, t));
    let organic: u16 = if toxic {
        params.toxic_border_organic
    } else {
        params.default_organic
    };
    Cell {
        organic,
        soil_energy: params.default_soil_energy,
        sunlit,
        lineage_mutation_rate: 0,
        occupant: Occupant::Empty,
    }
}

/// Whether the chunks stand row by row in a world of the given width.
pub open spec fn placed(chunks: Seq<Chunk>, chunks_x: u32) -> bool {
    forall|c: int|
        0 <= c < chunks.len() ==> (#[trigger] chunks[c]).coord.x == c % (chunks_x as int)
            && chunks[c].coord.y == c / (chunks_x as int)
}

/// A change that keeps the layout leaves the chunks where they stand.
pub proof fn lemma_placed(a: Seq<Chunk>, b: Seq<Chunk>, chunks_x: u32)
    requires
        placed(a, chunks_x),
        same_layout(a, b),
    ensures
        placed(b, chunks_x),
{
    assert forall|c: int| 0 <= c < b.len() implies (#[trigger] b[c]).coord.x == c % (
    chunks_x as int) && b[c].coord.y == c / (chunks_x as int) by {
        assert(a[c].coord == b[c].coord);
    }
}

/// Build an empty world.
pub fn build_world(params: &WorldGenParams) -> (chunks: Vec<Chunk>)
    requires
        buildable(*params),
    ensures
        forall|wrap: bool| #[trigger] shaped(chunks@, grid_of(*params, wrap)),
        placed(chunks@, params.chunks_x),
        world_of(chunks@) == fresh_world(*params),
{
    let cx: u32 = params.chunks_x;
    let cy: u32 = params.chunks_y;
    proof {
        assert(0 <= cx * cy) by (nonlinear_arith)
            requires
                0 <= cx,
                0 <= cy,
        ;
        assert(cell_count(cx as int, cy as int) == cx * cy * 1024);
    }
    let total: u32 = cx * cy;
    let mut chunks: Vec<Chunk> = Vec::with_capacity(total as usize);
    let mut c: u32 = 0;
    while c < total
        invariant
            c <= total,
            total == cx * cy,
            cx == params.chunks_x,
            cy == params.chunks_y,
            buildable(*params),
            chunks.len() == c,
            forall|t: int|
                0 <= t < c ==> (#[trigger] chunks@[t]).cells.len() == CHUNK_AREA
                    && chunks@[t].coord.x == t % (cx as int) && chunks@[t].coord.y == t / (
                cx as int),
            forall|t: int, k: int|
                0 <= t < c && 0 <= k < 1024 ==> (#[trigger] chunks@[t].cells@[k])@ == fresh_cell(
                    *params,
                    (t % (cx as int)) * 32 + k % 32,
                    (t / (cx as int)) * 32 + k / 32,
                ),
        decreases total - c,
    {
        proof {
            assert(0 < cx && 0 < cy && (c as int) / (cx as int) < cy) by (nonlinear_arith)
                requires
                    0 <= c < cx * cy,
                    0 <= cx,
                    0 <= cy,
            ;
        }
        let chunk_x: u32 = c % cx;
        let chunk_y: u32 = c / cx;
        let mut cells: Vec<Cell> = Vec::with_capacity(CHUNK_AREA);
        let mut k: u32 = 0;
        while k < 1024
            invariant
                k <= 1024,
                buildable(*params),
                chunk_x < params.chunks_x,
                chunk_y < params.chunks_y,
                cells.len() == k,
                forall|t: int|
                    0 <= t < k ==> (#[trigger] cells@[t])@ == fresh_cell(
                        *params,
                        chunk_x * 32 + t % 32,
                        chunk_y * 32 + t / 32,
                    ),
            decreases 1024 - k,
        {
            cells.push(make_cell(params, chunk_x * 32 + k % 32, chunk_y * 32 + k / 32));
            k = k + 1;
        }
        chunks.push(
            Chunk { coord: ChunkCoord { x: chunk_x as i32, y: chunk_y as i32 }, cells },
        );
        c = c + 1;
    }
    proof {
        assert(grid_of(*params, true).fits());
        reveal(world_of);
        assert forall|i: int| 0 <= i < world_of(chunks@).len() implies #[trigger] world_of(chunks@)[i]
            == fresh_cell(*params, x_of(cx as int, i), y_of(cx as int, i)) by {
            assert(chunks@[i / 1024].cells@[i % 1024]@ == fresh_cell(
                *params,
                ((i / 1024) % (cx as int)) * 32 + (i % 1024) % 32,
                ((i / 1024) / (cx as int)) * 32 + (i % 1024) / 32,
            ));
        }
        assert(world_of(chunks@) =~= fresh_world(*params));
    }
    chunks
}

// ---------------------------------------------------------------------------
// Single cells by world coordinates
// ---------------------------------------------------------------------------
/// Whether the chunk list has a cell at world coordinates `(x, y)`: the coordinates
/// are not negative and their chunk and cell exist. Nothing folds or clips
/// coordinates beyond the right edge: they run on into the next row of chunks.
pub open spec fn has_cell(chunks: Seq<Chunk>, chunks_x: u32, x: i32, y: i32) -> bool {
    &&& 0 <= x
    &&& 0 <= y
    &&& (y as int / 32) * chunks_x + x as int / 32 < chunks.len()
    &&& (y as int % 32) * 32 + x as int % 32 < chunks[(y as int / 32) * chunks_x + x as int
        / 32].cells.len()
}

fn cell_position(chunks: &Vec<Chunk>, chunks_x: u32, x: i32, y: i32) -> (pos: Option<(usize, usize)>)
    ensures
        match pos {
            Some((c, k)) => {
                &&& has_cell(chunks@, chunks_x, x, y)
                &&& c == (y as int / 32) * chunks_x + x as int / 32
                &&& k == (y as int % 32) * 32 + x as int % 32
                &&& c < chunks.len()
                &&& k < chunks@[c as int].cells.len()
            },
            None => !has_cell(chunks@, chunks_x, x, y),
        },
{
    if x < 0 || y < 0 {
        return None;
    }
    let row: u64 = (y / 32) as u64;
    let width: u64 = chunks_x as u64;
    assert(0 <= row * width <= 0x7FFF_FFFF * 0xFFFF_FFFF) by (nonlinear_arith)
        requires
            0 <= row <= 0x7FFF_FFFF,
            0 <= width <= 0xFFFF_FFFF,
    ;
    let c: u64 = row * width + (x / 32) as u64;
    let k: usize = (y % 32) as usize * 32 + (x % 32) as usize;
    if c < chunks.len() as u64 && k < chunks[c as usize].cells.len() {
        Some((c as usize, k))
    } else {
        None
    }
}

/// The cell at world coordinates.
pub fn cell_at(chunks: &Vec<Chunk>, chunks_x: u32, x: i32, y: i32) -> (cell: Option<&Cell>)
    ensures
        match cell {
            Some(c) => has_cell(chunks@, chunks_x, x, y) && c == chunks@[(y as int / 32) * chunks_x
                + x as int / 32].cells@[(y as int % 32) * 32 + x as int % 32],
            None => !has_cell(chunks@, chunks_x, x, y),
        },
{
    match cell_position(chunks, chunks_x, x, y) {
        Some((c, k)) => Some(&chunks[c].cells[k]),
        None => None,
    }
}

/// Put an occupant into the cell at world coordinates; without such a cell
/// nothing happens.
pub fn place_at(chunks: &mut Vec<Chunk>, chunks_x: u32, x: i32, y: i32, occupant: Occupant)
    ensures
        final(chunks)@ == (if has_cell(old(chunks)@, chunks_x, x, y) {
            let c = (y as int / 32) * chunks_x + x as int / 32;
            old(chunks)@.update(c, final(chunks)@[c])
        } else {
            old(chunks)@
        }),
        has_cell(old(chunks)@, chunks_x, x, y) ==> {
            let c = (y as int / 32) * chunks_x + x as int / 32;
            let k = (y as int % 32) * 32 + x as int % 32;
            let before = old(chunks)@[c];
            let after = final(chunks)@[c];
            &&& after.coord == before.coord
            &&& after.cells@ == before.cells@.update(
                k,
                (Cell { occupant, ..before.cells@[k] }),
            )
        },
{
    if let Some((c, k)) = cell_position(chunks, chunks_x, x, y) {
        chunks[c].cells[k].occupant = occupant;
    }
}

// ---------------------------------------------------------------------------
// Planting
// ---------------------------------------------------------------------------
/// How the mutation rates of the first sprouts are spread. Without steps they all
/// start at the default rate. With steps, a random 23-bit number is drawn for each
/// sprout, and its rate lies as many units above the smallest permitted rate as
/// there are steps that the number reaches.
#[derive(Clone, Debug)]
pub struct RateSpread {
    pub steps: Option<Vec<u32>>,
}

impl View for RateSpread {
    type V = Option<Seq<u32>>;

    open spec fn view(&self) -> Option<Seq<u32>> {
        match self.steps {
            Some(steps) => Some(steps@),
            None => None,
        }
    }
}

/// How many steps a number reaches.
pub open spec fn steps_reached(steps: Seq<u32>, k: int) -> nat
    decreases steps.len(),
{
    if steps.len() == 0 {
        0
    } else {
        steps_reached(steps.drop_last(), k) + if steps.last() <= k {
            1nat
        } else {
            0
        }
    }
}

/// The mutation rate of a first sprout, and the generator after it was drawn.
pub open spec fn initial_rate(spread: Option<Seq<u32>>, v: RngView) -> (u32, RngView) {
    match spread {
        Some(steps) => {
            let raised = MUTATION_RATE_MIN + steps_reached(steps, (v.word(0) / 512) as int);
            (
                (if raised > MUTATION_RATE_MAX {
                    MUTATION_RATE_MAX as int
                } else {
                    raised
                }) as u32,
                v.ahead(1),
            )
        },
        None => (DEFAULT_MUTATION_RATE, v),
    }
}

/// The direction that a random byte stands for.
pub open spec fn facing_of(byte: int) -> Direction {
    if byte % 4 == 0 {
        Direction::North
    } else if byte % 4 == 1 {
        Direction::East
    } else if byte % 4 == 2 {
        Direction::South
    } else {
        Direction::West
    }
}

/// The clan that is founded at `(x, y)`: the number of the box, row by row.
pub open spec fn clan_at(params: WorldGenParams, x: int, y: int) -> ClanId {
    let boxes_x: int = if params.boxes_x == 0 {
        1
    } else {
        params.boxes_x as int
    };
    let bx = x / box_edge(32 * params.chunks_x, params.boxes_x);
    let by = y / box_edge(32 * params.chunks_y, params.boxes_y);
    ((by * boxes_x + bx) % 256) as ClanId
}

/// A world that is being planted.
#[verifier::ext_equal]
pub struct PlantView {
    pub world: Seq<CellView>,
    /// Sprouts planted so far; the next one gets the next number as its plant id.
    pub count: nat,
    pub rng: RngView,
}

/// Plant a sprout at `(x, y)` if the sun shines there. It carries a mutated copy of
/// the starter genome with a mutation rate of its own.
pub open spec fn plant_point(
    params: WorldGenParams,
    spread: Option<Seq<u32>>,
    s: PlantView,
    x: int,
    y: int,
) -> PlantView {
    let i = idx_of(params.chunks_x as int, x, y);
    if s.world[i].sunlit {
        let facing = facing_of((s.rng.word(0) % 256) as int);
        let (copy, r1) = mutated(default_vine_view(), s.rng.ahead(1));
        let (rate, r2) = initial_rate(spread, r1);
        let sprout = OccupantView::Sprout {
            plant: (s.count + 1) as PlantId,
            clan: clan_at(params, x, y),
            energy: 100,
            facing,
            genome: GenomeView { genes: copy.genes, mutation_rate: rate },
            parent: None,
            current_gene: 0,
        };
        PlantView {
            world: s.world.update(
                i,
                CellView { lineage_mutation_rate: rate, occupant: sprout, ..s.world[i] },
            ),
            count: s.count + 1,
            rng: r2,
        }
    } else {
        s
    }
}

/// Distance between neighbouring planting points.
pub open spec fn spacing_of(params: WorldGenParams) -> int {
    if params.sprout_grid_spacing == 0 {
        1
    } else {
        params.sprout_grid_spacing as int
    }
}

/// How many multiples of `spacing` lie at least `spacing` away from both ends of an
/// axis of `cells` cells.
pub open spec fn line_count(cells: int, spacing: int) -> nat {
    let n = (cells - 1) / spacing - 1;
    if n < 0 {
        0
    } else {
        n as nat
    }
}

/// Plant the first `a` points of the row at `y`.
pub open spec fn plant_row(
    params: WorldGenParams,
    spread: Option<Seq<u32>>,
    s: PlantView,
    y: int,
    a: nat,
) -> PlantView
    decreases a,
{
    if a == 0 {
        s
    } else {
        plant_point(
            params,
            spread,
            plant_row(params, spread, s, y, (a - 1) as nat),
            spacing_of(params) * a,
            y,
        )
    }
}

/// Plant the first `b` rows.
pub open spec fn plant_rows(
    params: WorldGenParams,
    spread: Option<Seq<u32>>,
    s: PlantView,
    b: nat,
) -> PlantView
    decreases b,
{
    if b == 0 {
        s
    } else {
        plant_row(
            params,
            spread,
            plant_rows(params, spread, s, (b - 1) as nat),
            spacing_of(params) * b,
            line_count(32 * params.chunks_x, spacing_of(params)),
        )
    }
}

/// A world after planting.
pub open spec fn planted(
    params: WorldGenParams,
    spread: Option<Seq<u32>>,
    w: Seq<CellView>,
    v: RngView,
) -> PlantView {
    plant_rows(
        params,
        spread,
        PlantView { world: w, count: 0, rng: v },
        line_count(32 * params.chunks_y, spacing_of(params)),
    )
}

proof fn lemma_row_counts(
    params: WorldGenParams,
    spread: Option<Seq<u32>>,
    s: PlantView,
    y: int,
    a: nat,
    b: nat,
)
    requires
        a <= b,
    ensures
        plant_row(params, spread, s, y, a).count <= plant_row(params, spread, s, y, b).count,
    decreases b,
{
    if a < b {
        lemma_row_counts(params, spread, s, y, a, (b - 1) as nat);
    }
}

proof fn lemma_rows_count(
    params: WorldGenParams,
    spread: Option<Seq<u32>>,
    s: PlantView,
    a: nat,
    b: nat,
)
    requires
        a <= b,
    ensures
        plant_rows(params, spread, s, a).count <= plant_rows(params, spread, s, b).count,
    decreases b,
{
    if a < b {
        lemma_rows_count(params, spread, s, a, (b - 1) as nat);
        let before = plant_rows(params, spread, s, (b - 1) as nat);
        lemma_row_counts(
            params,
            spread,
            before,
            spacing_of(params) * b,
            0,
            line_count(32 * params.chunks_x, spacing_of(params)),
        );
    }
}

/// The points of a line are those that a walk in steps of `spacing` visits.
proof fn lemma_lines(cells: int, spacing: int, a: int)
    requires
        0 < spacing,
        0 <= a,
        0 <= cells,
    ensures
        (spacing * (a + 1) < cells - spacing) == (a < line_count(cells, spacing)),
        0 < spacing * (a + 1),
        spacing * (a + 2) == spacing * (a + 1) + spacing,
{
    let q = (cells - 1) / spacing;
    assert(spacing * (a + 2) == spacing * (a + 1) + spacing && 0 < spacing * (a + 1))
        by (nonlinear_arith)
        requires
            0 < spacing,
            0 <= a,
    ;
    vstd::arithmetic::div_mod::lemma_fundamental_div_mod(cells - 1, spacing);
    let r = (cells - 1) % spacing;
    assert(cells - 1 == spacing * q + r && 0 <= r < spacing);
    if a < q - 1 {
        assert(spacing * (a + 2) <= spacing * q) by (nonlinear_arith)
            requires
                0 < spacing,
                a + 2 <= q,
        ;
    } else {
        assert(spacing * (a + 2) >= spacing * (q + 1)) by (nonlinear_arith)
            requires
                0 < spacing,
                a + 2 >= q + 1,
        ;
        assert(spacing * (q + 1) == spacing * q + spacing) by (nonlinear_arith);
    }
}

fn count_steps(steps: &Vec<u32>, k: u32) -> (n: usize)
    ensures
        n == steps_reached(steps@, k as int),
{
    let mut n: usize = 0;
    let mut i: usize = 0;
    assert(steps@.take(0) =~= Seq::<u32>::empty());
    while i < steps.len()
        invariant
            i <= steps.len(),
            n <= i,
            n == steps_reached(steps@.take(i as int), k as int),
        decreases steps.len() - i,
    {
        assert(steps@.take(i + 1).drop_last() =~= steps@.take(i as int));
        if steps[i] <= k {
            n = n + 1;
        }
        i = i + 1;
    }
    assert(steps@.take(steps.len() as int) =~= steps@);
    n
}

fn draw_initial_rate(spread: &RateSpread, rng: &mut SimRng) -> (rate: u32)
    ensures
        rate == initial_rate(spread@, old(rng)@).0,
        final(rng)@ == initial_rate(spread@, old(rng)@).1,
{
    match &spread.steps {
        Some(steps) => {
            let word: u32 = rng.next_u32();
            let n: usize = count_steps(steps, word / 512);
            if n > (MUTATION_RATE_MAX - MUTATION_RATE_MIN) as usize {
                MUTATION_RATE_MAX
            } else {
                MUTATION_RATE_MIN + n as u32
            }
        },
        None => DEFAULT_MUTATION_RATE,
    }
}

fn draw_facing(rng: &mut SimRng) -> (facing: Direction)
    ensures
        facing == facing_of((old(rng)@.word(0) % 256) as int),
        final(rng)@ == old(rng)@.ahead(1),
{
    let byte: u32 = rng.next_u32() % 256;
    if byte % 4 == 0 {
        Direction::North
    } else if byte % 4 == 1 {
        Direction::East
    } else if byte % 4 == 2 {
        Direction::South
    } else {
        Direction::West
    }
}

fn founding_clan(params: &WorldGenParams, x: u32, y: u32) -> (clan: ClanId)
    requires
        plantable(*params),
        x <= i32::MAX,
        y <= i32::MAX,
    ensures
        clan == clan_at(*params, x as int, y as int),
{
    let (edge_x, edge_y) = box_edges(params);
    let boxes_x: u64 = if params.boxes_x == 0 {
        1
    } else {
        params.boxes_x as u64
    };
    let bx: u64 = (x / edge_x) as u64;
    let by: u64 = (y / edge_y) as u64;
    assert(0 <= bx <= x && 0 <= by <= y) by (nonlinear_arith)
        requires
            bx == x as int / edge_x as int,
            by == y as int / edge_y as int,
            edge_x >= 1,
            edge_y >= 1,
    ;
    assert(0 <= by * boxes_x <= 0x7FFF_FFFF * 0x7FFF_FFFF) by (nonlinear_arith)
        requires
            0 <= by <= 0x7FFF_FFFF,
            0 <= boxes_x <= 0x7FFF_FFFF,
    ;
    ((by * boxes_x + bx) % 256) as ClanId
}

/// Plant sprouts on a regular grid over the sunlit part of the world. Returns how
/// many were planted.
pub fn place_random_sprout_grid(
    chunks: &mut Vec<Chunk>,
    params: &WorldGenParams,
    spread: &RateSpread,
    rng: &mut SimRng,
) -> (count: u32)
    requires
        plantable(*params),
        shaped(old(chunks)@, grid_of(*params, false)),
        planted(*params, spread@, world_of(old(chunks)@), old(rng)@).count <= u32::MAX,
    ensures
        same_layout(old(chunks)@, final(chunks)@),
        world_of(final(chunks)@) == planted(
            *params,
            spread@,
            world_of(old(chunks)@),
            old(rng)@,
        ).world,
        count == planted(*params, spread@, world_of(old(chunks)@), old(rng)@).count,
        final(rng)@ == planted(*params, spread@, world_of(old(chunks)@), old(rng)@).rng,
{
    let g = Grid { chunks_x: params.chunks_x, chunks_y: params.chunks_y, wrap: false };
    let total_w: i32 = (params.chunks_x * 32) as i32;
    let total_h: i32 = (params.chunks_y * 32) as i32;
    let spacing: i32 = if params.sprout_grid_spacing == 0 {
        1
    } else {
        params.sprout_grid_spacing as i32
    };
    let ghost start = PlantView { world: world_of(chunks@), count: 0, rng: rng@ };
    let ghost rows = line_count(32 * params.chunks_y, spacing_of(*params));
    let ghost cols = line_count(32 * params.chunks_x, spacing_of(*params));
    let mut count: u32 = 0;
    let mut y: i32 = spacing;
    let ghost mut b: nat = 0;
    proof {
        lemma_lines(total_h as int, spacing as int, 0);
        lemma_world_len(chunks@, g);
    }
    while y < total_h - spacing
        invariant
            plantable(*params),
            g == grid_of(*params, false),
            shaped(chunks@, g),
            same_layout(old(chunks)@, chunks@),
            total_w == 32 * params.chunks_x,
            total_h == 32 * params.chunks_y,
            spacing == spacing_of(*params),
            0 < spacing,
            y == spacing * (b + 1),
            0 < y,
            b <= rows,
            (y < total_h - spacing) == (b < rows),
            rows == line_count(total_h as int, spacing as int),
            cols == line_count(total_w as int, spacing as int),
            plant_rows(*params, spread@, start, rows).count <= u32::MAX,
            world_of(chunks@) == plant_rows(*params, spread@, start, b).world,
            world_of(chunks@).len() == g.cells(),
            count == plant_rows(*params, spread@, start, b).count,
            rng@ == plant_rows(*params, spread@, start, b).rng,
        decreases rows - b,
    {
        let ghost here = plant_rows(*params, spread@, start, b);
        let mut x: i32 = spacing;
        let ghost mut a: nat = 0;
        proof {
            lemma_lines(total_w as int, spacing as int, 0);
            lemma_lines(total_h as int, spacing as int, b as int);
            lemma_lines(total_h as int, spacing as int, (b + 1) as int);
            lemma_rows_count(*params, spread@, start, (b + 1) as nat, rows);
        }
        while x < total_w - spacing
            invariant
                plantable(*params),
                g == grid_of(*params, false),
                shaped(chunks@, g),
                same_layout(old(chunks)@, chunks@),
                total_w == 32 * params.chunks_x,
                total_h == 32 * params.chunks_y,
                spacing == spacing_of(*params),
                0 < spacing,
                0 < y < total_h - spacing,
                x == spacing * (a + 1),
                0 < x,
                a <= cols,
                (x < total_w - spacing) == (a < cols),
                cols == line_count(total_w as int, spacing as int),
                plant_row(*params, spread@, here, y as int, cols).count <= u32::MAX,
                world_of(chunks@) == plant_row(*params, spread@, here, y as int, a).world,
                world_of(chunks@).len() == g.cells(),
                count == plant_row(*params, spread@, here, y as int, a).count,
                rng@ == plant_row(*params, spread@, here, y as int, a).rng,
            decreases cols - a,
        {
            proof {
                lemma_idx_of(g.chunks_x as int, g.chunks_y as int, x as int, y as int);
                lemma_row_counts(*params, spread@, here, y as int, (a + 1) as nat, cols);
                lemma_lines(total_w as int, spacing as int, a as int);
                lemma_lines(total_w as int, spacing as int, (a + 1) as int);
            }
            let i: usize = linear_idx(params.chunks_x, x, y);
            if cell_ref(chunks, g, i).sunlit {
                count = count + 1;
                let facing = draw_facing(rng);
                let starter = Genome::default_vine();
                let mut genome = mutate_genome(&starter, rng);
                let rate: u32 = draw_initial_rate(spread, rng);
                genome.mutation_rate = rate;
                let clan: ClanId = founding_clan(params, x as u32, y as u32);
                let cell = cell_mut(chunks, g, i);
                cell.lineage_mutation_rate = rate;
                cell.occupant = Occupant::Sprout {
                    plant: count,
                    clan,
                    energy: 100,
                    facing,
                    genome: Box::new(genome),
                    parent: None,
                    current_gene: 0,
                };
            }
            proof {
                a = a + 1;
            }
            x = x + spacing;
        }
        proof {
            b = b + 1;
        }
        y = y + spacing;
    }
    count
}

/// How many of the first `a` planting points of the row at `y` lie in the sun.
pub open spec fn lit_in_row(params: WorldGenParams, w: Seq<CellView>, y: int, a: nat) -> nat
    decreases a,
{
    if a == 0 {
        0
    } else {
        let here: nat = if w[idx_of(params.chunks_x as int, spacing_of(params) * a, y)].sunlit {
            1
        } else {
            0
        };
        lit_in_row(params, w, y, (a - 1) as nat) + here
    }
}

/// How many planting points of the first `b` rows lie in the sun.
pub open spec fn lit_in_rows(params: WorldGenParams, w: Seq<CellView>, b: nat) -> nat
    decreases b,
{
    if b == 0 {
        0
    } else {
        lit_in_rows(params, w, (b - 1) as nat) + lit_in_row(
            params,
            w,
            spacing_of(params) * b,
            line_count(32 * params.chunks_x, spacing_of(params)),
        )
    }
}

/// How many planting points of a world lie in the sun.
pub open spec fn lit_points(params: WorldGenParams, w: Seq<CellView>) -> nat {
    lit_in_rows(params, w, line_count(32 * params.chunks_y, spacing_of(params)))
}

/// Whether planting a world leaves a plant id for the sprouts to come.
pub open spec fn ids_suffice(params: WorldGenParams, w: Seq<CellView>) -> bool {
    lit_points(params, w) < u32::MAX
}

/// Whether planting a world leaves a plant id for the sprouts to come.
pub fn enough_ids(chunks: &Vec<Chunk>, params: &WorldGenParams) -> (yes: bool)
    requires
        plantable(*params),
        shaped(chunks@, grid_of(*params, false)),
    ensures
        yes == ids_suffice(*params, world_of(chunks@)),
{
    let g = Grid { chunks_x: params.chunks_x, chunks_y: params.chunks_y, wrap: false };
    let total_w: i32 = (params.chunks_x * 32) as i32;
    let total_h: i32 = (params.chunks_y * 32) as i32;
    let spacing: i32 = if params.sprout_grid_spacing == 0 {
        1
    } else {
        params.sprout_grid_spacing as i32
    };
    let ghost w = world_of(chunks@);
    let ghost rows = line_count(32 * params.chunks_y, spacing_of(*params));
    let ghost cols = line_count(32 * params.chunks_x, spacing_of(*params));
    let mut count: u32 = 0;
    let mut y: i32 = spacing;
    let ghost mut b: nat = 0;
    proof {
        lemma_lines(total_h as int, spacing as int, 0);
        lemma_world_len(chunks@, g);
    }
    while y < total_h - spacing
        invariant
            plantable(*params),
            g == grid_of(*params, false),
            shaped(chunks@, g),
            w == world_of(chunks@),
            w.len() == g.cells(),
            total_w == 32 * params.chunks_x,
            total_h == 32 * params.chunks_y,
            spacing == spacing_of(*params),
            0 < spacing,
            y == spacing * (b + 1),
            0 < y,
            b <= rows,
            (y < total_h - spacing) == (b < rows),
            rows == line_count(total_h as int, spacing as int),
            cols == line_count(total_w as int, spacing as int),
            count == capped(lit_in_rows(*params, w, b)),
        decreases rows - b,
    {
        let ghost above = lit_in_rows(*params, w, b);
        let mut x: i32 = spacing;
        let ghost mut a: nat = 0;
        proof {
            lemma_lines(total_w as int, spacing as int, 0);
            lemma_lines(total_h as int, spacing as int, b as int);
            lemma_lines(total_h as int, spacing as int, (b + 1) as int);
        }
        while x < total_w - spacing
            invariant
                plantable(*params),
                g == grid_of(*params, false),
                shaped(chunks@, g),
                w == world_of(chunks@),
                w.len() == g.cells(),
                total_w == 32 * params.chunks_x,
                total_h == 32 * params.chunks_y,
                spacing == spacing_of(*params),
                0 < spacing,
                0 < y < total_h - spacing,
                x == spacing * (a + 1),
                0 < x,
                a <= cols,
                (x < total_w - spacing) == (a < cols),
                cols == line_count(total_w as int, spacing as int),
                count == capped(above + lit_in_row(*params, w, y as int, a)),
            decreases cols - a,
        {
            proof {
                lemma_idx_of(g.chunks_x as int, g.chunks_y as int, x as int, y as int);
                lemma_lines(total_w as int, spacing as int, a as int);
                lemma_lines(total_w as int, spacing as int, (a + 1) as int);
            }
            let i: usize = linear_idx(params.chunks_x, x, y);
            if cell_ref(chunks, g, i).sunlit {
                count = count.saturating_add(1);
            }
            proof {
                a = a + 1;
            }
            x = x + spacing;
        }
        proof {
            b = b + 1;
        }
        y = y + spacing;
    }
    count < u32::MAX
}

/// A count that stops where 32 bits end.
spec fn capped(n: nat) -> int {
    if n > u32::MAX {
        u32::MAX as int
    } else {
        n as int
    }
}

/// Whether planting has left the light of a world as it was.
spec fn same_light(w: Seq<CellView>, s: Seq<CellView>) -> bool {
    &&& s.len() == w.len()
    &&& forall|i: int| 0 <= i < w.len() ==> (#[trigger] s[i]).sunlit == w[i].sunlit
}

proof fn lemma_row_lit(
    params: WorldGenParams,
    spread: Option<Seq<u32>>,
    w: Seq<CellView>,
    s: PlantView,
    y: int,
    a: nat,
)
    requires
        same_light(w, s.world),
        w.len() == cell_count(params.chunks_x as int, params.chunks_y as int),
        0 <= y < 32 * params.chunks_y,
        a <= line_count(32 * params.chunks_x, spacing_of(params)),
    ensures
        same_light(w, plant_row(params, spread, s, y, a).world),
        plant_row(params, spread, s, y, a).count == s.count + lit_in_row(params, w, y, a),
    decreases a,
{
    if a > 0 {
        lemma_row_lit(params, spread, w, s, y, (a - 1) as nat);
        lemma_lines(32 * params.chunks_x, spacing_of(params), a - 1);
        let x = spacing_of(params) * a;
        lemma_idx_of(params.chunks_x as int, params.chunks_y as int, x, y);
        let k = idx_of(params.chunks_x as int, x, y);
        let before = plant_row(params, spread, s, y, (a - 1) as nat);
        assert(before.world[k].sunlit == w[k].sunlit);
        let after = plant_row(params, spread, s, y, a);
        assert forall|i: int| 0 <= i < w.len() implies (#[trigger] after.world[i]).sunlit
            == w[i].sunlit by {
            assert(before.world[i].sunlit == w[i].sunlit);
        }
    }
}

proof fn lemma_rows_lit(
    params: WorldGenParams,
    spread: Option<Seq<u32>>,
    w: Seq<CellView>,
    s: PlantView,
    b: nat,
)
    requires
        same_light(w, s.world),
        w.len() == cell_count(params.chunks_x as int, params.chunks_y as int),
        b <= line_count(32 * params.chunks_y, spacing_of(params)),
    ensures
        same_light(w, plant_rows(params, spread, s, b).world),
        plant_rows(params, spread, s, b).count == s.count + lit_in_rows(params, w, b),
    decreases b,
{
    if b > 0 {
        lemma_rows_lit(params, spread, w, s, (b - 1) as nat);
        lemma_lines(32 * params.chunks_y, spacing_of(params), b - 1);
        lemma_row_lit(
            params,
            spread,
            w,
            plant_rows(params, spread, s, (b - 1) as nat),
            spacing_of(params) * b,
            line_count(32 * params.chunks_x, spacing_of(params)),
        );
    }
}

/// One sprout is planted for each planting point in the sun, whatever the random
/// numbers are.
pub proof fn lemma_every_lit_point_is_planted(
    params: WorldGenParams,
    spread: Option<Seq<u32>>,
    w: Seq<CellView>,
    v: RngView,
)
    requires
        w.len() == cell_count(params.chunks_x as int, params.chunks_y as int),
    ensures
        planted(params, spread, w, v).count == lit_points(params, w),
{
    let s = PlantView { world: w, count: 0, rng: v };
    lemma_rows_lit(
        params,
        spread,
        w,
        s,
        line_count(32 * params.chunks_y, spacing_of(params)),
    );
}

/// No more sprouts are planted than there are cells.
pub proof fn lemma_planted_count(
    params: WorldGenParams,
    spread: Option<Seq<u32>>,
    w: Seq<CellView>,
    v: RngView,
)
    ensures
        planted(params, spread, w, v).count <= cell_count(
            params.chunks_x as int,
            params.chunks_y as int,
        ),
{
    let s = PlantView { world: w, count: 0, rng: v };
    let total_w = 32 * params.chunks_x as int;
    let total_h = 32 * params.chunks_y as int;
    let rows = line_count(total_h, spacing_of(params));
    let cols = line_count(total_w, spacing_of(params));
    lemma_rows_bound(params, spread, s, rows);
    lemma_line_bound(total_w, spacing_of(params));
    lemma_line_bound(total_h, spacing_of(params));
    assert(rows * cols <= total_h * total_w) by (nonlinear_arith)
        requires
            0 <= rows <= total_h,
            0 <= cols <= total_w,
    ;
    let x = params.chunks_x as int;
    let y = params.chunks_y as int;
    assert((32 * y) * (32 * x) == x * y * 1024) by (nonlinear_arith);
}

proof fn lemma_line_bound(cells: int, spacing: int)
    requires
        0 <= cells,
        0 < spacing,
    ensures
        line_count(cells, spacing) <= cells,
{
    if cells > 0 {
        assert((cells - 1) / spacing <= cells - 1) by (nonlinear_arith)
            requires
                0 < cells,
                0 < spacing,
        ;
    } else {
        assert((cells - 1) / spacing <= 0) by (nonlinear_arith)
            requires
                cells == 0,
                0 < spacing,
        ;
    }
}

proof fn lemma_row_bound(
    params: WorldGenParams,
    spread: Option<Seq<u32>>,
    s: PlantView,
    y: int,
    a: nat,
)
    ensures
        plant_row(params, spread, s, y, a).count <= s.count + a,
    decreases a,
{
    if a > 0 {
        lemma_row_bound(params, spread, s, y, (a - 1) as nat);
    }
}

proof fn lemma_rows_bound(
    params: WorldGenParams,
    spread: Option<Seq<u32>>,
    s: PlantView,
    b: nat,
)
    ensures
        plant_rows(params, spread, s, b).count <= s.count + b * line_count(
            32 * params.chunks_x,
            spacing_of(params),
        ),
    decreases b,
{
    let cols = line_count(32 * params.chunks_x, spacing_of(params));
    if b > 0 {
        let before = plant_rows(params, spread, s, (b - 1) as nat);
        lemma_rows_bound(params, spread, s, (b - 1) as nat);
        lemma_row_bound(params, spread, before, spacing_of(params) * b, cols);
        assert((b - 1) * cols + cols == b * cols) by (nonlinear_arith)
            requires
                b > 0,
        ;
    }
}

/// The cells of a freshly built world by linear index.
pub open spec fn fresh_world(params: WorldGenParams) -> Seq<CellView> {
    Seq::new(
        cell_count(params.chunks_x as int, params.chunks_y as int) as nat,
        |i: int|
            fresh_cell(
                params,
                x_of(params.chunks_x as int, i),
                y_of(params.chunks_x as int, i),
            ),
    )
}

/// A fresh world has the cells of its chunks.
pub proof fn lemma_fresh_world_len(params: WorldGenParams)
    ensures
        fresh_world(params).len() == cell_count(params.chunks_x as int, params.chunks_y as int),
{
    let x = params.chunks_x as int;
    let y = params.chunks_y as int;
    assert(0 <= cell_count(x, y)) by (nonlinear_arith)
        requires
            0 <= x,
            0 <= y,
            cell_count(x, y) == x * y * 1024,
    ;
}

/// What planting has made of a world so far: sprouts stand only where the sun shines,
/// each belongs to a plant of its own, numbered from 1 on, carries a permitted genome
/// and marks its cell with its mutation rate; all else is as it was.
pub open spec fn well_planted(w: Seq<CellView>, s: PlantView) -> bool {
    &&& s.world.len() == w.len()
    &&& forall|i: int|
        0 <= i < w.len() ==> {
            ||| #[trigger] s.world[i] == w[i]
            ||| {
                &&& w[i].sunlit
                &&& s.world[i].occupant matches OccupantView::Sprout { plant, genome, parent, .. } && 1
                    <= plant <= s.count && parent is None && permitted(genome)
                    && s.world[i].lineage_mutation_rate == genome.mutation_rate
                &&& s.world[i] == (CellView {
                    occupant: s.world[i].occupant,
                    lineage_mutation_rate: s.world[i].lineage_mutation_rate,
                    ..w[i]
                })
            }
        }
    &&& forall|i: int, j: int|
        0 <= i < j < w.len() && #[trigger] s.world[i] != w[i] && #[trigger] s.world[j] != w[j]
            ==> s.world[i].occupant->Sprout_plant != s.world[j].occupant->Sprout_plant
}

proof fn lemma_point_well_planted(
    params: WorldGenParams,
    spread: Option<Seq<u32>>,
    w: Seq<CellView>,
    s: PlantView,
    x: int,
    y: int,
)
    requires
        well_planted(w, s),
        w.len() == cell_count(params.chunks_x as int, params.chunks_y as int),
        0 <= x < 32 * params.chunks_x,
        0 <= y < 32 * params.chunks_y,
        plant_point(params, spread, s, x, y).count <= u32::MAX,
    ensures
        well_planted(w, plant_point(params, spread, s, x, y)),
{
    lemma_idx_of(params.chunks_x as int, params.chunks_y as int, x, y);
    let k = idx_of(params.chunks_x as int, x, y);
    assert(s.world[k] == w[k] || w[k].sunlit);
    let t = plant_point(params, spread, s, x, y);
    lemma_copy_stays_in_bounds(default_vine_view(), s.rng.ahead(1));
    if s.world[k].sunlit {
        assert(w[k].sunlit);
        assert forall|i: int| 0 <= i < w.len() && i != k implies #[trigger] t.world[i] == s.world[i] by {}
        assert forall|i: int, j: int|
            0 <= i < j < w.len() && #[trigger] t.world[i] != w[i] && #[trigger] t.world[j] != w[j]
            implies t.world[i].occupant->Sprout_plant != t.world[j].occupant->Sprout_plant by {
            if i != k {
                assert(s.world[i] != w[i]);
            }
            if j != k {
                assert(s.world[j] != w[j]);
            }
        }
    }
}

proof fn lemma_row_well_planted(
    params: WorldGenParams,
    spread: Option<Seq<u32>>,
    w: Seq<CellView>,
    s: PlantView,
    y: int,
    a: nat,
)
    requires
        well_planted(w, s),
        w.len() == cell_count(params.chunks_x as int, params.chunks_y as int),
        0 <= y < 32 * params.chunks_y,
        a <= line_count(32 * params.chunks_x, spacing_of(params)),
        plant_row(params, spread, s, y, a).count <= u32::MAX,
    ensures
        well_planted(w, plant_row(params, spread, s, y, a)),
    decreases a,
{
    if a > 0 {
        lemma_row_counts(params, spread, s, y, (a - 1) as nat, a);
        lemma_row_well_planted(params, spread, w, s, y, (a - 1) as nat);
        lemma_lines(32 * params.chunks_x, spacing_of(params), a - 1);
        let before = plant_row(params, spread, s, y, (a - 1) as nat);
        lemma_point_well_planted(params, spread, w, before, spacing_of(params) * a, y);
    }
}

proof fn lemma_rows_well_planted(
    params: WorldGenParams,
    spread: Option<Seq<u32>>,
    w: Seq<CellView>,
    s: PlantView,
    b: nat,
)
    requires
        well_planted(w, s),
        w.len() == cell_count(params.chunks_x as int, params.chunks_y as int),
        b <= line_count(32 * params.chunks_y, spacing_of(params)),
        plant_rows(params, spread, s, b).count <= u32::MAX,
    ensures
        well_planted(w, plant_rows(params, spread, s, b)),
    decreases b,
{
    if b > 0 {
        lemma_rows_count(params, spread, s, (b - 1) as nat, b);
        lemma_rows_well_planted(params, spread, w, s, (b - 1) as nat);
        lemma_lines(32 * params.chunks_y, spacing_of(params), b - 1);
        let before = plant_rows(params, spread, s, (b - 1) as nat);
        lemma_row_well_planted(
            params,
            spread,
            w,
            before,
            spacing_of(params) * b,
            line_count(32 * params.chunks_x, spacing_of(params)),
        );
    }
}

/// Planting puts sprouts only where the sun shines, gives each a plant of its own and
/// changes nothing else.
pub proof fn lemma_planting(
    params: WorldGenParams,
    spread: Option<Seq<u32>>,
    w: Seq<CellView>,
    v: RngView,
)
    requires
        w.len() == cell_count(params.chunks_x as int, params.chunks_y as int),
        planted(params, spread, w, v).count <= u32::MAX,
    ensures
        well_planted(w, planted(params, spread, w, v)),
{
    let s = PlantView { world: w, count: 0, rng: v };
    lemma_rows_well_planted(
        params,
        spread,
        w,
        s,
        line_count(32 * params.chunks_y, spacing_of(params)),
    );
}

// ---------------------------------------------------------------------------
// What a fresh and a planted world look like
// ---------------------------------------------------------------------------
/// The greater of a number and one.
pub open spec fn at_least_one(n: int) -> int {
    if n < 1 {
        1
    } else {
        n
    }
}

/// Each box of a fresh world is lit except for a margin along its edges and toxic along a
/// border; all cells have the same soil energy, and nobody stands anywhere.
pub proof fn lemma_boxes_are_lit_and_bordered(params: WorldGenParams, x: int, y: int)
    requires
        0 <= x < 32 * params.chunks_x,
        0 <= y < 32 * params.chunks_y,
    ensures
        ({
            let wide = at_least_one((32 * params.chunks_x) / at_least_one(params.boxes_x as int));
            let high = at_least_one((32 * params.chunks_y) / at_least_one(params.boxes_y as int));
            let left = x % wide;
            let right = wide - 1 - left;
            let top = y % high;
            let bottom = high - 1 - top;
            let t = params.toxic_border_thickness;
            let c = fresh_world(params)[idx_of(params.chunks_x as int, x, y)];
            &&& c.sunlit == (left >= params.sunlit_margin_x && right >= params.sunlit_margin_x && top
                >= params.sunlit_margin_y && bottom >= params.sunlit_margin_y)
            &&& left < t || right < t || top < t || bottom < t ==> c.organic
                == params.toxic_border_organic
            &&& left >= t && right >= t && top >= t && bottom >= t ==> c.organic
                == params.default_organic
            &&& c.soil_energy == params.default_soil_energy
            &&& c.lineage_mutation_rate == 0
            &&& c.occupant is Empty
        }),
{
    lemma_fresh_world_len(params);
    lemma_idx_of(params.chunks_x as int, params.chunks_y as int, x, y);
    let i = idx_of(params.chunks_x as int, x, y);
    assert(fresh_world(params)[i] == fresh_cell(params, x, y));
}

/// Distance between planting points; there is always one.
pub open spec fn apart(params: WorldGenParams) -> int {
    at_least_one(params.sprout_grid_spacing as int)
}

/// Whether a position is a multiple of the spacing that keeps the spacing away from both
/// ends of its axis.
pub open spec fn on_line(pos: int, cells: int, spacing: int) -> bool {
    pos % spacing == 0 && spacing <= pos && pos + spacing < cells
}

/// Whether a cell was planted: a sprout of some plant stands in it, of the clan of its box,
/// with 100 energy, without a parent, at its first gene and with a permitted genome, and the
/// cell is marked with its mutation rate.
pub open spec fn sown(params: WorldGenParams, before: CellView, after: CellView, x: int, y: int) -> bool {
    let wide = at_least_one((32 * params.chunks_x) / at_least_one(params.boxes_x as int));
    let high = at_least_one((32 * params.chunks_y) / at_least_one(params.boxes_y as int));
    &&& after.organic == before.organic && after.soil_energy == before.soil_energy && after.sunlit
        == before.sunlit
    &&& after.occupant matches OccupantView::Sprout {
        clan,
        energy,
        genome,
        parent,
        current_gene,
        ..
    } && clan as int == ((y / high) * at_least_one(params.boxes_x as int) + x / wide) % 256 && energy == 100
        && parent is None && current_gene == 0 && after.lineage_mutation_rate == genome.mutation_rate
        && permitted(genome)
}

/// The sprout that is planted at a point in the sun: it faces where the next random byte
/// says, carries a copy of the starter genome made with the random numbers after that, and a
/// mutation rate that is drawn last. Its plant has the next number. In the shade nothing is
/// planted and nothing drawn.
pub proof fn lemma_a_point_is_planted(
    params: WorldGenParams,
    spread: Option<Seq<u32>>,
    s: PlantView,
    x: int,
    y: int,
)
    requires
        s.world.len() == cell_count(params.chunks_x as int, params.chunks_y as int),
        0 <= x < 32 * params.chunks_x,
        0 <= y < 32 * params.chunks_y,
    ensures
        ({
            let i = idx_of(params.chunks_x as int, x, y);
            let t = plant_point(params, spread, s, x, y);
            let copy = mutated(default_vine_view(), s.rng.ahead(1));
            &&& t.world.len() == s.world.len()
            &&& forall|k: int| 0 <= k < s.world.len() && k != i ==> #[trigger] t.world[k] == s.world[k]
            &&& !s.world[i].sunlit ==> t == s
            &&& s.world[i].sunlit ==> {
                &&& sown(params, s.world[i], t.world[i], x, y)
                &&& t.count == s.count + 1
                &&& t.rng == initial_rate(spread, copy.1).1
                &&& t.world[i].occupant matches OccupantView::Sprout { plant, facing, genome, .. } && {
                    &&& s.count < u32::MAX ==> plant == s.count + 1
                    &&& genome.genes == copy.0.genes
                    &&& genome.mutation_rate == initial_rate(spread, copy.1).0
                    &&& s.rng.word(0) % 4 == 0 ==> facing == Direction::North
                    &&& s.rng.word(0) % 4 == 1 ==> facing == Direction::East
                    &&& s.rng.word(0) % 4 == 2 ==> facing == Direction::South
                    &&& s.rng.word(0) % 4 == 3 ==> facing == Direction::West
                }
            }
        }),
{
    lemma_idx_of(params.chunks_x as int, params.chunks_y as int, x, y);
    lemma_first_genome(spread, s.rng.ahead(1));
    lemma_first_facing(s.rng.word(0));
    lemma_clan_of_box(params, x, y);
}

proof fn lemma_first_genome(spread: Option<Seq<u32>>, v: RngView)
    ensures
        ({
            let copy = mutated(default_vine_view(), v);
            let rate = initial_rate(spread, copy.1).0;
            permitted(GenomeView { genes: copy.0.genes, mutation_rate: rate })
        }),
{
    lemma_copy_stays_in_bounds(default_vine_view(), v);
}

proof fn lemma_first_facing(word: u32)
    ensures
        facing_of((word % 256) as int) == (if word % 4 == 0 {
            Direction::North
        } else if word % 4 == 1 {
            Direction::East
        } else if word % 4 == 2 {
            Direction::South
        } else {
            Direction::West
        }),
{
    assert((word % 256) % 4 == word % 4) by (bit_vector);
}

proof fn lemma_clan_of_box(params: WorldGenParams, x: int, y: int)
    ensures
        ({
            let wide = at_least_one((32 * params.chunks_x) / at_least_one(params.boxes_x as int));
            let high = at_least_one((32 * params.chunks_y) / at_least_one(params.boxes_y as int));
            clan_at(params, x, y) as int == ((y / high) * at_least_one(params.boxes_x as int) + x / wide)
                % 256
        }),
{
    let wide = at_least_one((32 * params.chunks_x) / at_least_one(params.boxes_x as int));
    let high = at_least_one((32 * params.chunks_y) / at_least_one(params.boxes_y as int));
    let n = (y / high) * at_least_one(params.boxes_x as int) + x / wide;
    assert(0 <= n % 256 < 256);
}

/// The mutation rates of the first sprouts: without a spread all have the default rate and
/// nothing is drawn; with one, a word is drawn, more of it never means a lower rate, and the
/// rate runs from the smallest permitted one, where no step is reached, up by one for each
/// step, and never past the greatest.
pub proof fn lemma_first_rates(steps: Seq<u32>, v: RngView, k: int, m: int)
    ensures
        initial_rate(None, v) == (DEFAULT_MUTATION_RATE, v),
        initial_rate(Some(steps), v).1 == v.ahead(1),
        initial_rate(Some(steps), v).0 == (if 100 + steps_reached(steps, (v.word(0) / 512) as int) > 2000 {
            2000
        } else {
            100 + steps_reached(steps, (v.word(0) / 512) as int)
        }),
        k <= m ==> steps_reached(steps, k) <= steps_reached(steps, m),
        (forall|i: int| 0 <= i < steps.len() ==> k < #[trigger] steps[i]) ==> steps_reached(steps, k)
            == 0,
        (forall|i: int| 0 <= i < steps.len() ==> #[trigger] steps[i] <= k) ==> steps_reached(steps, k)
            == steps.len(),
    decreases steps.len(),
{
    if steps.len() > 0 {
        let rest = steps.drop_last();
        lemma_first_rates(rest, v, k, m);
        if forall|i: int| 0 <= i < steps.len() ==> k < #[trigger] steps[i] {
            assert forall|i: int| 0 <= i < rest.len() implies k < #[trigger] rest[i] by {
                assert(rest[i] == steps[i]);
            }
            assert(k < steps[steps.len() - 1]);
        }
        if forall|i: int| 0 <= i < steps.len() ==> #[trigger] steps[i] <= k {
            assert forall|i: int| 0 <= i < rest.len() implies #[trigger] rest[i] <= k by {
                assert(rest[i] == steps[i]);
            }
            assert(steps[steps.len() - 1] <= k);
        }
    }
}

/// The places of the multiples of a spacing.
proof fn lemma_on_line(pos: int, cells: int, spacing: int)
    requires
        0 < spacing,
        0 <= pos < cells,
    ensures
        on_line(pos, cells, spacing) == (pos % spacing == 0 && 1 <= pos / spacing <= line_count(
            cells,
            spacing,
        )),
        pos % spacing == 0 ==> pos == spacing * (pos / spacing),
        0 <= pos / spacing,
{
    vstd::arithmetic::div_mod::lemma_fundamental_div_mod(pos, spacing);
    let k = pos / spacing;
    assert(0 <= k) by (nonlinear_arith)
        requires
            0 <= pos,
            0 < spacing,
            k == pos / spacing,
    ;
    if pos % spacing == 0 {
        if k >= 1 {
            lemma_lines(cells, spacing, k - 1);
            assert(spacing <= spacing * k) by (nonlinear_arith)
                requires
                    0 < spacing,
                    1 <= k,
            ;
        } else {
            assert(pos == 0) by (nonlinear_arith)
                requires
                    pos == spacing * k,
                    k == 0,
            ;
        }
    }
}

proof fn lemma_multiple(spacing: int, a: int)
    requires
        0 < spacing,
    ensures
        (spacing * a) % spacing == 0,
        (spacing * a) / spacing == a,
{
    assert(spacing * a == a * spacing + 0) by (nonlinear_arith);
    vstd::arithmetic::div_mod::lemma_fundamental_div_mod_converse(spacing * a, spacing, a, 0);
}

proof fn lemma_row_sown(
    params: WorldGenParams,
    spread: Option<Seq<u32>>,
    s: PlantView,
    y: int,
    a: nat,
    px: int,
    py: int,
)
    requires
        s.world.len() == cell_count(params.chunks_x as int, params.chunks_y as int),
        0 <= y < 32 * params.chunks_y,
        0 <= px < 32 * params.chunks_x,
        0 <= py < 32 * params.chunks_y,
        a <= line_count(32 * params.chunks_x, apart(params)),
    ensures
        ({
            let i = idx_of(params.chunks_x as int, px, py);
            let t = plant_row(params, spread, s, y, a);
            let hit = py == y && px % apart(params) == 0 && 1 <= px / apart(params) <= a
                && s.world[i].sunlit;
            &&& t.world.len() == s.world.len()
            &&& hit ==> sown(params, s.world[i], t.world[i], px, py)
            &&& !hit ==> t.world[i] == s.world[i]
        }),
    decreases a,
{
    let sp = apart(params);
    assert(spacing_of(params) == sp);
    let i = idx_of(params.chunks_x as int, px, py);
    lemma_idx_of(params.chunks_x as int, params.chunks_y as int, px, py);
    if a > 0 {
        lemma_row_sown(params, spread, s, y, (a - 1) as nat, px, py);
        lemma_lines(32 * params.chunks_x, sp, a - 1);
        let x = sp * a;
        lemma_multiple(sp, a as int);
        lemma_idx_of(params.chunks_x as int, params.chunks_y as int, x, y);
        let before = plant_row(params, spread, s, y, (a - 1) as nat);
        lemma_a_point_is_planted(params, spread, before, x, y);
        lemma_on_line(px, 32 * params.chunks_x, sp);
        let j = idx_of(params.chunks_x as int, x, y);
        if i == j {
            assert(px == x && py == y);
        } else {
            if py == y && px % sp == 0 && px / sp == a {
                assert(px == x);
            }
        }
    }
}

proof fn lemma_rows_sown(
    params: WorldGenParams,
    spread: Option<Seq<u32>>,
    s: PlantView,
    b: nat,
    px: int,
    py: int,
)
    requires
        s.world.len() == cell_count(params.chunks_x as int, params.chunks_y as int),
        0 <= px < 32 * params.chunks_x,
        0 <= py < 32 * params.chunks_y,
        b <= line_count(32 * params.chunks_y, apart(params)),
    ensures
        ({
            let i = idx_of(params.chunks_x as int, px, py);
            let sp = apart(params);
            let t = plant_rows(params, spread, s, b);
            let hit = py % sp == 0 && 1 <= py / sp <= b && px % sp == 0 && 1 <= px / sp <= line_count(
                32 * params.chunks_x,
                sp,
            ) && s.world[i].sunlit;
            &&& t.world.len() == s.world.len()
            &&& hit ==> sown(params, s.world[i], t.world[i], px, py)
            &&& !hit ==> t.world[i] == s.world[i]
        }),
    decreases b,
{
    let sp = apart(params);
    assert(spacing_of(params) == sp);
    if b > 0 {
        lemma_rows_sown(params, spread, s, (b - 1) as nat, px, py);
        lemma_lines(32 * params.chunks_y, sp, b - 1);
        lemma_multiple(sp, b as int);
        lemma_on_line(py, 32 * params.chunks_y, sp);
        let before = plant_rows(params, spread, s, (b - 1) as nat);
        lemma_row_sown(
            params,
            spread,
            before,
            sp * b,
            line_count(32 * params.chunks_x, sp),
            px,
            py,
        );
        if py % sp == 0 && py / sp == b {
            assert(py == sp * b);
        }
    }
}

/// Planting puts a sprout into every cell in the sun whose column and row are multiples of
/// the spacing and keep the spacing away from the edges of the world, and changes no other.
pub proof fn lemma_where_sprouts_are_planted(
    params: WorldGenParams,
    spread: Option<Seq<u32>>,
    w: Seq<CellView>,
    v: RngView,
    x: int,
    y: int,
)
    requires
        w.len() == cell_count(params.chunks_x as int, params.chunks_y as int),
        0 <= x < 32 * params.chunks_x,
        0 <= y < 32 * params.chunks_y,
    ensures
        ({
            let i = idx_of(params.chunks_x as int, x, y);
            let after = planted(params, spread, w, v).world;
            let point = on_line(x, 32 * params.chunks_x, apart(params)) && on_line(
                y,
                32 * params.chunks_y,
                apart(params),
            );
            &&& after.len() == w.len()
            &&& point && w[i].sunlit ==> sown(params, w[i], after[i], x, y)
            &&& !(point && w[i].sunlit) ==> after[i] == w[i]
        }),
{
    let s = PlantView { world: w, count: 0, rng: v };
    assert(spacing_of(params) == apart(params));
    lemma_rows_sown(params, spread, s, line_count(32 * params.chunks_y, apart(params)), x, y);
    lemma_on_line(x, 32 * params.chunks_x, apart(params));
    lemma_on_line(y, 32 * params.chunks_y, apart(params));
}

/// The plant that stands in a cell with a sprout.
pub open spec fn number_in(c: CellView) -> PlantId {
    c.occupant->Sprout_plant
}

/// The plants are numbered as one reads: row by row from the top, and from the left in a row.
pub proof fn lemma_plants_are_numbered_as_one_reads(
    params: WorldGenParams,
    spread: Option<Seq<u32>>,
    w: Seq<CellView>,
    v: RngView,
    x: int,
    y: int,
    px: int,
    py: int,
)
    requires
        w.len() == cell_count(params.chunks_x as int, params.chunks_y as int),
        planted(params, spread, w, v).count <= u32::MAX,
        on_line(x, 32 * params.chunks_x, apart(params)),
        on_line(y, 32 * params.chunks_y, apart(params)),
        on_line(px, 32 * params.chunks_x, apart(params)),
        on_line(py, 32 * params.chunks_y, apart(params)),
        w[idx_of(params.chunks_x as int, x, y)].sunlit,
        w[idx_of(params.chunks_x as int, px, py)].sunlit,
        y < py || (y == py && x < px),
    ensures
        ({
            let after = planted(params, spread, w, v).world;
            let i = idx_of(params.chunks_x as int, x, y);
            let j = idx_of(params.chunks_x as int, px, py);
            1 <= number_in(after[i]) < number_in(after[j]) <= planted(params, spread, w, v).count
        }),
{
    let s = PlantView { world: w, count: 0, rng: v };
    let sp = apart(params);
    assert(spacing_of(params) == sp);
    lemma_on_line(x, 32 * params.chunks_x, sp);
    lemma_on_line(y, 32 * params.chunks_y, sp);
    lemma_on_line(px, 32 * params.chunks_x, sp);
    lemma_on_line(py, 32 * params.chunks_y, sp);
    let b = line_count(32 * params.chunks_y, sp);
    lemma_rows_number(params, spread, s, b, x, y);
    lemma_rows_number(params, spread, s, b, px, py);
    lemma_rows_order(params, spread, s, b, x, y, px, py);
}

/// Whether `(x, y)` is one of the first `a` planting points of its row.
spec fn among(params: WorldGenParams, s: PlantView, x: int, y: int, a: nat) -> bool {
    &&& 0 <= x < 32 * params.chunks_x
    &&& 0 <= y < 32 * params.chunks_y
    &&& x % apart(params) == 0
    &&& 1 <= x / apart(params) <= a
    &&& s.world[idx_of(params.chunks_x as int, x, y)].sunlit
}

/// Whether `(x, y)` is a planting point in one of the first `b` rows.
spec fn among_rows(params: WorldGenParams, s: PlantView, x: int, y: int, b: nat) -> bool {
    &&& among(params, s, x, y, line_count(32 * params.chunks_x, apart(params)))
    &&& y % apart(params) == 0
    &&& 1 <= y / apart(params) <= b
}

proof fn lemma_row_number(
    params: WorldGenParams,
    spread: Option<Seq<u32>>,
    s: PlantView,
    y: int,
    a: nat,
    px: int,
)
    requires
        s.world.len() == cell_count(params.chunks_x as int, params.chunks_y as int),
        0 <= y < 32 * params.chunks_y,
        a <= line_count(32 * params.chunks_x, apart(params)),
    ensures
        ({
            let t = plant_row(params, spread, s, y, a);
            let i = idx_of(params.chunks_x as int, px, y);
            &&& s.count <= t.count
            &&& t.count <= u32::MAX && among(params, s, px, y, a) ==> s.count < number_in(t.world[i])
                <= t.count
        }),
    decreases a,
{
    let sp = apart(params);
    assert(spacing_of(params) == sp);
    if a > 0 {
        let x = sp * a;
        let before = plant_row(params, spread, s, y, (a - 1) as nat);
        lemma_row_number(params, spread, s, y, (a - 1) as nat, px);
        lemma_lines(32 * params.chunks_x, sp, a - 1);
        lemma_multiple(sp, a as int);
        lemma_row_sown(params, spread, s, y, (a - 1) as nat, x, y);
        lemma_a_point_is_planted(params, spread, before, x, y);
        if among(params, s, px, y, a) {
            lemma_row_sown(params, spread, s, y, (a - 1) as nat, px, y);
            lemma_on_line(px, 32 * params.chunks_x, sp);
            lemma_idx_of(params.chunks_x as int, params.chunks_y as int, px, y);
            lemma_idx_of(params.chunks_x as int, params.chunks_y as int, x, y);
        }
    }
}

proof fn lemma_row_order(
    params: WorldGenParams,
    spread: Option<Seq<u32>>,
    s: PlantView,
    y: int,
    a: nat,
    x: int,
    px: int,
)
    requires
        s.world.len() == cell_count(params.chunks_x as int, params.chunks_y as int),
        a <= line_count(32 * params.chunks_x, apart(params)),
        plant_row(params, spread, s, y, a).count <= u32::MAX,
        among(params, s, x, y, a),
        among(params, s, px, y, a),
        x < px,
    ensures
        ({
            let t = plant_row(params, spread, s, y, a);
            number_in(t.world[idx_of(params.chunks_x as int, x, y)]) < number_in(
                t.world[idx_of(params.chunks_x as int, px, y)],
            )
        }),
    decreases a,
{
    let sp = apart(params);
    assert(spacing_of(params) == sp);
    let last = (a - 1) as nat;
    let here = sp * a;
    let before = plant_row(params, spread, s, y, last);
    lemma_lines(32 * params.chunks_x, sp, a - 1);
    lemma_multiple(sp, a as int);
    lemma_row_sown(params, spread, s, y, last, here, y);
    lemma_row_sown(params, spread, s, y, last, px, y);
    lemma_row_number(params, spread, s, y, last, x);
    lemma_a_point_is_planted(params, spread, before, here, y);
    lemma_on_line(x, 32 * params.chunks_x, sp);
    lemma_on_line(px, 32 * params.chunks_x, sp);
    lemma_idx_of(params.chunks_x as int, params.chunks_y as int, x, y);
    lemma_idx_of(params.chunks_x as int, params.chunks_y as int, px, y);
    lemma_idx_of(params.chunks_x as int, params.chunks_y as int, here, y);
    let (k, l) = (x / sp, px / sp);
    assert(k < l) by (nonlinear_arith)
        requires
            x == sp * k,
            px == sp * l,
            x < px,
            0 < sp,
    ;
    if l < a {
        lemma_row_order(params, spread, s, y, last, x, px);
    }
}

proof fn lemma_rows_number(
    params: WorldGenParams,
    spread: Option<Seq<u32>>,
    s: PlantView,
    b: nat,
    px: int,
    py: int,
)
    requires
        s.world.len() == cell_count(params.chunks_x as int, params.chunks_y as int),
        b <= line_count(32 * params.chunks_y, apart(params)),
    ensures
        ({
            let t = plant_rows(params, spread, s, b);
            let i = idx_of(params.chunks_x as int, px, py);
            &&& s.count <= t.count
            &&& t.count <= u32::MAX && among_rows(params, s, px, py, b) ==> s.count < number_in(
                t.world[i],
            ) <= t.count
        }),
    decreases b,
{
    let sp = apart(params);
    assert(spacing_of(params) == sp);
    if b > 0 {
        let last = (b - 1) as nat;
        let y = sp * b;
        let all = line_count(32 * params.chunks_x, sp);
        let before = plant_rows(params, spread, s, last);
        lemma_rows_number(params, spread, s, last, px, py);
        lemma_lines(32 * params.chunks_y, sp, b - 1);
        lemma_multiple(sp, b as int);
        if among_rows(params, s, px, py, b) {
            lemma_rows_sown(params, spread, s, last, px, py);
            lemma_on_line(py, 32 * params.chunks_y, sp);
            lemma_row_sown(params, spread, before, y, all, px, py);
            lemma_row_number(params, spread, before, y, all, px);
        } else {
            lemma_rows_len(params, spread, s, last);
            lemma_row_number(params, spread, before, y, all, px);
        }
    }
}

proof fn lemma_rows_len(params: WorldGenParams, spread: Option<Seq<u32>>, s: PlantView, b: nat)
    requires
        s.world.len() == cell_count(params.chunks_x as int, params.chunks_y as int),
        b <= line_count(32 * params.chunks_y, apart(params)),
    ensures
        plant_rows(params, spread, s, b).world.len() == s.world.len(),
    decreases b,
{
    if b > 0 {
        lemma_line_bound(32 * params.chunks_y, apart(params));
        if params.chunks_x > 0 {
            lemma_rows_sown(params, spread, s, b, 0, 0);
        } else {
            lemma_line_bound(32 * params.chunks_x, apart(params));
            lemma_rows_len(params, spread, s, (b - 1) as nat);
        }
    }
}

proof fn lemma_rows_order(
    params: WorldGenParams,
    spread: Option<Seq<u32>>,
    s: PlantView,
    b: nat,
    x: int,
    y: int,
    px: int,
    py: int,
)
    requires
        s.world.len() == cell_count(params.chunks_x as int, params.chunks_y as int),
        b <= line_count(32 * params.chunks_y, apart(params)),
        plant_rows(params, spread, s, b).count <= u32::MAX,
        among_rows(params, s, x, y, b),
        among_rows(params, s, px, py, b),
        y < py || (y == py && x < px),
    ensures
        ({
            let t = plant_rows(params, spread, s, b);
            number_in(t.world[idx_of(params.chunks_x as int, x, y)]) < number_in(
                t.world[idx_of(params.chunks_x as int, px, py)],
            )
        }),
    decreases b,
{
    let sp = apart(params);
    assert(spacing_of(params) == sp);
    let last = (b - 1) as nat;
    let row = sp * b;
    let all = line_count(32 * params.chunks_x, sp);
    let before = plant_rows(params, spread, s, last);
    lemma_lines(32 * params.chunks_y, sp, b - 1);
    lemma_multiple(sp, b as int);
    lemma_rows_len(params, spread, s, last);
    lemma_rows_sown(params, spread, s, last, x, y);
    lemma_rows_sown(params, spread, s, last, px, py);
    lemma_rows_number(params, spread, s, last, x, y);
    lemma_on_line(y, 32 * params.chunks_y, sp);
    lemma_on_line(py, 32 * params.chunks_y, sp);
    lemma_row_sown(params, spread, before, row, all, x, y);
    lemma_row_sown(params, spread, before, row, all, px, py);
    lemma_row_number(params, spread, before, row, all, px);
    let (k, l) = (y / sp, py / sp);
    assert(k <= l && (y < py ==> k < l)) by (nonlinear_arith)
        requires
            y == sp * k,
            py == sp * l,
            y <= py,
            0 < sp,
    ;
    if l < b {
        lemma_rows_order(params, spread, s, last, x, y, px, py);
    } else if k == l {
        lemma_row_order(params, spread, before, row, all, x, px);
    }
}

/// Which worlds can be built and planted: those whose cells can be numbered, and whose knobs
/// fit the coordinates.
pub proof fn lemma_what_can_be_planted(params: WorldGenParams)
    ensures
        plantable(params) == {
            &&& 32 * params.chunks_x <= 0x7fff_ffff
            &&& 32 * params.chunks_y <= 0x7fff_ffff
            &&& params.chunks_x * params.chunks_y <= 0xffff_ffff
            &&& params.chunks_x * params.chunks_y * 1024 <= usize::MAX
            &&& params.boxes_x <= 0x7fff_ffff
            &&& params.boxes_y <= 0x7fff_ffff
            &&& params.sprout_grid_spacing <= 0x7fff_ffff
        },
{
}

} // verus!
