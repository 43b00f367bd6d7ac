//! Growth: every sprout plans what its current gene would put into the cells
//! ahead, to the left and to the right of it; every contested cell goes to one
//! bidder; every sprout then becomes a stem, dies or waits.
//!
//! All plans and all contests are decided on the state before the phase.
use vstd::prelude::*;
use crate::genome::{mutate_genome, mutated};
use crate::grid::{cell_mut, cell_ref, coords, left_of, lemma_cells_bound, lemma_world_len, nbr_dir};
use crate::grid::{neighbor_in, opposite, opposite_dir, right_of, rotate_left, rotate_right, same_layout};
use crate::grid::{shaped, total_cells, world_of, x_of, y_of, Grid};
use crate::protocol::{CellView, Chunk, ClanId, Direction, Energy, Gene, Genome, GenomeView, Kernel, Occupant};
use crate::protocol::{OccupantView, PlantId, SimParams, SlotProduct};
use crate::rng::{RngView, SimRng};
use crate::sim::deposit::{deposit_all, deposits};
use crate::sim::occupant::{cost_of, edible, edible_for, is_dir, plant_of, slot_cost, EdibleStatus};
use crate::sim::stem::{mask_from, mask_from_flags};

verus! {

// ---------------------------------------------------------------------------
// Plans
// ---------------------------------------------------------------------------
/// Whether cell `i` holds a sprout that can read a gene.
pub open spec fn grower(w: Seq<CellView>, i: int) -> bool {
    w[i].occupant matches OccupantView::Sprout { genome, .. } && genome.genes.len() > 0
}

/// The gene that a sprout reads.
pub open spec fn active_gene(occ: OccupantView) -> Gene {
    let genes = occ->Sprout_genome.genes;
    genes[occ->Sprout_current_gene as int % (genes.len() as int)]
}

/// The gene that the sprouts it grows will read.
pub open spec fn following_gene(occ: OccupantView) -> u8 {
    (active_gene(occ).next as int % (occ->Sprout_genome.genes.len() as int)) as u8
}

/// What a sprout wants in slot `s`: 0 ahead, 1 to the left, 2 to the right.
pub open spec fn slot_product(occ: OccupantView, s: int) -> SlotProduct {
    let gene = active_gene(occ);
    if s == 0 {
        gene.front
    } else if s == 1 {
        gene.left
    } else {
        gene.right
    }
}

/// The direction of slot `s` of a sprout facing `facing`.
pub open spec fn slot_dir(facing: Direction, s: int) -> Direction {
    if s == 0 {
        facing
    } else if s == 1 {
        left_of(facing)
    } else {
        right_of(facing)
    }
}

/// The cell that slot `s` of the sprout at `i` points at.
pub open spec fn slot_target(g: Grid, w: Seq<CellView>, i: int, s: int) -> Option<int> {
    nbr_dir(g, i, slot_dir(w[i].occupant->Sprout_facing, s))
}

/// Sprouts and seeds are offspring: they may consume what they grow into.
pub open spec fn offspring(slot: SlotProduct) -> bool {
    slot == SlotProduct::Sprout || slot == SlotProduct::Seed
}

/// What the sprout at `i` sees where slot `s` points.
pub open spec fn slot_sees(g: Grid, w: Seq<CellView>, i: int, s: int) -> EdibleStatus {
    match slot_target(g, w, i, s) {
        Some(j) => edible(w[j].occupant, w[i].occupant->Sprout_plant),
        None => EdibleStatus::Blocked,
    }
}

/// Whether slot `s` of the sprout at `i` can be grown.
pub open spec fn viable(g: Grid, w: Seq<CellView>, i: int, s: int) -> bool {
    let product = slot_product(w[i].occupant, s);
    product != SlotProduct::Nothing && match slot_sees(g, w, i, s) {
        EdibleStatus::Empty => true,
        EdibleStatus::Edible(_) => offspring(product),
        EdibleStatus::Blocked => false,
    }
}

/// The energy that growing slot `s` would harvest.
pub open spec fn harvest(g: Grid, w: Seq<CellView>, i: int, s: int) -> int {
    if viable(g, w, i, s) {
        match slot_sees(g, w, i, s) {
            EdibleStatus::Edible(e) => e as int,
            _ => 0,
        }
    } else {
        0
    }
}

/// What growing slot `s` would cost.
pub open spec fn price(g: Grid, params: SimParams, w: Seq<CellView>, i: int, s: int) -> int {
    if viable(g, w, i, s) {
        cost_of(params, slot_product(w[i].occupant, s)) as int
    } else {
        0
    }
}

/// Whether none of a sprout's slots can be grown.
pub open spec fn stuck(g: Grid, w: Seq<CellView>, i: int) -> bool {
    !viable(g, w, i, 0) && !viable(g, w, i, 1) && !viable(g, w, i, 2)
}

/// Whether a sprout can pay for all its viable slots, counting what it would
/// harvest.
pub open spec fn affords(g: Grid, params: SimParams, w: Seq<CellView>, i: int) -> bool {
    !stuck(g, w, i) && w[i].occupant->Sprout_energy + harvest(g, w, i, 0) + harvest(g, w, i, 1)
        + harvest(g, w, i, 2) >= price(g, params, w, i, 0) + price(g, params, w, i, 1) + price(
        g,
        params,
        w,
        i,
        2,
    )
}

/// Whether the sprout at `i` bids with slot `s`.
pub open spec fn bids(g: Grid, params: SimParams, w: Seq<CellView>, i: int, s: int) -> bool {
    grower(w, i) && affords(g, params, w, i) && viable(g, w, i, s)
}

// ---------------------------------------------------------------------------
// Contests
// ---------------------------------------------------------------------------
/// One round of the tiebreak hash.
pub open spec fn mix(h: u64, v: i32) -> u64 {
    (((h ^ (v as u64)) * 0x100_0000_01b3) % 0x1_0000_0000_0000_0000) as u64
}

/// Hash of a source and a destination; the smallest score wins a contest.
pub open spec fn score_of(src_wx: i32, src_wy: i32, dst_wx: i32, dst_wy: i32) -> u64 {
    mix(mix(mix(mix(0xcbf2_9ce4_8422_2325, src_wx), src_wy), dst_wx), dst_wy)
}

/// The score of the cells with linear indices `src` and `dst`.
pub open spec fn contest_score(g: Grid, src: int, dst: int) -> u64 {
    let cx = g.chunks_x as int;
    score_of(
        x_of(cx, src) as i32,
        y_of(cx, src) as i32,
        x_of(cx, dst) as i32,
        y_of(cx, dst) as i32,
    )
}

/// Whether bidder `a` beats bidder `b` for cell `j`: by score, then by scan order.
pub open spec fn beats(g: Grid, a: int, b: int, j: int) -> bool {
    contest_score(g, a, j) < contest_score(g, b, j) || (contest_score(g, a, j) == contest_score(
        g,
        b,
        j,
    ) && a < b)
}

/// Whether slot `s` of the sprout at `q` bids for cell `j`.
pub open spec fn slot_bids_on(
    g: Grid,
    params: SimParams,
    w: Seq<CellView>,
    q: int,
    s: int,
    j: int,
) -> bool {
    bids(g, params, w, q, s) && slot_target(g, w, q, s) == Some(j)
}

/// Whether the sprout at `q` bids for cell `j`.
pub open spec fn bids_on(g: Grid, params: SimParams, w: Seq<CellView>, q: int, j: int) -> bool {
    0 <= q < w.len() && (slot_bids_on(g, params, w, q, 0, j) || slot_bids_on(g, params, w, q, 1, j)
        || slot_bids_on(g, params, w, q, 2, j))
}

/// Whether the sprout at `q` wins cell `j`: it bids, and no bidder beats it.
pub open spec fn wins(g: Grid, params: SimParams, w: Seq<CellView>, q: int, j: int) -> bool {
    bids_on(g, params, w, q, j) && forall|r: int| #[trigger]
        bids_on(g, params, w, r, j) ==> !beats(g, r, q, j)
}

/// The sprout that wins cell `j`.
pub open spec fn winner(g: Grid, params: SimParams, w: Seq<CellView>, j: int) -> Option<int> {
    if exists|q: int| wins(g, params, w, q, j) {
        Some(choose|q: int| wins(g, params, w, q, j))
    } else {
        None
    }
}

/// The slot with which the sprout at `q` bids for cell `j`.
pub open spec fn bid_slot(g: Grid, params: SimParams, w: Seq<CellView>, q: int, j: int) -> int {
    if slot_bids_on(g, params, w, q, 0, j) {
        0
    } else if slot_bids_on(g, params, w, q, 1, j) {
        1
    } else {
        2
    }
}

/// Whether slot `s` of the sprout at `i` is grown: it bids and wins its cell.
pub open spec fn won(g: Grid, params: SimParams, w: Seq<CellView>, i: int, s: int) -> bool {
    bids(g, params, w, i, s) && winner(g, params, w, slot_target(g, w, i, s)->0) == Some(i)
}

// ---------------------------------------------------------------------------
// Outcomes
// ---------------------------------------------------------------------------
/// What a slot grows into, and the generator afterwards. Offspring carry a
/// mutated copy of the genome.
pub open spec fn slot_occupant(
    params: SimParams,
    slot: SlotProduct,
    plant: PlantId,
    clan: ClanId,
    facing: Direction,
    parent: Direction,
    genome: GenomeView,
    next_gene: u8,
    v: RngView,
) -> (Option<OccupantView>, RngView) {
    let back = Some(opposite(parent));
    match slot {
        SlotProduct::Nothing => (None, v),
        SlotProduct::Leaf => (
            Some(
                OccupantView::Leaf { plant, clan, energy: params.cost_leaf, facing, parent: back },
            ),
            v,
        ),
        SlotProduct::Root => (
            Some(OccupantView::Root { plant, clan, energy: params.cost_root, parent: back }),
            v,
        ),
        SlotProduct::Antenna => (
            Some(OccupantView::Antenna { plant, clan, energy: params.cost_antenna, parent: back }),
            v,
        ),
        SlotProduct::Seed => (
            Some(
                OccupantView::Seed {
                    plant,
                    clan,
                    energy: params.cost_seed,
                    facing,
                    genome: mutated(genome, v).0,
                    parent: back,
                },
            ),
            mutated(genome, v).1,
        ),
        SlotProduct::Sprout => (
            Some(
                OccupantView::Sprout {
                    plant,
                    clan,
                    energy: params.cost_sprout,
                    facing,
                    genome: mutated(genome, v).0,
                    parent: back,
                    current_gene: next_gene,
                },
            ),
            mutated(genome, v).1,
        ),
    }
}

/// What the sprout at `q` grows with slot `s`, and the generator afterwards.
pub open spec fn offshoot(
    params: SimParams,
    w: Seq<CellView>,
    q: int,
    s: int,
    v: RngView,
) -> (Option<OccupantView>, RngView) {
    let occ = w[q].occupant;
    let dir = slot_dir(occ->Sprout_facing, s);
    slot_occupant(
        params,
        slot_product(occ, s),
        occ->Sprout_plant,
        occ->Sprout_clan,
        dir,
        dir,
        occ->Sprout_genome,
        following_gene(occ),
        v,
    )
}

/// The generator before cell `m` is grown into: cells are served in order.
pub open spec fn rng_before(
    g: Grid,
    params: SimParams,
    w: Seq<CellView>,
    v: RngView,
    m: nat,
) -> RngView
    decreases m,
{
    if m == 0 {
        v
    } else {
        let before = rng_before(g, params, w, v, (m - 1) as nat);
        match winner(g, params, w, m - 1) {
            Some(q) => offshoot(params, w, q, bid_slot(g, params, w, q, m - 1), before).1,
            None => before,
        }
    }
}

/// A cell that is grown into by the sprout at `q`.
pub open spec fn occupied_cell(
    g: Grid,
    params: SimParams,
    w: Seq<CellView>,
    v: RngView,
    j: int,
    q: int,
) -> CellView {
    match offshoot(
        params,
        w,
        q,
        bid_slot(g, params, w, q, j),
        rng_before(g, params, w, v, j as nat),
    ).0 {
        Some(occ) => CellView {
            lineage_mutation_rate: w[q].occupant->Sprout_genome.mutation_rate,
            occupant: occ,
            ..w[j]
        },
        None => w[j],
    }
}

/// The slot of a sprout facing `facing` that points in direction `d`.
pub open spec fn slot_towards(facing: Direction, d: Direction) -> Option<int> {
    if d == facing {
        Some(0)
    } else if d == left_of(facing) {
        Some(1)
    } else if d == right_of(facing) {
        Some(2)
    } else {
        None
    }
}

/// Whether the sprout at `i` grows something in direction `d`.
pub open spec fn grows_towards(
    g: Grid,
    params: SimParams,
    w: Seq<CellView>,
    i: int,
    d: Direction,
) -> bool {
    match slot_towards(w[i].occupant->Sprout_facing, d) {
        Some(s) => won(g, params, w, i, s),
        None => false,
    }
}

/// Whether the sprout at `i` grows offspring in direction `d`.
pub open spec fn bears_towards(
    g: Grid,
    params: SimParams,
    w: Seq<CellView>,
    i: int,
    d: Direction,
) -> bool {
    match slot_towards(w[i].occupant->Sprout_facing, d) {
        Some(s) => won(g, params, w, i, s) && offspring(slot_product(w[i].occupant, s)),
        None => false,
    }
}

/// What slot `s` brings in, less what it costs, if it is grown.
pub open spec fn balance(g: Grid, params: SimParams, w: Seq<CellView>, i: int, s: int) -> int {
    if won(g, params, w, i, s) {
        harvest(g, w, i, s) - price(g, params, w, i, s)
    } else {
        0
    }
}

/// The stem that a growing sprout leaves behind.
pub open spec fn stem_left(g: Grid, params: SimParams, w: Seq<CellView>, i: int) -> OccupantView {
    let occ = w[i].occupant;
    let parent = occ->Sprout_parent;
    let total = occ->Sprout_energy + balance(g, params, w, i, 0) + balance(g, params, w, i, 1)
        + balance(g, params, w, i, 2);
    OccupantView::Stem {
        plant: occ->Sprout_plant,
        clan: occ->Sprout_clan,
        energy: (if total < 0 {
            0
        } else if total > Energy::MAX {
            Energy::MAX as int
        } else {
            total
        }) as Energy,
        connections: mask_from(
            grows_towards(g, params, w, i, Direction::North) || parent == Some(Direction::North),
            grows_towards(g, params, w, i, Direction::East) || parent == Some(Direction::East),
            grows_towards(g, params, w, i, Direction::South) || parent == Some(Direction::South),
            grows_towards(g, params, w, i, Direction::West) || parent == Some(Direction::West),
        ),
        parent,
        children: mask_from(
            bears_towards(g, params, w, i, Direction::North),
            bears_towards(g, params, w, i, Direction::East),
            bears_towards(g, params, w, i, Direction::South),
            bears_towards(g, params, w, i, Direction::West),
        ),
    }
}

/// A cell after growth, before the sprouts that died have enriched the soil.
pub open spec fn grown_cell(
    g: Grid,
    params: SimParams,
    w: Seq<CellView>,
    v: RngView,
    j: int,
) -> CellView {
    match winner(g, params, w, j) {
        Some(q) => occupied_cell(g, params, w, v, j, q),
        None => if grower(w, j) && stuck(g, w, j) {
            CellView { occupant: OccupantView::Empty, ..w[j] }
        } else if grower(w, j) && (won(g, params, w, j, 0) || won(g, params, w, j, 1) || won(
            g,
            params,
            w,
            j,
            2,
        )) {
            CellView { occupant: stem_left(g, params, w, j), ..w[j] }
        } else {
            w[j]
        },
    }
}

/// The energy of each sprout that dies because it can grow nowhere and is not
/// itself eaten.
pub open spec fn withered(g: Grid, params: SimParams, w: Seq<CellView>) -> Seq<Option<Energy>> {
    Seq::new(
        w.len(),
        |j: int|
            if grower(w, j) && stuck(g, w, j) && winner(g, params, w, j) is None {
                Some(w[j].occupant->Sprout_energy)
            } else {
                None
            },
    )
}

/// The world after growth.
pub open spec fn growth(
    g: Grid,
    params: SimParams,
    kernel: Kernel,
    w: Seq<CellView>,
    v: RngView,
) -> Seq<CellView> {
    deposits(
        g,
        kernel,
        withered(g, params, w),
        Seq::new(w.len(), |j: int| grown_cell(g, params, w, v, j)),
    )
}

/// How many of the first `m` cells hold a sprout that is considered.
pub open spec fn grower_count(w: Seq<CellView>, m: nat) -> nat
    decreases m,
{
    if m == 0 {
        0
    } else {
        grower_count(w, (m - 1) as nat) + if grower(w, m - 1) {
            1nat
        } else {
            0
        }
    }
}

/// At most one sprout wins a cell.
pub proof fn lemma_winner_unique(g: Grid, params: SimParams, w: Seq<CellView>, q: int, j: int)
    requires
        wins(g, params, w, q, j),
    ensures
        winner(g, params, w, j) == Some(q),
{
    let r = choose|r: int| wins(g, params, w, r, j);
    assert(wins(g, params, w, r, j));
    assert(!beats(g, r, q, j) && !beats(g, q, r, j));
}

fn mixed(h: u64, v: i32) -> (out: u64)
    ensures
        out == mix(h, v),
{
    (h ^ (v as u64)).wrapping_mul(0x100_0000_01b3)
}

/// Deterministic tiebreak between sprouts that bid for the same cell.
pub fn tiebreak_score(src_wx: i32, src_wy: i32, dst_wx: i32, dst_wy: i32) -> (score: u64)
    ensures
        score == score_of(src_wx, src_wy, dst_wx, dst_wy),
{
    mixed(mixed(mixed(mixed(0xcbf2_9ce4_8422_2325, src_wx), src_wy), dst_wx), dst_wy)
}

/// Build what a slot grows into.
pub fn make_slot_occupant(
    params: &SimParams,
    slot: SlotProduct,
    plant: PlantId,
    clan: ClanId,
    facing: Direction,
    parent: Direction,
    parent_genome: &Genome,
    next_gene: u8,
    rng: &mut SimRng,
) -> (made: Option<Occupant>)
    ensures
        match made {
            Some(occ) => slot_occupant(
                *params,
                slot,
                plant,
                clan,
                facing,
                parent,
                parent_genome@,
                next_gene,
                old(rng)@,
            ).0 == Some(occ@),
            None => slot_occupant(
                *params,
                slot,
                plant,
                clan,
                facing,
                parent,
                parent_genome@,
                next_gene,
                old(rng)@,
            ).0 is None,
        },
        final(rng)@ == slot_occupant(
            *params,
            slot,
            plant,
            clan,
            facing,
            parent,
            parent_genome@,
            next_gene,
            old(rng)@,
        ).1,
{
    let back = Some(opposite_dir(parent));
    match slot {
        SlotProduct::Nothing => None,
        SlotProduct::Leaf => Some(
            Occupant::Leaf { plant, clan, energy: params.cost_leaf, facing, parent: back },
        ),
        SlotProduct::Root => Some(
            Occupant::Root { plant, clan, energy: params.cost_root, parent: back },
        ),
        SlotProduct::Antenna => Some(
            Occupant::Antenna { plant, clan, energy: params.cost_antenna, parent: back },
        ),
        SlotProduct::Seed => {
            let genome = Box::new(mutate_genome(parent_genome, rng));
            Some(
                Occupant::Seed {
                    plant,
                    clan,
                    energy: params.cost_seed,
                    facing,
                    genome,
                    parent: back,
                },
            )
        },
        SlotProduct::Sprout => {
            let genome = Box::new(mutate_genome(parent_genome, rng));
            Some(
                Occupant::Sprout {
                    plant,
                    clan,
                    energy: params.cost_sprout,
                    facing,
                    genome,
                    parent: back,
                    current_gene: next_gene,
                },
            )
        },
    }
}

// ---------------------------------------------------------------------------
// Executable growth
// ---------------------------------------------------------------------------
/// One slot of a plan.
#[derive(Clone, Copy)]
struct SlotPlan {
    product: SlotProduct,
    dir: Direction,
    /// Where the slot points; meaningful only if the slot is viable.
    target: usize,
    viable: bool,
    harvest: Energy,
}

/// What one sprout would do this tick.
struct SproutPlan {
    src: usize,
    plant: PlantId,
    clan: ClanId,
    energy: Energy,
    facing: Direction,
    parent: Option<Direction>,
    next_gene: u8,
    genome: Genome,
    slots: [SlotPlan; 3],
    stuck: bool,
    affords: bool,
}

/// No bid.
const NO_BID: usize = usize::MAX;

spec fn slot_fits(sp: SlotPlan, g: Grid, w: Seq<CellView>, i: int, s: int) -> bool {
    &&& sp.product == slot_product(w[i].occupant, s)
    &&& sp.dir == slot_dir(w[i].occupant->Sprout_facing, s)
    &&& sp.viable == viable(g, w, i, s)
    &&& sp.viable ==> slot_target(g, w, i, s) == Some(sp.target as int) && sp.target < g.cells()
    &&& sp.harvest == harvest(g, w, i, s)
}

spec fn plan_fits(p: SproutPlan, g: Grid, params: SimParams, w: Seq<CellView>) -> bool {
    let i = p.src as int;
    let occ = w[i].occupant;
    &&& i < g.cells()
    &&& grower(w, i)
    &&& p.plant == occ->Sprout_plant
    &&& p.clan == occ->Sprout_clan
    &&& p.energy == occ->Sprout_energy
    &&& p.facing == occ->Sprout_facing
    &&& p.parent == occ->Sprout_parent
    &&& p.next_gene == following_gene(occ)
    &&& p.genome@ == occ->Sprout_genome
    &&& slot_fits(p.slots@[0], g, w, i, 0)
    &&& slot_fits(p.slots@[1], g, w, i, 1)
    &&& slot_fits(p.slots@[2], g, w, i, 2)
    &&& p.stuck == stuck(g, w, i)
    &&& p.affords == affords(g, params, w, i)
}

fn plan_slot(
    chunks: &Vec<Chunk>,
    g: Grid,
    i: usize,
    plant: PlantId,
    product: SlotProduct,
    dir: Direction,
    Ghost(s): Ghost<int>,
) -> (plan: SlotPlan)
    requires
        shaped(chunks@, g),
        i < g.cells(),
        grower(world_of(chunks@), i as int),
        plant == world_of(chunks@)[i as int].occupant->Sprout_plant,
        product == slot_product(world_of(chunks@)[i as int].occupant, s),
        dir == slot_dir(world_of(chunks@)[i as int].occupant->Sprout_facing, s),
    ensures
        slot_fits(plan, g, world_of(chunks@), i as int, s),
{
    let mut plan = SlotPlan { product, dir, target: 0, viable: false, harvest: 0 };
    if product != SlotProduct::Nothing {
        if let Some(j) = neighbor_in(g, i, dir) {
            plan.target = j;
            match edible_for(&cell_ref(chunks, g, j).occupant, plant) {
                EdibleStatus::Empty => {
                    plan.viable = true;
                },
                EdibleStatus::Edible(e) => {
                    if product == SlotProduct::Sprout || product == SlotProduct::Seed {
                        plan.viable = true;
                        plan.harvest = e;
                    }
                },
                EdibleStatus::Blocked => {},
            }
        }
    }
    plan
}

fn plan_price(params: &SimParams, sp: &SlotPlan) -> (cost: u32)
    ensures
        cost == (if sp.viable {
            cost_of(*params, sp.product) as int
        } else {
            0
        }),
        cost <= 65535,
{
    if sp.viable {
        slot_cost(params, sp.product) as u32
    } else {
        0
    }
}

fn plan_sprout(chunks: &Vec<Chunk>, g: Grid, params: &SimParams, i: usize) -> (plan: Option<SproutPlan>)
    requires
        shaped(chunks@, g),
        i < g.cells(),
    ensures
        match plan {
            Some(p) => p.src == i && plan_fits(p, g, *params, world_of(chunks@)),
            None => !grower(world_of(chunks@), i as int),
        },
{
    let cell = cell_ref(chunks, g, i);
    match &cell.occupant {
        Occupant::Sprout { plant, clan, energy, facing, genome, parent, current_gene } => {
            let len: usize = genome.genes.len();
            if len == 0 {
                return None;
            }
            let gene = genome.genes[*current_gene as usize % len];
            let next_gene: u8 = (gene.next as usize % len) as u8;
            let front = plan_slot(chunks, g, i, *plant, gene.front, *facing, Ghost(0));
            let left = plan_slot(
                chunks,
                g,
                i,
                *plant,
                gene.left,
                rotate_left(*facing),
                Ghost(1),
            );
            let right = plan_slot(
                chunks,
                g,
                i,
                *plant,
                gene.right,
                rotate_right(*facing),
                Ghost(2),
            );
            let stuck = !front.viable && !left.viable && !right.viable;
            let cost: u32 = plan_price(params, &front) + plan_price(params, &left) + plan_price(
                params,
                &right,
            );
            let pool: u32 = *energy as u32 + front.harvest as u32 + left.harvest as u32
                + right.harvest as u32;
            let affords = !stuck && pool >= cost;
            let copied = (**genome).clone();
            Some(
                SproutPlan {
                    src: i,
                    plant: *plant,
                    clan: *clan,
                    energy: *energy,
                    facing: *facing,
                    parent: *parent,
                    next_gene,
                    genome: copied,
                    slots: [front, left, right],
                    stuck,
                    affords,
                },
            )
        },
        _ => None,
    }
}

/// Whether the sprout at `q` has bid for cell `j` once all sprouts below `i`, and
/// the slots below `at` of sprout `i`, have been heard.
spec fn heard(
    g: Grid,
    params: SimParams,
    w: Seq<CellView>,
    q: int,
    j: int,
    i: int,
    at: int,
) -> bool {
    &&& 0 <= q < w.len()
    &&& {
        ||| slot_bids_on(g, params, w, q, 0, j) && (q < i || (q == i && 0 < at))
        ||| slot_bids_on(g, params, w, q, 1, j) && (q < i || (q == i && 1 < at))
        ||| slot_bids_on(g, params, w, q, 2, j) && (q < i || (q == i && 2 < at))
    }
}

/// Whether `b` is the index of the plan that leads for cell `j` among those heard.
spec fn leads(
    g: Grid,
    params: SimParams,
    w: Seq<CellView>,
    plans: Seq<SproutPlan>,
    b: usize,
    j: int,
    i: int,
    at: int,
) -> bool {
    if b == NO_BID {
        forall|q: int| !#[trigger] heard(g, params, w, q, j, i, at)
    } else {
        &&& b < plans.len()
        &&& heard(g, params, w, plans[b as int].src as int, j, i, at)
        &&& forall|q: int| #[trigger]
            heard(g, params, w, q, j, i, at) ==> !beats(g, q, plans[b as int].src as int, j)
    }
}

spec fn planned(plans: Seq<SproutPlan>, j: int) -> bool {
    exists|t: int| 0 <= t < plans.len() && (#[trigger] plans[t]).src == j
}

/// The plans of all sprouts below `i`, in scan order.
spec fn plans_ok(
    g: Grid,
    params: SimParams,
    w: Seq<CellView>,
    plans: Seq<SproutPlan>,
    i: int,
) -> bool {
    &&& forall|t: int|
        0 <= t < plans.len() ==> plan_fits(#[trigger] plans[t], g, params, w) && plans[t].src < i
    &&& forall|a: int, b: int|
        0 <= a < b < plans.len() ==> (#[trigger] plans[a]).src < (#[trigger] plans[b]).src
    &&& forall|j: int| 0 <= j < i && #[trigger] grower(w, j) ==> planned(plans, j)
    &&& plans.len() == grower_count(w, i as nat)
    &&& plans.len() <= i
}

/// Hear the three slots of the plan with index `t`.
fn hear_plan(
    best: &mut Vec<usize>,
    plans: &Vec<SproutPlan>,
    g: Grid,
    t: usize,
    Ghost(params): Ghost<SimParams>,
    Ghost(w): Ghost<Seq<CellView>>,
)
    requires
        g.fits(),
        w.len() == g.cells(),
        t < plans.len(),
        t + 1 == plans.len(),
        plans.len() < NO_BID,
        forall|a: int| 0 <= a < plans.len() ==> plan_fits(#[trigger] plans@[a], g, params, w),
        forall|a: int| 0 <= a < t ==> (#[trigger] plans@[a]).src < plans@[t as int].src,
        plans@[t as int].affords,
        old(best).len() == g.cells(),
        forall|j: int|
            0 <= j < g.cells() ==> leads(
                g,
                params,
                w,
                plans@,
                #[trigger] old(best)@[j],
                j,
                plans@[t as int].src as int,
                0,
            ),
    ensures
        final(best).len() == g.cells(),
        forall|j: int|
            0 <= j < g.cells() ==> leads(
                g,
                params,
                w,
                plans@,
                #[trigger] final(best)@[j],
                j,
                plans@[t as int].src as int,
                3,
            ),
{
    let ghost i = plans@[t as int].src as int;
    let mut s: usize = 0;
    while s < 3
        invariant
            s <= 3,
            g.fits(),
            w.len() == g.cells(),
            t + 1 == plans.len(),
            plans.len() < NO_BID,
            i == plans@[t as int].src,
            plan_fits(plans@[t as int], g, params, w),
            forall|a: int| 0 <= a < plans.len() ==> plan_fits(#[trigger] plans@[a], g, params, w),
            forall|a: int| 0 <= a < t ==> (#[trigger] plans@[a]).src < i,
            plans@[t as int].affords,
            best.len() == g.cells(),
            forall|j: int|
                0 <= j < g.cells() ==> leads(
                    g,
                    params,
                    w,
                    plans@,
                    #[trigger] best@[j],
                    j,
                    i,
                    s as int,
                ),
        decreases 3 - s,
    {
        let plan = &plans[t];
        let sp = plan.slots[s];
        let ghost before = best@;
        assert(slot_fits(sp, g, w, i, s as int));
        if sp.viable {
            let j: usize = sp.target;
            assert(leads(g, params, w, plans@, before[j as int], j as int, i, s as int));
            assert(slot_bids_on(g, params, w, i, s as int, j as int));
            let lead: usize = best[j];
            if lead == NO_BID {
                best.set(j, t);
            } else {
                let (sx, sy) = coords(g, plan.src);
                let (px, py) = coords(g, plans[lead].src);
                let (dx, dy) = coords(g, j);
                if tiebreak_score(sx, sy, dx, dy) < tiebreak_score(px, py, dx, dy) {
                    best.set(j, t);
                }
            }
        }
        proof {
            assert forall|j: int| 0 <= j < g.cells() implies leads(
                g,
                params,
                w,
                plans@,
                #[trigger] best@[j],
                j,
                i,
                s + 1,
            ) by {
                assert(leads(g, params, w, plans@, before[j], j, i, s as int));
                lemma_lead_step(
                    g,
                    params,
                    w,
                    plans@,
                    t as int,
                    before[j],
                    best@[j],
                    j,
                    i,
                    s as int,
                );
            }
        }
        s = s + 1;
    }
}

/// Hearing one more slot changes the lead as it should.
proof fn lemma_lead_step(
    g: Grid,
    params: SimParams,
    w: Seq<CellView>,
    plans: Seq<SproutPlan>,
    t: int,
    b0: usize,
    b1: usize,
    j: int,
    i: int,
    at: int,
)
    requires
        w.len() == g.cells(),
        0 <= at < 3,
        0 <= t < plans.len(),
        plans.len() < NO_BID,
        plans[t].src == i,
        0 <= i < w.len(),
        forall|a: int| 0 <= a < t ==> (#[trigger] plans[a]).src < i,
        t + 1 == plans.len(),
        leads(g, params, w, plans, b0, j, i, at),
        !slot_bids_on(g, params, w, i, at, j) ==> b1 == b0,
        slot_bids_on(g, params, w, i, at, j) ==> b1 == (if b0 == NO_BID || contest_score(g, i, j)
            < contest_score(g, plans[b0 as int].src as int, j) {
            t as usize
        } else {
            b0
        }),
    ensures
        leads(g, params, w, plans, b1, j, i, at + 1),
{
    let now = slot_bids_on(g, params, w, i, at, j);
    assert forall|q: int| #[trigger] heard(g, params, w, q, j, i, at + 1) implies heard(
        g,
        params,
        w,
        q,
        j,
        i,
        at,
    ) || (now && q == i) by {}
    assert forall|q: int| heard(g, params, w, q, j, i, at) implies #[trigger] heard(
        g,
        params,
        w,
        q,
        j,
        i,
        at + 1,
    ) by {}
    if now {
        assert(heard(g, params, w, i, j, i, at + 1));
        if b0 != NO_BID {
            let p = plans[b0 as int].src as int;
            assert(p <= i);
        }
    }
}

proof fn lemma_heard_next(g: Grid, params: SimParams, w: Seq<CellView>, q: int, j: int, i: int)
    ensures
        heard(g, params, w, q, j, i, 3) == heard(g, params, w, q, j, i + 1, 0),
        !(grower(w, i) && affords(g, params, w, i)) ==> heard(g, params, w, q, j, i, 0) == heard(
            g,
            params,
            w,
            q,
            j,
            i + 1,
            0,
        ),
{
}

/// Plan all sprouts and settle all contests.
fn collect_bids(chunks: &Vec<Chunk>, g: Grid, params: &SimParams) -> (out: (
    Vec<SproutPlan>,
    Vec<usize>,
))
    requires
        shaped(chunks@, g),
    ensures
        plans_ok(g, *params, world_of(chunks@), out.0@, g.cells()),
        out.0.len() < NO_BID,
        out.1.len() == g.cells(),
        forall|j: int|
            0 <= j < g.cells() ==> (if #[trigger] out.1@[j] == NO_BID {
                winner(g, *params, world_of(chunks@), j) is None
            } else {
                out.1@[j] < out.0.len() && winner(g, *params, world_of(chunks@), j) == Some(
                    out.0@[out.1@[j] as int].src as int,
                )
            }),
{
    let n: usize = total_cells(g);
    let ghost w = world_of(chunks@);
    proof {
        lemma_world_len(chunks@, g);
        lemma_cells_bound(g);
    }
    let mut plans: Vec<SproutPlan> = Vec::new();
    let mut best: Vec<usize> = Vec::with_capacity(n);
    let mut i: usize = 0;
    while i < n
        invariant
            i <= n,
            best.len() == i,
            forall|j: int| 0 <= j < i ==> #[trigger] best@[j] == NO_BID,
        decreases n - i,
    {
        best.push(NO_BID);
        i = i + 1;
    }
    i = 0;
    while i < n
        invariant
            i <= n,
            n == g.cells(),
            shaped(chunks@, g),
            world_of(chunks@) == w,
            w.len() == n,
            plans_ok(g, *params, w, plans@, i as int),
            best.len() == n,
            forall|j: int|
                0 <= j < n ==> leads(
                    g,
                    *params,
                    w,
                    plans@,
                    #[trigger] best@[j],
                    j,
                    i as int,
                    0,
                ),
        decreases n - i,
    {
        let ghost plans0 = plans@;
        let ghost best0 = best@;
        match plan_sprout(chunks, g, params, i) {
            Some(p) => {
                let bidding = p.affords;
                let t: usize = plans.len();
                plans.push(p);
                proof {
                    assert forall|j: int| 0 <= j < n implies leads(
                        g,
                        *params,
                        w,
                        plans@,
                        #[trigger] best@[j],
                        j,
                        i as int,
                        0,
                    ) by {
                        assert(leads(g, *params, w, plans0, best0[j], j, i as int, 0));
                        if best0[j] != NO_BID {
                            assert(plans@[best0[j] as int] == plans0[best0[j] as int]);
                        }
                    }
                    assert(planned(plans@, i as int)) by {
                        assert(plans@[t as int].src == i);
                    }
                    assert forall|j: int| 0 <= j < i + 1 && #[trigger] grower(w, j) implies planned(
                        plans@,
                        j,
                    ) by {
                        if j < i {
                            assert(planned(plans0, j));
                            let a = choose|a: int|
                                0 <= a < plans0.len() && (#[trigger] plans0[a]).src == j;
                            assert(plans@[a].src == j);
                        }
                    }
                }
                if bidding {
                    hear_plan(&mut best, &plans, g, t, Ghost(*params), Ghost(w));
                }
                proof {
                    assert forall|j: int| 0 <= j < n implies leads(
                        g,
                        *params,
                        w,
                        plans@,
                        #[trigger] best@[j],
                        j,
                        i + 1,
                        0,
                    ) by {
                        let at: int = if bidding {
                            3
                        } else {
                            0
                        };
                        assert(leads(g, *params, w, plans@, best@[j], j, i as int, at));
                        assert forall|q: int| #[trigger]
                            heard(g, *params, w, q, j, i as int, at) == heard(
                            g,
                            *params,
                            w,
                            q,
                            j,
                            i + 1,
                            0,
                        ) by {
                            lemma_heard_next(g, *params, w, q, j, i as int);
                        }
                        assert forall|q: int| #[trigger]
                            heard(g, *params, w, q, j, i + 1, 0) implies heard(
                            g,
                            *params,
                            w,
                            q,
                            j,
                            i as int,
                            at,
                        ) by {
                            lemma_heard_next(g, *params, w, q, j, i as int);
                        }
                    }
                }
            },
            None => {
                proof {
                    assert forall|j: int| 0 <= j < n implies leads(
                        g,
                        *params,
                        w,
                        plans@,
                        #[trigger] best@[j],
                        j,
                        i + 1,
                        0,
                    ) by {
                        assert(leads(g, *params, w, plans@, best@[j], j, i as int, 0));
                        assert forall|q: int| #[trigger]
                            heard(g, *params, w, q, j, i + 1, 0) implies heard(
                            g,
                            *params,
                            w,
                            q,
                            j,
                            i as int,
                            0,
                        ) by {
                            lemma_heard_next(g, *params, w, q, j, i as int);
                        }
                        if best@[j] != NO_BID {
                            lemma_heard_next(
                                g,
                                *params,
                                w,
                                plans@[best@[j] as int].src as int,
                                j,
                                i as int,
                            );
                        }
                    }
                }
            },
        }
        i = i + 1;
    }
    proof {
        assert forall|j: int| 0 <= j < n implies (if #[trigger] best@[j] == NO_BID {
            winner(g, *params, w, j) is None
        } else {
            best@[j] < plans.len() && winner(g, *params, w, j) == Some(
                plans@[best@[j] as int].src as int,
            )
        }) by {
            assert(leads(g, *params, w, plans@, best@[j], j, n as int, 0));
            assert forall|q: int| #[trigger] bids_on(g, *params, w, q, j) == heard(
                g,
                *params,
                w,
                q,
                j,
                n as int,
                0,
            ) by {}
            if best@[j] != NO_BID {
                let q = plans@[best@[j] as int].src as int;
                assert(bids_on(g, *params, w, q, j));
                assert(wins(g, *params, w, q, j));
                lemma_winner_unique(g, *params, w, q, j);
            }
        }
    }
    (plans, best)
}

/// The settled contests: the leading plan of every cell that is bid for.
spec fn settled(
    g: Grid,
    params: SimParams,
    w: Seq<CellView>,
    plans: Seq<SproutPlan>,
    best: Seq<usize>,
) -> bool {
    &&& w.len() == g.cells()
    &&& plans_ok(g, params, w, plans, g.cells())
    &&& plans.len() < NO_BID
    &&& best.len() == g.cells()
    &&& forall|j: int|
        0 <= j < g.cells() ==> (if #[trigger] best[j] == NO_BID {
            winner(g, params, w, j) is None
        } else {
            best[j] < plans.len() && winner(g, params, w, j) == Some(
                plans[best[j] as int].src as int,
            )
        })
}

/// A cell after the offshoots have been placed.
spec fn placed_cell(
    g: Grid,
    params: SimParams,
    w: Seq<CellView>,
    v: RngView,
    j: int,
) -> CellView {
    match winner(g, params, w, j) {
        Some(q) => occupied_cell(g, params, w, v, j, q),
        None => w[j],
    }
}

/// A winner bids.
proof fn lemma_winner_bids(g: Grid, params: SimParams, w: Seq<CellView>, j: int)
    ensures
        winner(g, params, w, j) matches Some(q) ==> bids_on(g, params, w, q, j) && bids(
            g,
            params,
            w,
            q,
            bid_slot(g, params, w, q, j),
        ) && slot_target(g, w, q, bid_slot(g, params, w, q, j)) == Some(j),
{
    if exists|q: int| wins(g, params, w, q, j) {
        let q = choose|q: int| wins(g, params, w, q, j);
        assert(wins(g, params, w, q, j));
    }
}

/// Put the winners' offshoots into the cells they won, in scan order.
fn place_offshoots(
    chunks: &mut Vec<Chunk>,
    g: Grid,
    params: &SimParams,
    plans: &Vec<SproutPlan>,
    best: &Vec<usize>,
    rng: &mut SimRng,
)
    requires
        shaped(old(chunks)@, g),
        settled(g, *params, world_of(old(chunks)@), plans@, best@),
    ensures
        same_layout(old(chunks)@, final(chunks)@),
        shaped(final(chunks)@, g),
        world_of(final(chunks)@).len() == g.cells(),
        forall|j: int|
            0 <= j < g.cells() ==> #[trigger] world_of(final(chunks)@)[j] == placed_cell(
                g,
                *params,
                world_of(old(chunks)@),
                old(rng)@,
                j,
            ),
        final(rng)@ == rng_before(
            g,
            *params,
            world_of(old(chunks)@),
            old(rng)@,
            g.cells() as nat,
        ),
{
    let n: usize = total_cells(g);
    let ghost w = world_of(chunks@);
    let ghost v = rng@;
    let mut j: usize = 0;
    while j < n
        invariant
            j <= n,
            n == g.cells(),
            shaped(chunks@, g),
            same_layout(old(chunks)@, chunks@),
            settled(g, *params, w, plans@, best@),
            rng@ == rng_before(g, *params, w, v, j as nat),
            world_of(chunks@).len() == n,
            forall|t: int|
                0 <= t < n ==> #[trigger] world_of(chunks@)[t] == (if t < j {
                    placed_cell(g, *params, w, v, t)
                } else {
                    w[t]
                }),
        decreases n - j,
    {
        let b: usize = best[j];
        proof {
            lemma_winner_bids(g, *params, w, j as int);
        }
        if b != NO_BID {
            let plan = &plans[b];
            assert(plan_fits(plans@[b as int], g, *params, w));
            let s: usize = if plan.slots[0].viable && plan.slots[0].target == j {
                0
            } else if plan.slots[1].viable && plan.slots[1].target == j {
                1
            } else {
                2
            };
            assert(s == bid_slot(g, *params, w, plan.src as int, j as int));
            let sp = plan.slots[s];
            assert(slot_fits(sp, g, w, plan.src as int, s as int));
            let made = make_slot_occupant(
                params,
                sp.product,
                plan.plant,
                plan.clan,
                sp.dir,
                sp.dir,
                &plan.genome,
                plan.next_gene,
                rng,
            );
            if let Some(occ) = made {
                let cell = cell_mut(chunks, g, j);
                cell.lineage_mutation_rate = plan.genome.mutation_rate;
                cell.occupant = occ;
            }
        }
        j = j + 1;
    }
}

/// Whether a planned slot was won.
fn slot_won(plans: &Vec<SproutPlan>, best: &Vec<usize>, t: usize, s: usize, Ghost(g): Ghost<Grid>, Ghost(
    params,
): Ghost<SimParams>, Ghost(w): Ghost<Seq<CellView>>) -> (yes: bool)
    requires
        settled(g, params, w, plans@, best@),
        t < plans.len(),
        s < 3,
    ensures
        yes == won(g, params, w, plans@[t as int].src as int, s as int),
{
    let plan = &plans[t];
    assert(plan_fits(plans@[t as int], g, params, w));
    let sp = plan.slots[s];
    assert(slot_fits(sp, g, w, plan.src as int, s as int));
    if !plan.affords || !sp.viable {
        return false;
    }
    let b: usize = best[sp.target];
    proof {
        if b != NO_BID && b < t {
            assert(plans@[b as int].src < plans@[t as int].src);
        }
        if b != NO_BID && b > t {
            assert(plans@[t as int].src < plans@[b as int].src);
        }
    }
    b == t
}

fn towards(facing: Direction, d: Direction) -> (s: Option<usize>)
    ensures
        match s {
            Some(k) => slot_towards(facing, d) == Some(k as int) && k < 3,
            None => slot_towards(facing, d) is None,
        },
{
    if d == facing {
        Some(0)
    } else if d == rotate_left(facing) {
        Some(1)
    } else if d == rotate_right(facing) {
        Some(2)
    } else {
        None
    }
}

/// Which slots of a plan were won.
struct Wins {
    front: bool,
    left: bool,
    right: bool,
}

spec fn wins_fit(x: Wins, g: Grid, params: SimParams, w: Seq<CellView>, i: int) -> bool {
    &&& x.front == won(g, params, w, i, 0)
    &&& x.left == won(g, params, w, i, 1)
    &&& x.right == won(g, params, w, i, 2)
}

fn links_towards(plan: &SproutPlan, x: &Wins, d: Direction, Ghost(g): Ghost<Grid>, Ghost(
    params,
): Ghost<SimParams>, Ghost(w): Ghost<Seq<CellView>>) -> (links: (bool, bool))
    requires
        plan_fits(*plan, g, params, w),
        wins_fit(*x, g, params, w, plan.src as int),
    ensures
        links.0 == (grows_towards(g, params, w, plan.src as int, d) || plan.parent == Some(d)),
        links.1 == bears_towards(g, params, w, plan.src as int, d),
{
    let (grows, bears) = match towards(plan.facing, d) {
        Some(s) => {
            let got = if s == 0 {
                x.front
            } else if s == 1 {
                x.left
            } else {
                x.right
            };
            let sp = plan.slots[s];
            assert(slot_fits(sp, g, w, plan.src as int, s as int));
            (
                got,
                got && (sp.product == SlotProduct::Sprout || sp.product == SlotProduct::Seed),
            )
        },
        None => (false, false),
    };
    (grows || is_dir(plan.parent, d), bears)
}

/// The stem that a plan leaves behind.
fn make_stem(params: &SimParams, plan: &SproutPlan, x: &Wins, Ghost(g): Ghost<Grid>, Ghost(
    w,
): Ghost<Seq<CellView>>) -> (stem: Occupant)
    requires
        plan_fits(*plan, g, *params, w),
        wins_fit(*x, g, *params, w, plan.src as int),
    ensures
        stem@ == stem_left(g, *params, w, plan.src as int),
{
    let (cn, bn) = links_towards(plan, x, Direction::North, Ghost(g), Ghost(*params), Ghost(w));
    let (ce, be) = links_towards(plan, x, Direction::East, Ghost(g), Ghost(*params), Ghost(w));
    let (cs, bs) = links_towards(plan, x, Direction::South, Ghost(g), Ghost(*params), Ghost(w));
    let (cw, bw) = links_towards(plan, x, Direction::West, Ghost(g), Ghost(*params), Ghost(w));
    let mut gain: u32 = plan.energy as u32;
    let mut cost: u32 = 0;
    if x.front {
        gain = gain + plan.slots[0].harvest as u32;
        cost = cost + plan_price(params, &plan.slots[0]);
    }
    if x.left {
        gain = gain + plan.slots[1].harvest as u32;
        cost = cost + plan_price(params, &plan.slots[1]);
    }
    if x.right {
        gain = gain + plan.slots[2].harvest as u32;
        cost = cost + plan_price(params, &plan.slots[2]);
    }
    let left: u32 = gain.saturating_sub(cost);
    let energy: Energy = if left > Energy::MAX as u32 {
        Energy::MAX
    } else {
        left as Energy
    };
    Occupant::Stem {
        plant: plan.plant,
        clan: plan.clan,
        energy,
        connections: mask_from_flags(cn, ce, cs, cw),
        parent: plan.parent,
        children: mask_from_flags(bn, be, bs, bw),
    }
}

/// Let every sprout become what its wins make of it. Returns the energies of the
/// sprouts that withered.
fn settle_sprouts(
    chunks: &mut Vec<Chunk>,
    g: Grid,
    params: &SimParams,
    plans: &Vec<SproutPlan>,
    best: &Vec<usize>,
    Ghost(w): Ghost<Seq<CellView>>,
    Ghost(v): Ghost<RngView>,
) -> (dying: Vec<Option<Energy>>)
    requires
        shaped(old(chunks)@, g),
        settled(g, *params, w, plans@, best@),
        world_of(old(chunks)@).len() == g.cells(),
        forall|j: int|
            0 <= j < g.cells() ==> #[trigger] world_of(old(chunks)@)[j] == placed_cell(
                g,
                *params,
                w,
                v,
                j,
            ),
    ensures
        same_layout(old(chunks)@, final(chunks)@),
        shaped(final(chunks)@, g),
        world_of(final(chunks)@) == Seq::new(
            w.len(),
            |j: int| grown_cell(g, *params, w, v, j),
        ),
        dying@ == withered(g, *params, w),
{
    let n: usize = total_cells(g);
    let mut dying: Vec<Option<Energy>> = Vec::with_capacity(n);
    while dying.len() < n
        invariant
            dying.len() <= n,
            forall|j: int| 0 <= j < dying.len() ==> (#[trigger] dying@[j]) is None,
        decreases n - dying.len(),
    {
        dying.push(None);
    }
    let mut t: usize = 0;
    while t < plans.len()
        invariant
            t <= plans.len(),
            n == g.cells(),
            shaped(chunks@, g),
            same_layout(old(chunks)@, chunks@),
            settled(g, *params, w, plans@, best@),
            dying.len() == n,
            world_of(chunks@).len() == n,
            forall|j: int|
                0 <= j < n ==> #[trigger] world_of(chunks@)[j] == placed_cell(g, *params, w, v, j)
                    || world_of(chunks@)[j] == grown_cell(g, *params, w, v, j),
            forall|a: int|
                0 <= a < t ==> world_of(chunks@)[(#[trigger] plans@[a]).src as int] == grown_cell(
                    g,
                    *params,
                    w,
                    v,
                    plans@[a].src as int,
                ),
            forall|a: int|
                t <= a < plans.len() ==> world_of(chunks@)[(#[trigger] plans@[a]).src as int]
                    == placed_cell(g, *params, w, v, plans@[a].src as int),
            forall|j: int|
                0 <= j < n ==> (#[trigger] dying@[j]) is None || dying@[j] == withered(
                    g,
                    *params,
                    w,
                )[j],
            forall|a: int|
                0 <= a < t ==> dying@[(#[trigger] plans@[a]).src as int] == withered(
                    g,
                    *params,
                    w,
                )[plans@[a].src as int],
            forall|a: int|
                t <= a < plans.len() ==> dying@[(#[trigger] plans@[a]).src as int] is None,
        decreases plans.len() - t,
    {
        let plan = &plans[t];
        let i: usize = plan.src;
        assert(plan_fits(plans@[t as int], g, *params, w));
        assert(world_of(chunks@)[plans@[t as int].src as int] == placed_cell(
            g,
            *params,
            w,
            v,
            i as int,
        ));
        if best[i] == NO_BID {
            if plan.stuck {
                let cell = cell_mut(chunks, g, i);
                cell.occupant = Occupant::Empty;
                dying.set(i, Some(plan.energy));
            } else {
                let x = Wins {
                    front: slot_won(plans, best, t, 0, Ghost(g), Ghost(*params), Ghost(w)),
                    left: slot_won(plans, best, t, 1, Ghost(g), Ghost(*params), Ghost(w)),
                    right: slot_won(plans, best, t, 2, Ghost(g), Ghost(*params), Ghost(w)),
                };
                if x.front || x.left || x.right {
                    let stem = make_stem(params, plan, &x, Ghost(g), Ghost(w));
                    let cell = cell_mut(chunks, g, i);
                    cell.occupant = stem;
                }
            }
        }
        proof {
            assert forall|a: int| 0 <= a < plans.len() && a != t implies (#[trigger] plans@[a]).src
                != i by {
                if a < t {
                    assert(plans@[a].src < plans@[t as int].src);
                } else {
                    assert(plans@[t as int].src < plans@[a].src);
                }
            }
        }
        t = t + 1;
    }
    proof {
        assert forall|j: int| 0 <= j < n implies #[trigger] world_of(chunks@)[j] == grown_cell(
            g,
            *params,
            w,
            v,
            j,
        ) && dying@[j] == withered(g, *params, w)[j] by {
            if grower(w, j) {
                assert(planned(plans@, j));
                let a = choose|a: int| 0 <= a < plans.len() && (#[trigger] plans@[a]).src == j;
                assert(plans@[a].src == j);
            }
        }
        assert(world_of(chunks@) =~= Seq::new(w.len(), |j: int| grown_cell(g, *params, w, v, j)));
        assert(dying@ =~= withered(g, *params, w));
    }
    dying
}

/// Let the sprouts grow. Returns how many were considered.
pub fn phase_growth_pull(
    chunks: &mut Vec<Chunk>,
    g: Grid,
    params: &SimParams,
    death_kernel: &Kernel,
    rng: &mut SimRng,
) -> (considered: u64)
    requires
        shaped(old(chunks)@, g),
    ensures
        same_layout(old(chunks)@, final(chunks)@),
        world_of(final(chunks)@) == growth(
            g,
            *params,
            *death_kernel,
            world_of(old(chunks)@),
            old(rng)@,
        ),
        final(rng)@ == rng_before(
            g,
            *params,
            world_of(old(chunks)@),
            old(rng)@,
            g.cells() as nat,
        ),
        considered == grower_count(world_of(old(chunks)@), g.cells() as nat),
{
    let ghost w = world_of(chunks@);
    let ghost v = rng@;
    proof {
        lemma_world_len(chunks@, g);
    }
    let (plans, best) = collect_bids(chunks, g, params);
    assert(settled(g, *params, w, plans@, best@));
    place_offshoots(chunks, g, params, &plans, &best, rng);
    let dying = settle_sprouts(chunks, g, params, &plans, &best, Ghost(w), Ghost(v));
    deposit_all(chunks, g, death_kernel, &dying);
    plans.len() as u64
}

/// Growth takes only cells that are empty, and, for offspring, leaves, antennae,
/// sprouts and seeds of other plants.
pub proof fn lemma_growth_takes(g: Grid, params: SimParams, w: Seq<CellView>, j: int)
    requires
        winner(g, params, w, j) is Some,
    ensures
        ({
            let q = winner(g, params, w, j)->0;
            let s = bid_slot(g, params, w, q, j);
            ||| w[j].occupant is Empty
            ||| {
                &&& offspring(slot_product(w[q].occupant, s))
                &&& plant_of(w[j].occupant) != plant_of(w[q].occupant)
                &&& w[j].occupant is Leaf || w[j].occupant is Antenna || w[j].occupant is Sprout
                    || w[j].occupant is Seed
            }
        }),
{
    let q = winner(g, params, w, j)->0;
    assert(wins(g, params, w, q, j));
    let s = bid_slot(g, params, w, q, j);
    assert(slot_bids_on(g, params, w, q, s, j));
    assert(viable(g, w, q, s));
}

/// Roots and stems are inviolate: growth leaves them as they are.
pub proof fn lemma_roots_and_stems_are_inviolate(
    g: Grid,
    params: SimParams,
    kernel: Kernel,
    w: Seq<CellView>,
    v: RngView,
    j: int,
)
    requires
        0 <= j < w.len(),
        w[j].occupant is Root || w[j].occupant is Stem,
    ensures
        growth(g, params, kernel, w, v)[j].occupant == w[j].occupant,
{
    if winner(g, params, w, j) is Some {
        lemma_growth_takes(g, params, w, j);
    }
    assert(grown_cell(g, params, w, v, j) == w[j]);
}

/// A sprout that cannot pay for its slots waits: unless it is eaten, growth leaves it
/// as it is.
pub proof fn lemma_poor_sprouts_wait(
    g: Grid,
    params: SimParams,
    kernel: Kernel,
    w: Seq<CellView>,
    v: RngView,
    j: int,
)
    requires
        0 <= j < w.len(),
        grower(w, j),
        !stuck(g, w, j),
        !affords(g, params, w, j),
        winner(g, params, w, j) is None,
    ensures
        growth(g, params, kernel, w, v)[j].occupant == w[j].occupant,
{
    assert(grown_cell(g, params, w, v, j) == w[j]);
}

/// A sprout that can grow nowhere dies where it stands, unless it is eaten first.
pub proof fn lemma_stuck_sprouts_die(
    g: Grid,
    params: SimParams,
    kernel: Kernel,
    w: Seq<CellView>,
    v: RngView,
    j: int,
)
    requires
        0 <= j < w.len(),
        grower(w, j),
        stuck(g, w, j),
        winner(g, params, w, j) is None,
    ensures
        growth(g, params, kernel, w, v)[j].occupant is Empty,
{
    assert(grown_cell(g, params, w, v, j).occupant is Empty);
}

// ---------------------------------------------------------------------------
// What a score holds
// ---------------------------------------------------------------------------
/// A score before the last of its coordinates went in.
pub open spec fn unmixed(score: u64, v: i32) -> u64 {
    ((score * 0xce96_5057_aff6_957b) % 0x1_0000_0000_0000_0000) as u64 ^ (v as u64)
}

/// A score holds its four coordinates in order: taken out again, the last first, they leave
/// the offset with which every score begins.
pub proof fn lemma_scores_hold_their_coordinates(src_wx: i32, src_wy: i32, dst_wx: i32, dst_wy: i32)
    ensures
        ({
            let score = score_of(src_wx, src_wy, dst_wx, dst_wy);
            unmixed(unmixed(unmixed(unmixed(score, dst_wy), dst_wx), src_wy), src_wx)
                == 0xcbf2_9ce4_8422_2325u64
        }),
{
    let h0 = 0xcbf2_9ce4_8422_2325u64;
    let h1 = mix(h0, src_wx);
    let h2 = mix(h1, src_wy);
    let h3 = mix(h2, dst_wx);
    lemma_unmixed(h0, src_wx);
    lemma_unmixed(h1, src_wy);
    lemma_unmixed(h2, dst_wx);
    lemma_unmixed(h3, dst_wy);
}

proof fn lemma_unmixed(h: u64, v: i32)
    ensures
        unmixed(mix(h, v), v) == h,
{
    let x = h ^ (v as u64);
    let m = 0x1_0000_0000_0000_0000int;
    let p = 0x100_0000_01b3int;
    let q = 0xce96_5057_aff6_957bint;
    let y = (x * p) % m;
    assert((y * q) % m == x) by {
        let k = (x * p) / m;
        assert(x * p == m * k + y) by (nonlinear_arith)
            requires
                y == (x * p) % m,
                k == (x * p) / m,
                m == 0x1_0000_0000_0000_0000int,
        ;
        let r = (p * q) / m;
        assert(p * q == m * r + 1);
        assert(y * q == x + m * (x * r - k * q)) by (nonlinear_arith)
            requires
                x * p == m * k + y,
                p * q == m * r + 1,
        ;
        vstd::arithmetic::div_mod::lemma_mod_multiples_vanish(x * r - k * q, x as int, m);
        vstd::arithmetic::div_mod::lemma_small_mod(x as nat, m as nat);
    }
    assert((h ^ (v as u64)) ^ (v as u64) == h) by (bit_vector);
}

} // verus!
