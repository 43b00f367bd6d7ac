//! Germination: seeds that have been abandoned, or that have saved up enough,
//! become sprouts of a plant of their own.
use vstd::prelude::*;
use crate::grid::{cell_mut, cell_ref, cell_towards, dx_of, dy_of, lemma_cells_bound, lemma_nbr_in_world};
use crate::grid::{lemma_world_len, neighbor_cell, opposite, opposite_dir, same_layout, shaped, total_cells};
use crate::grid::{world_of, Grid};
use crate::protocol::{CellView, Chunk, Direction, Occupant, OccupantView, PlantId, SimParams};
use crate::sim::occupant::{is_dir, is_empty, plant_of};
use crate::sim::stem::{apply_stem_changes, change_fits, lemma_listed_grows, listed, mask_from};
use crate::sim::stem::{mask_from_flags, restemmed, StemChange};

verus! {

/// Whether a parent direction points at nothing: an empty cell or past the edge.
pub open spec fn parent_gone(g: Grid, w: Seq<CellView>, i: int, parent: Option<Direction>) -> bool {
    match parent {
        Some(d) => match cell_towards(g, w, i, d) {
            Some(c) => c.occupant is Empty,
            None => true,
        },
        None => false,
    }
}

/// Whether the occupant of cell `i` germinates this tick.
pub open spec fn germinates(g: Grid, params: SimParams, w: Seq<CellView>, i: int) -> bool {
    match w[i].occupant {
        OccupantView::Seed { energy, parent, .. } => parent_gone(g, w, i, parent) || energy
            >= params.seed_dropoff_threshold,
        _ => false,
    }
}

/// The `k`-th plant id from `first` on; ids wrap around.
pub open spec fn nth_id(first: PlantId, k: int) -> PlantId {
    ((first + k) % 0x1_0000_0000) as PlantId
}

/// How many of the first `m` cells germinate.
pub open spec fn germination_count(g: Grid, params: SimParams, w: Seq<CellView>, m: nat) -> nat
    decreases m,
{
    if m == 0 {
        0
    } else {
        germination_count(g, params, w, (m - 1) as nat) + if germinates(g, params, w, m - 1) {
            1nat
        } else {
            0
        }
    }
}

/// Whether the neighbour of cell `i` in direction `d` is a seed of it that leaves
/// because it has saved up enough.
pub open spec fn departs(
    g: Grid,
    params: SimParams,
    w: Seq<CellView>,
    i: int,
    d: Direction,
) -> bool {
    match cell_towards(g, w, i, d) {
        Some(c) => match c.occupant {
            OccupantView::Seed { energy, parent, .. } => parent == Some(opposite(d)) && energy
                >= params.seed_dropoff_threshold,
            _ => false,
        },
        None => false,
    }
}

/// The directions in which seeds leave cell `i`.
pub open spec fn departing(g: Grid, params: SimParams, w: Seq<CellView>, i: int) -> u8 {
    mask_from(
        departs(g, params, w, i, Direction::North),
        departs(g, params, w, i, Direction::East),
        departs(g, params, w, i, Direction::South),
        departs(g, params, w, i, Direction::West),
    )
}

/// A cell after its seed, if it germinates, has become the sprout of `plant`.
pub open spec fn sprouted(c: CellView, plant: PlantId) -> CellView {
    match c.occupant {
        OccupantView::Seed { clan, energy, facing, genome, .. } => CellView {
            occupant: OccupantView::Sprout {
                plant,
                clan,
                energy,
                facing,
                genome,
                parent: None,
                current_gene: 0,
            },
            ..c
        },
        _ => c,
    }
}

/// A cell after germination: germinating seeds get fresh plant ids in scan order,
/// and stems forget the seeds that left them.
pub open spec fn germinated_cell(
    g: Grid,
    params: SimParams,
    w: Seq<CellView>,
    next_id: PlantId,
    i: int,
) -> CellView {
    if germinates(g, params, w, i) {
        sprouted(w[i], nth_id(next_id, germination_count(g, params, w, i as nat) as int))
    } else {
        match w[i].occupant {
            OccupantView::Stem { energy, connections, parent, children, .. } => restemmed(
                w[i],
                energy,
                connections,
                parent,
                children & !departing(g, params, w, i),
            ),
            _ => w[i],
        }
    }
}

/// The world after germination.
pub open spec fn germination(
    g: Grid,
    params: SimParams,
    w: Seq<CellView>,
    next_id: PlantId,
) -> Seq<CellView> {
    Seq::new(w.len(), |i: int| germinated_cell(g, params, w, next_id, i))
}

fn seed_departs(
    chunks: &Vec<Chunk>,
    g: Grid,
    params: &SimParams,
    i: usize,
    d: Direction,
) -> (yes: bool)
    requires
        shaped(chunks@, g),
        i < g.cells(),
    ensures
        yes == departs(g, *params, world_of(chunks@), i as int, d),
{
    match neighbor_cell(chunks, g, i, d) {
        Some(c) => match &c.occupant {
            Occupant::Seed { energy, parent, .. } => is_dir(*parent, opposite_dir(d)) && *energy
                >= params.seed_dropoff_threshold,
            _ => false,
        },
        None => false,
    }
}

/// The stems that lose child bits to departing seeds.
fn departures(chunks: &Vec<Chunk>, g: Grid, params: &SimParams) -> (changes: Vec<StemChange>)
    requires
        shaped(chunks@, g),
    ensures
        forall|k: int|
            #![trigger changes@[k]]
            0 <= k < changes.len() ==> {
                let w = world_of(chunks@);
                let i = changes@[k].idx as int;
                &&& i < g.cells()
                &&& w[i].occupant matches OccupantView::Stem {
                    energy,
                    connections,
                    parent,
                    children,
                    ..
                } && changes@[k].energy == energy && changes@[k].connections == connections
                    && changes@[k].parent == parent && changes@[k].children == children
                    & !departing(g, *params, w, i)
            },
        forall|i: int|
            #![trigger world_of(chunks@)[i]]
            0 <= i < g.cells() && world_of(chunks@)[i].occupant is Stem && departing(
                g,
                *params,
                world_of(chunks@),
                i,
            ) != 0 ==> listed(changes@, i),
{
    let n: usize = total_cells(g);
    let ghost w = world_of(chunks@);
    let mut changes: Vec<StemChange> = Vec::new();
    let mut i: usize = 0;
    while i < n
        invariant
            i <= n,
            n == g.cells(),
            shaped(chunks@, g),
            world_of(chunks@) == w,
            forall|k: int|
                #![trigger changes@[k]]
                0 <= k < changes.len() ==> {
                    let j = changes@[k].idx as int;
                    &&& j < g.cells()
                    &&& w[j].occupant matches OccupantView::Stem {
                        energy,
                        connections,
                        parent,
                        children,
                        ..
                    } && changes@[k].energy == energy && changes@[k].connections == connections
                        && changes@[k].parent == parent && changes@[k].children == children
                        & !departing(g, *params, w, j)
                },
            forall|j: int|
                #![trigger w[j]]
                0 <= j < i && w[j].occupant is Stem && departing(g, *params, w, j) != 0 ==> listed(
                    changes@,
                    j,
                ),
        decreases n - i,
    {
        let cell = cell_ref(chunks, g, i);
        if let Occupant::Stem { energy, connections, parent, children, .. } = &cell.occupant {
            let north = seed_departs(chunks, g, params, i, Direction::North);
            let east = seed_departs(chunks, g, params, i, Direction::East);
            let south = seed_departs(chunks, g, params, i, Direction::South);
            let west = seed_departs(chunks, g, params, i, Direction::West);
            let mask: u8 = mask_from_flags(north, east, south, west);
            if mask != 0 {
                let ghost before = changes@;
                changes.push(
                    StemChange {
                        idx: i,
                        energy: *energy,
                        connections: *connections,
                        parent: *parent,
                        children: *children & !mask,
                    },
                );
                proof {
                    lemma_listed_grows(before, changes@, i as int);
                }
            }
        }
        i = i + 1;
    }
    changes
}

/// Turn a seed cell into the sprout of a plant.
fn sprout_in_place(occ: &mut Occupant, new_plant: PlantId)
    ensures
        forall|c: CellView|
            #![trigger sprouted(c, new_plant)]
            c.occupant == old(occ)@ ==> final(occ)@ == sprouted(c, new_plant).occupant,
{
    let mut taken = Occupant::Empty;
    core::mem::swap(&mut taken, occ);
    match taken {
        Occupant::Seed { plant: _, clan, energy, facing, genome, parent: _ } => {
            *occ = Occupant::Sprout {
                plant: new_plant,
                clan,
                energy,
                facing,
                genome,
                parent: None,
                current_gene: 0,
            };
        },
        other => {
            *occ = other;
        },
    }
}

fn parent_is_gone(chunks: &Vec<Chunk>, g: Grid, i: usize, parent: Option<Direction>) -> (gone: bool)
    requires
        shaped(chunks@, g),
        i < g.cells(),
    ensures
        gone == parent_gone(g, world_of(chunks@), i as int, parent),
{
    match parent {
        Some(d) => match neighbor_cell(chunks, g, i, d) {
            Some(c) => is_empty(&c.occupant),
            None => true,
        },
        None => false,
    }
}

/// Germinate seeds. Returns how many did.
pub fn phase_germination(
    chunks: &mut Vec<Chunk>,
    g: Grid,
    params: &SimParams,
    next_plant_id: &mut PlantId,
) -> (germinated: u64)
    requires
        shaped(old(chunks)@, g),
    ensures
        same_layout(old(chunks)@, final(chunks)@),
        world_of(final(chunks)@) == germination(
            g,
            *params,
            world_of(old(chunks)@),
            *old(next_plant_id),
        ),
        germinated == germination_count(g, *params, world_of(old(chunks)@), g.cells() as nat),
        *final(next_plant_id) == nth_id(*old(next_plant_id), germinated as int),
{
    let n: usize = total_cells(g);
    let ghost w = world_of(chunks@);
    let ghost first = *next_plant_id;
    proof {
        lemma_world_len(chunks@, g);
        lemma_cells_bound(g);
    }
    let changes = departures(chunks, g, params);
    let mut germinated: u64 = 0;
    let mut i: usize = 0;
    while i < n
        invariant
            i <= n,
            n == g.cells(),
            n < 0x4000_0000_0000_0000,
            shaped(chunks@, g),
            same_layout(old(chunks)@, chunks@),
            w.len() == n,
            germinated == germination_count(g, *params, w, i as nat),
            germinated <= i,
            *next_plant_id == nth_id(first, germinated as int),
            world_of(chunks@).len() == n,
            forall|j: int|
                0 <= j < n ==> #[trigger] world_of(chunks@)[j] == (if j < i && germinates(
                    g,
                    *params,
                    w,
                    j,
                ) {
                    sprouted(
                        w[j],
                        nth_id(first, germination_count(g, *params, w, j as nat) as int),
                    )
                } else {
                    w[j]
                }),
        decreases n - i,
    {
        let cell = cell_ref(chunks, g, i);
        let ready = match &cell.occupant {
            Occupant::Seed { energy, parent, .. } => {
                proof {
                    if parent is Some {
                        let d = parent->0;
                        lemma_nbr_in_world(g, i as int, dx_of(d), dy_of(d));
                    }
                }
                parent_is_gone(chunks, g, i, *parent) || *energy >= params.seed_dropoff_threshold
            },
            _ => false,
        };
        assert(ready == germinates(g, *params, w, i as int));
        if ready {
            let plant: PlantId = *next_plant_id;
            let cell = cell_mut(chunks, g, i);
            sprout_in_place(&mut cell.occupant, plant);
            germinated = germinated + 1;
            *next_plant_id = plant.wrapping_add(1);
        }
        i = i + 1;
    }
    let ghost goal = germination(g, *params, w, first);
    proof {
        let w1 = world_of(chunks@);
        assert forall|k: int| 0 <= k < changes.len() implies change_fits(
            #[trigger] changes@[k],
            w1,
            goal,
        ) by {
            let j = changes@[k].idx as int;
            assert(goal[j] == germinated_cell(g, *params, w, first, j));
        }
        assert forall|j: int| 0 <= j < goal.len() implies #[trigger] goal[j] == w1[j] || listed(
            changes@,
            j,
        ) by {
            assert(goal[j] == germinated_cell(g, *params, w, first, j));
            assert(w[j] == w[j]);
            if w[j].occupant is Stem && departing(g, *params, w, j) == 0 {
                let c = w[j].occupant->Stem_children;
                assert(c & !0u8 == c) by (bit_vector);
            }
        }
    }
    apply_stem_changes(chunks, g, &changes, Ghost(goal));
    germinated
}

proof fn lemma_germination_count(g: Grid, params: SimParams, w: Seq<CellView>, a: nat, b: nat)
    requires
        a <= b,
    ensures
        germination_count(g, params, w, a) <= germination_count(g, params, w, b),
    decreases b,
{
    if a < b {
        lemma_germination_count(g, params, w, a, (b - 1) as nat);
    }
}

/// Seeds that germinate in the same tick become different plants, as long as there
/// are plant ids for all of them.
pub proof fn lemma_fresh_plants(
    g: Grid,
    params: SimParams,
    w: Seq<CellView>,
    next_id: PlantId,
    i: int,
    j: int,
)
    requires
        0 <= i < j < w.len(),
        germinates(g, params, w, i),
        germinates(g, params, w, j),
        germination_count(g, params, w, w.len()) <= 0x1_0000_0000,
    ensures
        germination(g, params, w, next_id)[i].occupant is Sprout,
        germination(g, params, w, next_id)[j].occupant is Sprout,
        plant_of(germination(g, params, w, next_id)[i].occupant) != plant_of(
            germination(g, params, w, next_id)[j].occupant,
        ),
{
    let a = germination_count(g, params, w, i as nat);
    let b = germination_count(g, params, w, j as nat);
    lemma_germination_count(g, params, w, (i + 1) as nat, j as nat);
    lemma_germination_count(g, params, w, (j + 1) as nat, w.len());
    assert(a < b < 0x1_0000_0000);
    assert(germination(g, params, w, next_id)[i] == germinated_cell(g, params, w, next_id, i));
    assert(germination(g, params, w, next_id)[j] == germinated_cell(g, params, w, next_id, j));
    assert(nth_id(next_id, a as int) != nth_id(next_id, b as int));
}

} // verus!
