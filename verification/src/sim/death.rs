//! Death: cells without energy, without purpose or on poisonous soil are removed
//! and return what they held to the soil.
use vstd::prelude::*;
use crate::grid::{cell_mut, cell_ref, dx_of, dy_of, lemma_cells_bound, lemma_nbr_in_world, lemma_world_len};
use crate::grid::{nbr_dir, neighbor_cell, neighbor_in, same_layout, shaped, total_cells, world_of, Grid};
use crate::protocol::{CellView, Chunk, Direction, Energy, Occupant, OccupantView, SimParams};
use crate::sim::deposit::{deposit_all, deposits, enriched};
use crate::sim::germinate::parent_gone;
use crate::sim::occupant::{clear_parent, energy_of, is_empty, is_poisoned, is_producer, occupant_energy};
use crate::sim::occupant::{occupant_parent, orphaned, parent_of, poisoned_by};

verus! {

/// Whether an occupant at `i` has nowhere to push energy: a stem without children
/// and parent, or a producer whose parent is missing.
pub open spec fn stranded(g: Grid, w: Seq<CellView>, i: int, occ: OccupantView) -> bool {
    match occ {
        OccupantView::Stem { children, parent, .. } => children == 0 && parent is None,
        _ => is_producer(occ) && (parent_of(occ) is None || parent_gone(g, w, i, parent_of(occ))),
    }
}

/// Whether the occupant of cell `i` dies this tick.
pub open spec fn dies(g: Grid, params: SimParams, w: Seq<CellView>, i: int) -> bool {
    let c = w[i];
    ||| energy_of(c.occupant) == Some(0u16)
    ||| stranded(g, w, i, c.occupant)
    ||| poisoned_by(params, c.occupant, c.organic, c.soil_energy)
}

/// The energy of each dying cell by linear index.
pub open spec fn dying_energy(g: Grid, params: SimParams, w: Seq<CellView>) -> Seq<Option<Energy>> {
    Seq::new(
        w.len(),
        |i: int|
            if dies(g, params, w, i) {
                energy_of(w[i].occupant)
            } else {
                None
            },
    )
}

/// Whether the parent of the occupant of cell `j` dies.
pub open spec fn loses_parent(g: Grid, params: SimParams, w: Seq<CellView>, j: int) -> bool {
    match parent_of(w[j].occupant) {
        Some(d) => match nbr_dir(g, j, d) {
            Some(q) => dies(g, params, w, q),
            None => false,
        },
        None => false,
    }
}

/// What stands in cell `j` after the dying have gone.
pub open spec fn bereft(g: Grid, params: SimParams, w: Seq<CellView>, j: int) -> OccupantView {
    if dies(g, params, w, j) {
        OccupantView::Empty
    } else if loses_parent(g, params, w, j) {
        orphaned(w[j].occupant)
    } else {
        w[j].occupant
    }
}

/// The world after death: the dying enrich the soil and leave their cells empty,
/// and whoever had one of them as parent forgets it.
pub open spec fn death(g: Grid, params: SimParams, w: Seq<CellView>) -> Seq<CellView> {
    let dying = dying_energy(g, params, w);
    Seq::new(
        w.len(),
        |j: int|
            CellView {
                occupant: bereft(g, params, w, j),
                ..enriched(g, params.death_deposit_kernel, dying, w, j)
            },
    )
}

/// How many of the first `m` cells die.
pub open spec fn death_count(g: Grid, params: SimParams, w: Seq<CellView>, m: nat) -> nat
    decreases m,
{
    if m == 0 {
        0
    } else {
        death_count(g, params, w, (m - 1) as nat) + if dies(g, params, w, m - 1) {
            1nat
        } else {
            0
        }
    }
}

/// Whether an occupant standing at `i` has nowhere to push energy.
pub fn cell_has_no_push_target(occ: &Occupant, chunks: &Vec<Chunk>, g: Grid, i: usize) -> (yes: bool)
    requires
        shaped(chunks@, g),
        i < g.cells(),
    ensures
        yes == stranded(g, world_of(chunks@), i as int, occ@),
{
    match occ {
        Occupant::Stem { children, parent, .. } => *children == 0 && parent.is_none(),
        Occupant::Leaf { parent, .. } => parent_missing(chunks, g, i, *parent),
        Occupant::Root { parent, .. } => parent_missing(chunks, g, i, *parent),
        Occupant::Antenna { parent, .. } => parent_missing(chunks, g, i, *parent),
        _ => false,
    }
}

fn parent_missing(chunks: &Vec<Chunk>, g: Grid, i: usize, parent: Option<Direction>) -> (missing: bool)
    requires
        shaped(chunks@, g),
        i < g.cells(),
    ensures
        missing == (parent is None || parent_gone(g, world_of(chunks@), i as int, parent)),
{
    match parent {
        Some(d) => match neighbor_cell(chunks, g, i, d) {
            Some(c) => is_empty(&c.occupant),
            None => true,
        },
        None => true,
    }
}

/// Remove the dying. Returns how many there were.
pub fn phase_death(chunks: &mut Vec<Chunk>, g: Grid, params: &SimParams) -> (deaths: u64)
    requires
        shaped(old(chunks)@, g),
    ensures
        same_layout(old(chunks)@, final(chunks)@),
        world_of(final(chunks)@) == death(g, *params, world_of(old(chunks)@)),
        deaths == death_count(g, *params, world_of(old(chunks)@), g.cells() as nat),
{
    let n: usize = total_cells(g);
    let ghost w = world_of(chunks@);
    proof {
        lemma_world_len(chunks@, g);
        lemma_cells_bound(g);
    }
    let mut dying: Vec<Option<Energy>> = Vec::with_capacity(n);
    let mut deaths: u64 = 0;
    let mut i: usize = 0;
    while i < n
        invariant
            i <= n,
            n == g.cells(),
            n < 0x4000_0000_0000_0000,
            shaped(chunks@, g),
            world_of(chunks@) == w,
            w.len() == n,
            dying.len() == i,
            deaths == death_count(g, *params, w, i as nat),
            deaths <= i,
            forall|j: int| 0 <= j < i ==> #[trigger] dying@[j] == dying_energy(g, *params, w)[j],
        decreases n - i,
    {
        let cell = cell_ref(chunks, g, i);
        let energy = occupant_energy(&cell.occupant);
        let spent = match energy {
            Some(e) => e == 0,
            None => false,
        };
        let doomed = spent || cell_has_no_push_target(&cell.occupant, chunks, g, i) || is_poisoned(
            params,
            &cell.occupant,
            cell.organic,
            cell.soil_energy,
        );
        assert(doomed == dies(g, *params, w, i as int));
        if doomed {
            dying.push(energy);
            deaths = deaths + 1;
        } else {
            dying.push(None);
        }
        i = i + 1;
    }
    assert(dying@ =~= dying_energy(g, *params, w));
    deposit_all(chunks, g, &params.death_deposit_kernel, &dying);
    let ghost w1 = world_of(chunks@);
    let ghost goal = death(g, *params, w);
    i = 0;
    while i < n
        invariant
            i <= n,
            n == g.cells(),
            shaped(chunks@, g),
            same_layout(old(chunks)@, chunks@),
            w.len() == n,
            dying@ == dying_energy(g, *params, w),
            w1 == deposits(g, params.death_deposit_kernel, dying@, w),
            goal == death(g, *params, w),
            world_of(chunks@).len() == n,
            forall|j: int|
                0 <= j < n ==> #[trigger] world_of(chunks@)[j] == (if j < i {
                    goal[j]
                } else {
                    w1[j]
                }),
        decreases n - i,
    {
        assert(dying@[i as int] == dying_energy(g, *params, w)[i as int]);
        let cell = cell_mut(chunks, g, i);
        if dying[i].is_some() {
            cell.occupant = Occupant::Empty;
        } else if let Some(d) = occupant_parent(&cell.occupant) {
            if let Some(q) = neighbor_in(g, i, d) {
                assert(dying@[q as int] == dying_energy(g, *params, w)[q as int]);
                if dying[q].is_some() {
                    clear_parent(&mut cell.occupant, d);
                }
            }
        }
        i = i + 1;
    }
    assert(world_of(chunks@) =~= goal);
    deaths
}

/// After death nobody has a parent that died this tick: a link cannot come to lead to
/// whoever takes the place of the dead.
pub proof fn lemma_no_link_to_the_dead(g: Grid, params: SimParams, w: Seq<CellView>, i: int, d: Direction)
    requires
        w.len() == g.cells(),
        0 <= i < w.len(),
        nbr_dir(g, i, d) matches Some(q) && dies(g, params, w, q),
    ensures
        parent_of(death(g, params, w)[i].occupant) != Some(d),
        death(g, params, w)[nbr_dir(g, i, d)->0].occupant is Empty,
{
    lemma_nbr_in_world(g, i, dx_of(d), dy_of(d));
    let q = nbr_dir(g, i, d)->0;
    assert(death(g, params, w)[i].occupant == bereft(g, params, w, i));
    assert(death(g, params, w)[q].occupant == bereft(g, params, w, q));
}

/// Whoever has energy, somewhere to push it and tolerable soil lives on.
pub proof fn lemma_survives(g: Grid, params: SimParams, w: Seq<CellView>, i: int)
    requires
        0 <= i < w.len(),
        !(w[i].occupant is Empty),
        energy_of(w[i].occupant) != Some(0u16),
        !stranded(g, w, i, w[i].occupant),
        !poisoned_by(params, w[i].occupant, w[i].organic, w[i].soil_energy),
    ensures
        !(death(g, params, w)[i].occupant is Empty),
        energy_of(death(g, params, w)[i].occupant) == energy_of(w[i].occupant),
{
    assert(death(g, params, w)[i].occupant == bereft(g, params, w, i));
}

} // verus!
