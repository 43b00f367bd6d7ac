//! Directed flow of energy.
//!
//! Every occupant keeps its upkeep back and splits the rest evenly among its
//! targets: producers feed their parent, stems feed their children. All flows are
//! taken from the state before the phase and applied together.
use vstd::prelude::*;
use crate::grid::{cell_mut, cell_ref, cell_towards, dir_at, dx_of, dy_of, lemma_mask_dirs, lemma_nbr_in_world};
use crate::grid::{lemma_nbr_symmetric, lemma_world_len, nbr_dir, neighbor_in, nth_dir, opposite, same_layout};
use crate::grid::{shaped, total_cells, world_of, Grid};
use crate::protocol::{CellView, Chunk, Direction, Energy, OccupantView, SimParams};
use crate::sim::occupant::{energy_of, occupant_energy, push_targets, pushes_to, set_occupant_energy};
use crate::sim::occupant::{targets_of, upkeep_for, upkeep_of, with_energy};

verus! {

/// What an occupant can spare above its upkeep.
pub open spec fn surplus(params: SimParams, occ: OccupantView) -> int {
    match energy_of(occ) {
        Some(e) => if e > upkeep_of(params, occ) {
            e - upkeep_of(params, occ)
        } else {
            0
        },
        None => 0,
    }
}

/// What each target of an occupant receives.
pub open spec fn per_target(params: SimParams, occ: OccupantView) -> int {
    if targets_of(occ).len() == 0 {
        0
    } else {
        surplus(params, occ) / (targets_of(occ).len() as int)
    }
}

/// What an occupant hands out in all.
pub open spec fn outflow(params: SimParams, occ: OccupantView) -> int {
    per_target(params, occ) * targets_of(occ).len()
}

/// What cell `j` receives from its `k`-th neighbour.
pub open spec fn flow_from(g: Grid, params: SimParams, w: Seq<CellView>, j: int, k: int) -> int {
    match nbr_dir(g, j, dir_at(k)) {
        Some(q) => if targets_of(w[q].occupant).contains(opposite(dir_at(k))) {
            per_target(params, w[q].occupant)
        } else {
            0
        },
        None => 0,
    }
}

/// What cell `j` receives from its four neighbours.
pub open spec fn inflow(g: Grid, params: SimParams, w: Seq<CellView>, j: int) -> int {
    flow_from(g, params, w, j, 0) + flow_from(g, params, w, j, 1) + flow_from(g, params, w, j, 2)
        + flow_from(g, params, w, j, 3)
}

/// A cell after the flows: what leaves the world or reaches an empty cell is
/// lost, and a cell holds at most what fits.
pub open spec fn pushed_cell(g: Grid, params: SimParams, w: Seq<CellView>, j: int) -> CellView {
    match energy_of(w[j].occupant) {
        Some(e) => {
            let total = e - outflow(params, w[j].occupant) + inflow(g, params, w, j);
            CellView {
                occupant: with_energy(
                    w[j].occupant,
                    (if total > Energy::MAX {
                        Energy::MAX as int
                    } else {
                        total
                    }) as Energy,
                ),
                ..w[j]
            }
        },
        None => w[j],
    }
}

/// The world after the directed push.
pub open spec fn directed_push(g: Grid, params: SimParams, w: Seq<CellView>) -> Seq<CellView> {
    Seq::new(w.len(), |j: int| pushed_cell(g, params, w, j))
}

/// Nobody hands out more than it can spare.
pub proof fn lemma_outflow_within_surplus(params: SimParams, occ: OccupantView)
    ensures
        0 <= per_target(params, occ) <= surplus(params, occ),
        0 <= outflow(params, occ) <= surplus(params, occ),
        energy_of(occ) is None ==> outflow(params, occ) == 0 && per_target(params, occ) == 0,
        energy_of(occ) matches Some(e) ==> outflow(params, occ) <= e,
        targets_of(occ).len() <= 4,
{
    let s = surplus(params, occ);
    let n = targets_of(occ).len() as int;
    if let OccupantView::Stem { children, .. } = occ {
        lemma_mask_dirs(children, Direction::North);
    }
    if n > 0 {
        assert(0 <= s / n <= s && (s / n) * n <= s) by (nonlinear_arith)
            requires
                0 <= s,
                0 < n,
        ;
    }
}

/// Sprouts and seeds are terminal sinks: the push takes nothing from them.
pub proof fn lemma_sinks_only_gain(g: Grid, params: SimParams, w: Seq<CellView>, j: int)
    requires
        w.len() == g.cells(),
        0 <= j < w.len(),
        w[j].occupant is Sprout || w[j].occupant is Seed,
    ensures
        energy_of(directed_push(g, params, w)[j].occupant) matches Some(after) && after >= energy_of(
            w[j].occupant,
        )->0,
{
    assert(directed_push(g, params, w)[j] == pushed_cell(g, params, w, j));
    assert(targets_of(w[j].occupant).len() == 0);
    assert(outflow(params, w[j].occupant) == 0);
    assert forall|k: int| 0 <= k < 4 implies 0 <= #[trigger] flow_from(g, params, w, j, k) by {
        if let Some(q) = nbr_dir(g, j, dir_at(k)) {
            lemma_outflow_within_surplus(params, w[q].occupant);
        }
    }
    assert(0 <= flow_from(g, params, w, j, 0));
    assert(0 <= flow_from(g, params, w, j, 1));
    assert(0 <= flow_from(g, params, w, j, 2));
    assert(0 <= flow_from(g, params, w, j, 3));
}

/// The push looks no further than one step: what becomes of a cell depends on the cell
/// and its four neighbours alone.
pub proof fn lemma_push_is_local(
    g: Grid,
    params: SimParams,
    a: Seq<CellView>,
    b: Seq<CellView>,
    j: int,
)
    requires
        a.len() == b.len(),
        0 <= j < a.len(),
        a[j] == b[j],
        forall|d: Direction| #[trigger] cell_towards(g, a, j, d) == cell_towards(g, b, j, d),
    ensures
        directed_push(g, params, a)[j] == directed_push(g, params, b)[j],
{
    assert forall|k: int| 0 <= k < 4 implies #[trigger] flow_from(g, params, a, j, k) == flow_from(
        g,
        params,
        b,
        j,
        k,
    ) by {
        assert(cell_towards(g, a, j, dir_at(k)) == cell_towards(g, b, j, dir_at(k)));
    }
    assert(flow_from(g, params, a, j, 0) == flow_from(g, params, b, j, 0));
    assert(flow_from(g, params, a, j, 1) == flow_from(g, params, b, j, 1));
    assert(flow_from(g, params, a, j, 2) == flow_from(g, params, b, j, 2));
    assert(flow_from(g, params, a, j, 3) == flow_from(g, params, b, j, 3));
    assert(inflow(g, params, a, j) == inflow(g, params, b, j));
}

// ---------------------------------------------------------------------------
// Flows accumulated source by source
// ---------------------------------------------------------------------------
/// Scan position of the opposite of the `k`-th direction.
spec fn opposite_at(k: int) -> int {
    (k + 2) % 4
}

spec fn flow_counted(
    g: Grid,
    params: SimParams,
    w: Seq<CellView>,
    j: int,
    k: int,
    i: int,
    at: int,
) -> int {
    match nbr_dir(g, j, dir_at(k)) {
        Some(q) => if q < i || (q == i && opposite_at(k) < at) {
            flow_from(g, params, w, j, k)
        } else {
            0
        },
        None => 0,
    }
}

spec fn inflow_so_far(
    g: Grid,
    params: SimParams,
    w: Seq<CellView>,
    j: int,
    i: int,
    at: int,
) -> int {
    flow_counted(g, params, w, j, 0, i, at) + flow_counted(g, params, w, j, 1, i, at)
        + flow_counted(g, params, w, j, 2, i, at) + flow_counted(g, params, w, j, 3, i, at)
}

proof fn lemma_flow_bounds(g: Grid, params: SimParams, w: Seq<CellView>, j: int, k: int, i: int, at: int)
    ensures
        0 <= flow_from(g, params, w, j, k) <= 65535,
        0 <= flow_counted(g, params, w, j, k, i, at) <= 65535,
{
    if let Some(q) = nbr_dir(g, j, dir_at(k)) {
        lemma_outflow_within_surplus(params, w[q].occupant);
    }
}

proof fn lemma_inflow_bounds(g: Grid, params: SimParams, w: Seq<CellView>, j: int, i: int, at: int)
    ensures
        0 <= inflow_so_far(g, params, w, j, i, at) <= 4 * 65535,
        0 <= inflow(g, params, w, j) <= 4 * 65535,
{
    lemma_flow_bounds(g, params, w, j, 0, i, at);
    lemma_flow_bounds(g, params, w, j, 1, i, at);
    lemma_flow_bounds(g, params, w, j, 2, i, at);
    lemma_flow_bounds(g, params, w, j, 3, i, at);
}

proof fn lemma_flow_edges(g: Grid, params: SimParams, w: Seq<CellView>, j: int, k: int, i: int)
    requires
        0 <= j < g.cells(),
        0 <= k < 4,
    ensures
        flow_counted(g, params, w, j, k, 0, 0) == 0,
        flow_counted(g, params, w, j, k, g.cells(), 0) == flow_from(g, params, w, j, k),
        flow_counted(g, params, w, j, k, i, 4) == flow_counted(g, params, w, j, k, i + 1, 0),
        per_target(params, w[i].occupant) == 0 ==> flow_counted(g, params, w, j, k, i, 0)
            == flow_counted(g, params, w, j, k, i + 1, 0),
{
    lemma_nbr_in_world(g, j, dx_of(dir_at(k)), dy_of(dir_at(k)));
}

proof fn lemma_inflow_edges(g: Grid, params: SimParams, w: Seq<CellView>, j: int, i: int)
    requires
        0 <= j < g.cells(),
    ensures
        inflow_so_far(g, params, w, j, 0, 0) == 0,
        inflow_so_far(g, params, w, j, g.cells(), 0) == inflow(g, params, w, j),
        inflow_so_far(g, params, w, j, i, 4) == inflow_so_far(g, params, w, j, i + 1, 0),
        per_target(params, w[i].occupant) == 0 ==> inflow_so_far(g, params, w, j, i, 0)
            == inflow_so_far(g, params, w, j, i + 1, 0),
{
    lemma_flow_edges(g, params, w, j, 0, i);
    lemma_flow_edges(g, params, w, j, 1, i);
    lemma_flow_edges(g, params, w, j, 2, i);
    lemma_flow_edges(g, params, w, j, 3, i);
}

/// Handling direction `at` of source `i` feeds the neighbour in that direction
/// and nobody else.
proof fn lemma_inflow_step(g: Grid, params: SimParams, w: Seq<CellView>, j: int, i: int, at: int)
    requires
        0 <= i < g.cells(),
        0 <= j < g.cells(),
        0 <= at < 4,
    ensures
        inflow_so_far(g, params, w, j, i, at + 1) == inflow_so_far(g, params, w, j, i, at) + (
        if nbr_dir(g, i, dir_at(at)) == Some(j) && targets_of(w[i].occupant).contains(dir_at(at)) {
            per_target(params, w[i].occupant)
        } else {
            0
        }),
{
    let k = opposite_at(at);
    lemma_nbr_symmetric(g, i, dx_of(dir_at(at)), dy_of(dir_at(at)));
    lemma_nbr_symmetric(g, j, dx_of(dir_at(k)), dy_of(dir_at(k)));
    assert(opposite(dir_at(k)) == dir_at(at));
    assert(dx_of(dir_at(k)) == -dx_of(dir_at(at)) && dy_of(dir_at(k)) == -dy_of(dir_at(at)));
}

/// Move surplus energy one step along the plants.
pub fn phase_push(chunks: &mut Vec<Chunk>, g: Grid, params: &SimParams)
    requires
        shaped(old(chunks)@, g),
    ensures
        same_layout(old(chunks)@, final(chunks)@),
        world_of(final(chunks)@) == directed_push(g, *params, world_of(old(chunks)@)),
{
    let n: usize = total_cells(g);
    let ghost w = world_of(chunks@);
    proof {
        lemma_world_len(chunks@, g);
    }
    let mut deltas: Vec<i32> = Vec::with_capacity(n);
    let mut i: usize = 0;
    while i < n
        invariant
            i <= n,
            deltas.len() == i,
            forall|j: int| 0 <= j < i ==> #[trigger] deltas@[j] == 0,
        decreases n - i,
    {
        deltas.push(0);
        i = i + 1;
    }
    i = 0;
    proof {
        assert forall|j: int| 0 <= j < n implies #[trigger] deltas@[j] == inflow_so_far(
            g,
            *params,
            w,
            j,
            0,
            0,
        ) by {
            lemma_inflow_edges(g, *params, w, j, 0);
        }
    }
    while i < n
        invariant
            i <= n,
            n == g.cells(),
            shaped(chunks@, g),
            world_of(chunks@) == w,
            w.len() == n,
            deltas.len() == n,
            forall|j: int|
                0 <= j < n ==> #[trigger] deltas@[j] == inflow_so_far(g, *params, w, j, i as int, 0)
                    - (if j < i {
                    outflow(*params, w[j].occupant)
                } else {
                    0
                }),
        decreases n - i,
    {
        let cell = cell_ref(chunks, g, i);
        let ghost occ = w[i as int].occupant;
        proof {
            lemma_outflow_within_surplus(*params, occ);
        }
        let energy: Energy = match occupant_energy(&cell.occupant) {
            Some(e) => e,
            None => 0,
        };
        let buffer: Energy = upkeep_for(params, &cell.occupant);
        let targets = push_targets(&cell.occupant);
        let each: Energy = if energy > buffer && targets.len() > 0 {
            (energy - buffer) / targets.len() as Energy
        } else {
            0
        };
        assert(each == per_target(*params, occ));
        if each > 0 {
            assert(each * targets.len() == outflow(*params, occ));
            let total: i32 = (each * targets.len() as Energy) as i32;
            proof {
                lemma_inflow_bounds(g, *params, w, i as int, i as int, 0);
            }
            let lowered: i32 = deltas[i] - total;
            deltas.set(i, lowered);
            let mut k: usize = 0;
            while k < 4
                invariant
                    k <= 4,
                    i < n,
                    n == g.cells(),
                    shaped(chunks@, g),
                    world_of(chunks@) == w,
                    w.len() == n,
                    deltas.len() == n,
                    cell@ == w[i as int],
                    each == per_target(*params, w[i as int].occupant),
                    forall|j: int|
                        0 <= j < n ==> #[trigger] deltas@[j] == inflow_so_far(
                            g,
                            *params,
                            w,
                            j,
                            i as int,
                            k as int,
                        ) - (if j <= i {
                            outflow(*params, w[j].occupant)
                        } else {
                            0
                        }),
                decreases 4 - k,
            {
                let d = nth_dir(k);
                let ghost before = deltas@;
                if pushes_to(&cell.occupant, d) {
                    if let Some(idx) = neighbor_in(g, i, d) {
                        proof {
                            lemma_inflow_bounds(g, *params, w, idx as int, i as int, k as int);
                            lemma_outflow_within_surplus(*params, w[idx as int].occupant);
                        }
                        let raised: i32 = deltas[idx] + each as i32;
                        deltas.set(idx, raised);
                    }
                }
                proof {
                    assert forall|j: int| 0 <= j < n implies #[trigger] deltas@[j] == inflow_so_far(
                        g,
                        *params,
                        w,
                        j,
                        i as int,
                        k + 1,
                    ) - (if j <= i {
                        outflow(*params, w[j].occupant)
                    } else {
                        0
                    }) by {
                        lemma_inflow_step(g, *params, w, j, i as int, k as int);
                        assert(before[j] == inflow_so_far(g, *params, w, j, i as int, k as int) - (
                        if j <= i {
                            outflow(*params, w[j].occupant)
                        } else {
                            0
                        }));
                    }
                }
                k = k + 1;
            }
        } else {
            assert(outflow(*params, occ) == 0) by (nonlinear_arith)
                requires
                    per_target(*params, occ) == 0,
                    outflow(*params, occ) == per_target(*params, occ) * targets_of(occ).len(),
            ;
        }
        proof {
            assert forall|j: int| 0 <= j < n implies #[trigger] deltas@[j] == inflow_so_far(
                g,
                *params,
                w,
                j,
                i + 1,
                0,
            ) - (if j <= i {
                outflow(*params, w[j].occupant)
            } else {
                0
            }) by {
                lemma_inflow_edges(g, *params, w, j, i as int);
            }
        }
        i = i + 1;
    }
    i = 0;
    while i < n
        invariant
            i <= n,
            n == g.cells(),
            shaped(chunks@, g),
            same_layout(old(chunks)@, chunks@),
            w.len() == n,
            deltas.len() == n,
            forall|j: int|
                0 <= j < n ==> #[trigger] deltas@[j] == inflow_so_far(
                    g,
                    *params,
                    w,
                    j,
                    g.cells(),
                    0,
                ) - outflow(*params, w[j].occupant),
            world_of(chunks@).len() == n,
            forall|j: int|
                0 <= j < n ==> #[trigger] world_of(chunks@)[j] == (if j < i {
                    pushed_cell(g, *params, w, j)
                } else {
                    w[j]
                }),
        decreases n - i,
    {
        proof {
            lemma_inflow_edges(g, *params, w, i as int, 0);
            lemma_inflow_bounds(g, *params, w, i as int, 0, 0);
            lemma_outflow_within_surplus(*params, w[i as int].occupant);
        }
        let delta: i32 = deltas[i];
        let cell = cell_mut(chunks, g, i);
        if let Some(e) = occupant_energy(&cell.occupant) {
            let total: i32 = e as i32 + delta;
            let new_e: Energy = if total > Energy::MAX as i32 {
                Energy::MAX
            } else {
                total as Energy
            };
            set_occupant_energy(&mut cell.occupant, new_e);
        }
        i = i + 1;
    }
    assert(world_of(chunks@) =~= directed_push(g, *params, w));
}

} // verus!
