//! What each phase does, told from the cells before it and after it.
use vstd::prelude::*;
use crate::grid::{bit_of, cell_towards, dir_at, dx_of, dy_of, has_dir, lemma_bits, lemma_mask_dirs};
use crate::grid::{lemma_nbr_apart, lemma_nbr_in_world, lemma_nbr_symmetric, mask_dirs, nbr, nbr_dir, opposite, Grid};
use crate::protocol::{CellView, Direction, Kernel, OccupantView, PlantId, SimParams};
use crate::sim::census::{census_of, count_kind, count_occupied, Census, Kind};
use crate::sim::death::{bereft, death, death_count, dies, dying_energy};
use crate::sim::deposit::{enriched, given, kernel_sum, lemma_deposit_within_energy, received};
use crate::sim::germinate::{departing, departs, germinated_cell, germinates, germination, germination_count};
use crate::sim::growth::{grower_count, growth, rng_before};
use crate::sim::occupant::{energy_of, is_producer, parent_of, targets_of};
use crate::sim::pull::{demand, gained, off_dx, off_dy, pulled_cell, soil_pulls, wanted, SoilField};
use crate::sim::push::{directed_push, flow_from, inflow, lemma_outflow_within_surplus, outflow, per_target};
use crate::sim::push::{pushed_cell, surplus};
use crate::sim::soil::{lit_cell, paid_cell, photosynthesis, regulation, upkeep};
use crate::sim::stem::{collected, drain_count, drain_links, drain_mask, drainage, drained_cell, drainer_at, drains, first_drainer};
use crate::sim::stem::{keeps_child, keeps_connection};
use crate::sim::stem::{kept_parent, lemma_mask_from, prune, prune_count, pruned_cell};
use crate::sim::tick::{after_germination, after_growth, after_push, after_upkeep, reports, tick, ticks};
use crate::sim::tick::{SimView, TickReport};
use crate::trial::counts_of;

verus! {

// ---------------------------------------------------------------------------
// Vocabulary
// ---------------------------------------------------------------------------
/// Whether two occupants differ in nothing but their energy.
pub open spec fn same_but_energy(a: OccupantView, b: OccupantView) -> bool {
    match (a, b) {
        (OccupantView::Empty, OccupantView::Empty) => true,
        (
            OccupantView::Leaf { plant: p, clan: c, facing: f, parent: q, .. },
            OccupantView::Leaf { plant, clan, facing, parent, .. },
        ) => p == plant && c == clan && f == facing && q == parent,
        (
            OccupantView::Root { plant: p, clan: c, parent: q, .. },
            OccupantView::Root { plant, clan, parent, .. },
        ) => p == plant && c == clan && q == parent,
        (
            OccupantView::Antenna { plant: p, clan: c, parent: q, .. },
            OccupantView::Antenna { plant, clan, parent, .. },
        ) => p == plant && c == clan && q == parent,
        (
            OccupantView::Stem { plant: p, clan: c, connections: n, parent: q, children: h, .. },
            OccupantView::Stem { plant, clan, connections, parent, children, .. },
        ) => p == plant && c == clan && n == connections && q == parent && h == children,
        (
            OccupantView::Sprout { plant: p, clan: c, facing: f, genome: g, parent: q, current_gene: k, .. },
            OccupantView::Sprout { plant, clan, facing, genome, parent, current_gene, .. },
        ) => p == plant && c == clan && f == facing && g == genome && q == parent && k == current_gene,
        (
            OccupantView::Seed { plant: p, clan: c, facing: f, genome: g, parent: q, .. },
            OccupantView::Seed { plant, clan, facing, genome, parent, .. },
        ) => p == plant && c == clan && f == facing && g == genome && q == parent,
        _ => false,
    }
}

/// Whether the second occupant is the first one without its parent.
pub open spec fn lost_its_parent(a: OccupantView, b: OccupantView) -> bool {
    match (a, b) {
        (
            OccupantView::Leaf { plant: p, clan: c, energy: e, facing: f, .. },
            OccupantView::Leaf { plant, clan, energy, facing, parent },
        ) => p == plant && c == clan && e == energy && f == facing && parent is None,
        (
            OccupantView::Root { plant: p, clan: c, energy: e, .. },
            OccupantView::Root { plant, clan, energy, parent },
        ) => p == plant && c == clan && e == energy && parent is None,
        (
            OccupantView::Antenna { plant: p, clan: c, energy: e, .. },
            OccupantView::Antenna { plant, clan, energy, parent },
        ) => p == plant && c == clan && e == energy && parent is None,
        (
            OccupantView::Stem { plant: p, clan: c, energy: e, connections: n, children: h, .. },
            OccupantView::Stem { plant, clan, energy, connections, parent, children },
        ) => p == plant && c == clan && e == energy && n == connections && h == children
            && parent is None,
        (
            OccupantView::Sprout { plant: p, clan: c, energy: e, facing: f, genome: g, current_gene: k, .. },
            OccupantView::Sprout { plant, clan, energy, facing, genome, parent, current_gene },
        ) => p == plant && c == clan && e == energy && f == facing && g == genome && k == current_gene
            && parent is None,
        (
            OccupantView::Seed { plant: p, clan: c, energy: e, facing: f, genome: g, .. },
            OccupantView::Seed { plant, clan, energy, facing, genome, parent },
        ) => p == plant && c == clan && e == energy && f == facing && g == genome && parent is None,
        _ => false,
    }
}

/// The direction in which the parent of an occupant lies.
pub open spec fn upwards(occ: OccupantView) -> Option<Direction> {
    match occ {
        OccupantView::Empty => None,
        OccupantView::Leaf { parent, .. } => parent,
        OccupantView::Root { parent, .. } => parent,
        OccupantView::Antenna { parent, .. } => parent,
        OccupantView::Stem { parent, .. } => parent,
        OccupantView::Sprout { parent, .. } => parent,
        OccupantView::Seed { parent, .. } => parent,
    }
}

/// Whether an occupant belongs to a plant.
pub open spec fn belongs(occ: OccupantView, to: PlantId) -> bool {
    match occ {
        OccupantView::Empty => false,
        OccupantView::Leaf { plant, .. } => plant == to,
        OccupantView::Root { plant, .. } => plant == to,
        OccupantView::Antenna { plant, .. } => plant == to,
        OccupantView::Stem { plant, .. } => plant == to,
        OccupantView::Sprout { plant, .. } => plant == to,
        OccupantView::Seed { plant, .. } => plant == to,
    }
}

/// What 16 bits hold of an amount.
pub open spec fn at_most_full(amount: int) -> int {
    if amount > 65535 {
        65535
    } else {
        amount
    }
}

/// The sum over the nine places of a 3x3 square, given their offsets.
pub open spec fn over_square(f: spec_fn(int, int) -> int) -> int {
    f(-1, -1) + f(0, -1) + f(1, -1) + f(-1, 0) + f(0, 0) + f(1, 0) + f(-1, 1) + f(0, 1) + f(1, 1)
}

/// Whether a cell keeps its light and the mark of its lineage.
pub open spec fn same_ground(a: CellView, b: CellView) -> bool {
    a.sunlit == b.sunlit && a.lineage_mutation_rate == b.lineage_mutation_rate
}

/// Whether a cell keeps its light, its mark and its soil.
pub open spec fn same_soil(a: CellView, b: CellView) -> bool {
    same_ground(a, b) && a.organic == b.organic && a.soil_energy == b.soil_energy
}

// ---------------------------------------------------------------------------
// Light, soil, upkeep
// ---------------------------------------------------------------------------
/// A leaf in the sun gains the photosynthesis of a tick, as far as it can hold it; in
/// the shade, and of other occupants, nothing changes.
pub proof fn lemma_sunlit_leaves_gain(params: SimParams, w: Seq<CellView>, i: int)
    requires
        0 <= i < w.len(),
    ensures
        ({
            let after = photosynthesis(params, w)[i];
            &&& photosynthesis(params, w).len() == w.len()
            &&& same_soil(w[i], after)
            &&& same_but_energy(w[i].occupant, after.occupant)
            &&& w[i].sunlit && w[i].occupant is Leaf ==> after.occupant->Leaf_energy == at_most_full(
                w[i].occupant->Leaf_energy + params.leaf_photosynthesis,
            )
            &&& !(w[i].sunlit && w[i].occupant is Leaf) ==> after == w[i]
        }),
{
    assert(photosynthesis(params, w)[i] == lit_cell(params, w[i]));
}

/// Soil energy moves one step towards its rest, or the whole way where less than a
/// step is left; nothing else changes.
pub proof fn lemma_soil_drifts_to_rest(params: SimParams, w: Seq<CellView>, i: int)
    requires
        0 <= i < w.len(),
    ensures
        ({
            let e = w[i].soil_energy;
            let rest = params.soil_energy_rest;
            let step = params.soil_energy_regulation;
            let after = regulation(params, w)[i];
            &&& regulation(params, w).len() == w.len()
            &&& same_ground(w[i], after) && after.organic == w[i].organic && after.occupant
                == w[i].occupant
            &&& e <= rest && rest - e >= step ==> after.soil_energy == e + step
            &&& e >= rest && e - rest >= step ==> after.soil_energy == e - step
            &&& -step <= e - rest <= step ==> after.soil_energy == rest
        }),
{
}

/// Every occupant pays: seeds and sprouts their own upkeep, all others the common one,
/// and whoever has less pays all it has. Nothing else changes.
pub proof fn lemma_everyone_pays(params: SimParams, w: Seq<CellView>, i: int)
    requires
        0 <= i < w.len(),
    ensures
        ({
            let occ = w[i].occupant;
            let after = upkeep(params, w)[i];
            let due = if occ is Seed {
                params.upkeep_seed
            } else if occ is Sprout {
                params.upkeep_sprout
            } else {
                params.upkeep_default
            };
            &&& upkeep(params, w).len() == w.len()
            &&& same_soil(w[i], after)
            &&& same_but_energy(occ, after.occupant)
            &&& energy_of(occ) matches Some(e) ==> energy_of(after.occupant) == Some(
                (if e < due {
                    0
                } else {
                    e - due
                }) as u16,
            )
        }),
{
    assert(upkeep(params, w)[i] == paid_cell(params, w[i]));
}

// ---------------------------------------------------------------------------
// Soil pulls
// ---------------------------------------------------------------------------
/// Whether an occupant draws on a field of the soil: roots on the organic matter,
/// antennae on the soil energy.
pub open spec fn draws(organic: bool, occ: OccupantView) -> bool {
    if organic {
        occ is Root
    } else {
        occ is Antenna
    }
}

/// The organic matter of a cell, or its soil energy.
pub open spec fn stock(organic: bool, c: CellView) -> u16 {
    if organic {
        c.organic
    } else {
        c.soil_energy
    }
}

/// What is asked of cell `j` by all who draw on it: each asks the low byte of the weight
/// that its kernel has where the cell lies, and all together at most 255.
pub open spec fn asked(g: Grid, kernel: Kernel, organic: bool, w: Seq<CellView>, j: int) -> int {
    let all = over_square(
        |dx: int, dy: int|
            match nbr(g, j, -dx, -dy) {
                Some(q) => if draws(organic, w[q].occupant) {
                    kernel[dy + 1][dx + 1] as int % 256
                } else {
                    0
                },
                None => 0,
            },
    );
    if all > 255 {
        255
    } else {
        all
    }
}

/// What a cell gives of what it has when so much is asked.
pub open spec fn yielded(has: u16, ask: int) -> int {
    if has < ask {
        has as int
    } else {
        ask
    }
}

/// What whoever stands at `p` and draws on the soil gets of the cell at a place around
/// it: the part of the yield that its weight has in all that is asked, rounded down.
#[verifier::opaque]
pub open spec fn part_of(
    g: Grid,
    kernel: Kernel,
    organic: bool,
    w: Seq<CellView>,
    p: int,
    dx: int,
    dy: int,
) -> int {
    match nbr(g, p, dx, dy) {
        Some(j) => {
            let ask = asked(g, kernel, organic, w, j);
            if ask == 0 {
                0
            } else {
                (kernel[dy + 1][dx + 1] * yielded(stock(organic, w[j]), ask)) / ask
            }
        },
        None => 0,
    }
}

/// What whoever stands at `p` and draws on the soil gets of the nine cells around it.
pub open spec fn due_to(g: Grid, kernel: Kernel, organic: bool, w: Seq<CellView>, p: int) -> int {
    over_square(|dx: int, dy: int| part_of(g, kernel, organic, w, p, dx, dy))
}

proof fn lemma_asked(g: Grid, kernel: Kernel, organic: bool, w: Seq<CellView>, j: int)
    ensures
        demand(
            g,
            kernel,
            if organic {
                SoilField::Organic
            } else {
                SoilField::Energy
            },
            w,
            j,
        ) == asked(g, kernel, organic, w, j),
{
    reveal_with_fuel(wanted, 10);
}

spec fn parts_upto(g: Grid, kernel: Kernel, organic: bool, w: Seq<CellView>, p: int, m: nat) -> int
    decreases m,
{
    if m == 0 {
        0
    } else {
        parts_upto(g, kernel, organic, w, p, (m - 1) as nat) + part_of(
            g,
            kernel,
            organic,
            w,
            p,
            off_dx(m - 1),
            off_dy(m - 1),
        )
    }
}

proof fn lemma_parts_upto(g: Grid, kernel: Kernel, organic: bool, w: Seq<CellView>, p: int, m: nat)
    requires
        m <= 9,
    ensures
        gained(
            g,
            kernel,
            if organic {
                SoilField::Organic
            } else {
                SoilField::Energy
            },
            w,
            p,
            m,
        ) == parts_upto(g, kernel, organic, w, p, m),
    decreases m,
{
    if m > 0 {
        lemma_parts_upto(g, kernel, organic, w, p, (m - 1) as nat);
        reveal(part_of);
        if let Some(j) = nbr(g, p, off_dx(m - 1), off_dy(m - 1)) {
            lemma_asked(g, kernel, organic, w, j);
        }
    }
}

proof fn lemma_due_to(g: Grid, kernel: Kernel, organic: bool, w: Seq<CellView>, p: int)
    ensures
        gained(
            g,
            kernel,
            if organic {
                SoilField::Organic
            } else {
                SoilField::Energy
            },
            w,
            p,
            9,
        ) == due_to(g, kernel, organic, w, p),
{
    lemma_parts_upto(g, kernel, organic, w, p, 9);
    reveal_with_fuel(parts_upto, 10);
}

/// Roots live on organic matter and antennae on soil energy: each gains its due of every
/// cell around it, as far as it can hold it, the soil loses what is asked of it as far as
/// it has it, and nothing else changes.
pub proof fn lemma_soil_feeds(g: Grid, params: SimParams, w: Seq<CellView>, p: int)
    requires
        0 <= p < w.len(),
    ensures
        ({
            let after = soil_pulls(g, params, w)[p];
            let occ = w[p].occupant;
            &&& soil_pulls(g, params, w).len() == w.len()
            &&& same_ground(w[p], after)
            &&& same_but_energy(occ, after.occupant)
            &&& after.organic == w[p].organic - yielded(
                w[p].organic,
                asked(g, params.root_pull_kernel, true, w, p),
            )
            &&& after.soil_energy == w[p].soil_energy - yielded(
                w[p].soil_energy,
                asked(g, params.antenna_pull_kernel, false, w, p),
            )
            &&& occ is Root ==> after.occupant->Root_energy == at_most_full(
                occ->Root_energy + due_to(g, params.root_pull_kernel, true, w, p),
            )
            &&& occ is Antenna ==> after.occupant->Antenna_energy == at_most_full(
                occ->Antenna_energy + due_to(g, params.antenna_pull_kernel, false, w, p),
            )
            &&& !(occ is Root) && !(occ is Antenna) ==> after.occupant == occ
        }),
{
    assert(soil_pulls(g, params, w)[p] == pulled_cell(g, params, w, p));
    lemma_asked(g, params.root_pull_kernel, true, w, p);
    lemma_asked(g, params.antenna_pull_kernel, false, w, p);
    lemma_due_to(g, params.root_pull_kernel, true, w, p);
    lemma_due_to(g, params.antenna_pull_kernel, false, w, p);
    lemma_asked_bounds(g, params.root_pull_kernel, true, w, p);
    lemma_asked_bounds(g, params.antenna_pull_kernel, false, w, p);
    lemma_due_bounds(g, params.root_pull_kernel, true, w, p);
    lemma_due_bounds(g, params.antenna_pull_kernel, false, w, p);
}

proof fn lemma_asked_bounds(g: Grid, kernel: Kernel, organic: bool, w: Seq<CellView>, j: int)
    ensures
        0 <= asked(g, kernel, organic, w, j) <= 255,
{
}

proof fn lemma_part(weight: u16, has: u16, ask: int)
    requires
        ask > 0,
    ensures
        0 <= (weight * yielded(has, ask)) / ask,
{
    let y = yielded(has, ask);
    assert(0 <= (weight * y) / ask) by (nonlinear_arith)
        requires
            0 <= weight,
            0 <= y,
            ask > 0,
    ;
}

proof fn lemma_due_bounds(g: Grid, kernel: Kernel, organic: bool, w: Seq<CellView>, p: int)
    ensures
        0 <= due_to(g, kernel, organic, w, p),
{
    let f = |dx: int, dy: int| part_of(g, kernel, organic, w, p, dx, dy);
    assert forall|dx: int, dy: int| -1 <= dx <= 1 && -1 <= dy <= 1 implies #[trigger] f(dx, dy) >= 0 by {
        reveal(part_of);
        if let Some(j) = nbr(g, p, dx, dy) {
            lemma_asked_bounds(g, kernel, organic, w, j);
            let ask = asked(g, kernel, organic, w, j);
            if ask != 0 {
                lemma_part(kernel[dy + 1][dx + 1], stock(organic, w[j]), ask);
            }
        }
    }
    assert(due_to(g, kernel, organic, w, p) == over_square(f));
}

/// Whether nobody else draws on a cell on which whoever stands at `p` draws.
pub open spec fn alone(g: Grid, w: Seq<CellView>, p: int, organic: bool) -> bool {
    forall|dx: int, dy: int, j: int, a: int, b: int, q: int|
        #![trigger nbr(g, p, dx, dy), nbr(g, j, a, b), w[q]]
        -1 <= dx <= 1 && -1 <= dy <= 1 && -1 <= a <= 1 && -1 <= b <= 1 && nbr(g, p, dx, dy) == Some(j)
            && nbr(g, j, a, b) == Some(q) && draws(organic, w[q].occupant) ==> q == p
}

proof fn lemma_alone_at(
    g: Grid,
    kernel: Kernel,
    w: Seq<CellView>,
    p: int,
    organic: bool,
    dx: int,
    dy: int,
)
    requires
        w.len() == g.cells(),
        0 <= p < w.len(),
        draws(organic, w[p].occupant),
        alone(g, w, p, organic),
        -1 <= dx <= 1,
        -1 <= dy <= 1,
        nbr(g, p, dx, dy) matches Some(j) && 0 < kernel[dy + 1][dx + 1] <= 255 && stock(organic, w[j])
            >= kernel[dy + 1][dx + 1],
    ensures
        asked(g, kernel, organic, w, nbr(g, p, dx, dy)->0) == kernel[dy + 1][dx + 1],
        part_of(g, kernel, organic, w, p, dx, dy) == kernel[dy + 1][dx + 1],
{
    let j = nbr(g, p, dx, dy)->0;
    let weight = kernel[dy + 1][dx + 1] as int;
    lemma_nbr_in_world(g, p, dx, dy);
    lemma_nbr_symmetric(g, p, dx, dy);
    let f = |a: int, b: int|
        match nbr(g, j, -a, -b) {
            Some(q) => if draws(organic, w[q].occupant) {
                kernel[b + 1][a + 1] as int % 256
            } else {
                0
            },
            None => 0,
        };
    assert forall|a: int, b: int| -1 <= a <= 1 && -1 <= b <= 1 implies #[trigger] f(a, b) == (if a == dx
        && b == dy {
        weight
    } else {
        0
    }) by {
        if let Some(q) = nbr(g, j, -a, -b) {
            assert(w[q] == w[q]);
            if draws(organic, w[q].occupant) {
                assert(q == p);
                lemma_nbr_apart(g, j, -a, -b, -dx, -dy);
            }
        }
    }
    assert(over_square(f) == weight) by {
        assert(f(-1, -1) == 0 || (dx == -1 && dy == -1));
        assert(f(0, -1) == 0 || (dx == 0 && dy == -1));
        assert(f(1, -1) == 0 || (dx == 1 && dy == -1));
        assert(f(-1, 0) == 0 || (dx == -1 && dy == 0));
        assert(f(0, 0) == 0 || (dx == 0 && dy == 0));
        assert(f(1, 0) == 0 || (dx == 1 && dy == 0));
        assert(f(-1, 1) == 0 || (dx == -1 && dy == 1));
        assert(f(0, 1) == 0 || (dx == 0 && dy == 1));
        assert(f(1, 1) == 0 || (dx == 1 && dy == 1));
        assert(f(dx, dy) == weight);
    }
    assert(asked(g, kernel, organic, w, j) == weight);
    assert((weight * weight) / weight == weight) by (nonlinear_arith)
        requires
            weight > 0,
    ;
    reveal(part_of);
}

/// Whoever draws alone on soil that has enough gets all it asks for: its energy rises by
/// the weights of the places around it that lie in the world, as far as it can hold them,
/// and each of these places loses its weight.
pub proof fn lemma_lone_puller_eats_its_fill(
    g: Grid,
    params: SimParams,
    w: Seq<CellView>,
    p: int,
    organic: bool,
)
    requires
        w.len() == g.cells(),
        0 <= p < w.len(),
        draws(organic, w[p].occupant),
        ({
            let kernel = if organic {
                params.root_pull_kernel
            } else {
                params.antenna_pull_kernel
            };
            &&& forall|dx: int, dy: int|
                -1 <= dx <= 1 && -1 <= dy <= 1 ==> (#[trigger] nbr(g, p, dx, dy) matches Some(j)
                    ==> 0 < kernel[dy + 1][dx + 1] <= 255 && stock(organic, w[j]) >= kernel[dy + 1][dx + 1])
            &&& alone(g, w, p, organic)
        }),
    ensures
        ({
            let kernel = if organic {
                params.root_pull_kernel
            } else {
                params.antenna_pull_kernel
            };
            let after = soil_pulls(g, params, w);
            let meal = over_square(
                |dx: int, dy: int|
                    if nbr(g, p, dx, dy) is Some {
                        kernel[dy + 1][dx + 1] as int
                    } else {
                        0
                    },
            );
            &&& energy_of(after[p].occupant) == Some(
                at_most_full(energy_of(w[p].occupant)->0 + meal) as u16,
            )
            &&& forall|dx: int, dy: int|
                -1 <= dx <= 1 && -1 <= dy <= 1 ==> (#[trigger] nbr(g, p, dx, dy) matches Some(j)
                    ==> stock(organic, after[j]) == stock(organic, w[j]) - kernel[dy + 1][dx + 1])
        }),
{
    let kernel = if organic {
        params.root_pull_kernel
    } else {
        params.antenna_pull_kernel
    };
    lemma_soil_feeds(g, params, w, p);
    assert forall|dx: int, dy: int|
        -1 <= dx <= 1 && -1 <= dy <= 1 implies (#[trigger] nbr(g, p, dx, dy) matches Some(j) ==> stock(
        organic,
        soil_pulls(g, params, w)[j],
    ) == stock(organic, w[j]) - kernel[dy + 1][dx + 1]) by {
        if let Some(j) = nbr(g, p, dx, dy) {
            lemma_alone_at(g, kernel, w, p, organic, dx, dy);
            lemma_nbr_in_world(g, p, dx, dy);
            lemma_soil_feeds(g, params, w, j);
        }
    }
    let f = |dx: int, dy: int| part_of(g, kernel, organic, w, p, dx, dy);
    let meal = |dx: int, dy: int|
        if nbr(g, p, dx, dy) is Some {
            kernel[dy + 1][dx + 1] as int
        } else {
            0
        };
    assert forall|dx: int, dy: int| -1 <= dx <= 1 && -1 <= dy <= 1 implies #[trigger] f(dx, dy) == meal(
        dx,
        dy,
    ) by {
        if nbr(g, p, dx, dy) is Some {
            lemma_alone_at(g, kernel, w, p, organic, dx, dy);
        } else {
            reveal(part_of);
        }
    }
    assert(over_square(f) == over_square(meal));
    assert(due_to(g, kernel, organic, w, p) == over_square(f));
}

// ---------------------------------------------------------------------------
// Links
// ---------------------------------------------------------------------------
/// Pruning keeps of a stem exactly the child links that lead to sprouts, seeds and stems
/// of its plant, the parent link if it leads to its plant, and the connections that lead
/// to that parent, to its plant or to nobody. Nothing else changes.
pub proof fn lemma_prune_keeps_links_to_kin(g: Grid, w: Seq<CellView>, i: int, d: Direction)
    requires
        0 <= i < w.len(),
    ensures
        prune(g, w).len() == w.len(),
        same_soil(w[i], prune(g, w)[i]),
        !(w[i].occupant is Stem) ==> prune(g, w)[i] == w[i],
        match (w[i].occupant, prune(g, w)[i].occupant) {
            (
                OccupantView::Stem { plant, clan, energy, connections, parent, children },
                OccupantView::Stem {
                    plant: p,
                    clan: c,
                    energy: e,
                    connections: links,
                    parent: up,
                    children: down,
                },
            ) => {
                &&& p == plant && c == clan && e == energy
                &&& has_dir(down, d) == (has_dir(children, d) && (cell_towards(g, w, i, d) matches Some(
                    there,
                ) && (there.occupant is Sprout || there.occupant is Seed || there.occupant is Stem)
                    && belongs(there.occupant, plant)))
                &&& (up == Some(d)) == (parent == Some(d) && (cell_towards(g, w, i, d) matches Some(
                    there,
                ) && belongs(there.occupant, plant)))
                &&& has_dir(links, d) == (has_dir(connections, d) && (up == Some(d) || (cell_towards(
                    g,
                    w,
                    i,
                    d,
                ) matches Some(there) && (there.occupant is Empty || belongs(there.occupant, plant)))))
            },
            (before, after) => !(before is Stem) && !(after is Stem),
        },
{
    assert(prune(g, w)[i] == pruned_cell(g, w, i));
    if let OccupantView::Stem { plant, connections, parent, children, .. } = w[i].occupant {
        lemma_mask_from(
            keeps_child(g, w, i, plant, children, Direction::North),
            keeps_child(g, w, i, plant, children, Direction::East),
            keeps_child(g, w, i, plant, children, Direction::South),
            keeps_child(g, w, i, plant, children, Direction::West),
        );
        let up = kept_parent(g, w, i, plant, parent);
        lemma_mask_from(
            keeps_connection(g, w, i, plant, connections, up, Direction::North),
            keeps_connection(g, w, i, plant, connections, up, Direction::East),
            keeps_connection(g, w, i, plant, connections, up, Direction::South),
            keeps_connection(g, w, i, plant, connections, up, Direction::West),
        );
    }
}

/// Whether a child link of the stem at `p` leads in direction `d` to a dead end at `q`: a
/// stem of the same plant without child links.
pub open spec fn leads_to_end(g: Grid, w: Seq<CellView>, p: int, d: Direction, q: int) -> bool {
    &&& nbr_dir(g, p, d) == Some(q)
    &&& match (w[p].occupant, w[q].occupant) {
        (
            OccupantView::Stem { plant, children, .. },
            OccupantView::Stem { plant: other, children: below, .. },
        ) => has_dir(children, d) && other == plant && below == 0,
        _ => false,
    }
}

/// Whether the stem at `p` is the first of all that lead to the dead end at `q`.
pub open spec fn first_to_end(g: Grid, w: Seq<CellView>, p: int, q: int) -> bool {
    forall|r: int, d: Direction|
        0 <= r < w.len() && #[trigger] leads_to_end(g, w, r, d, q) ==> p <= r
}

/// What the stem at `p` draws from direction `d`.
pub open spec fn drawn_from(g: Grid, w: Seq<CellView>, p: int, d: Direction) -> int {
    match nbr_dir(g, p, d) {
        Some(q) => if leads_to_end(g, w, p, d, q) && first_to_end(g, w, p, q) {
            w[q].occupant->Stem_energy as int
        } else {
            0
        },
        None => 0,
    }
}

spec fn place_of(d: Direction) -> int {
    match d {
        Direction::North => 0,
        Direction::East => 1,
        Direction::South => 2,
        Direction::West => 3,
    }
}

proof fn lemma_first_is_least(g: Grid, w: Seq<CellView>, q: int)
    ensures
        match first_drainer(g, w, q, 4) {
            Some(a) => {
                &&& exists|k: int| 0 <= k < 4 && #[trigger] drainer_at(g, w, q, k) == Some(a)
                &&& forall|k: int|
                    0 <= k < 4 ==> (#[trigger] drainer_at(g, w, q, k) matches Some(b) ==> a <= b)
            },
            None => forall|k: int| 0 <= k < 4 ==> #[trigger] drainer_at(g, w, q, k) is None,
        },
{
    reveal_with_fuel(first_drainer, 5);
    let n = drainer_at(g, w, q, 0);
    let e = drainer_at(g, w, q, 1);
    let s = drainer_at(g, w, q, 2);
    let t = drainer_at(g, w, q, 3);
    assert forall|k: int| 0 <= k < 4 implies #[trigger] drainer_at(g, w, q, k) == (if k == 0 {
        n
    } else if k == 1 {
        e
    } else if k == 2 {
        s
    } else {
        t
    }) by {}
}

proof fn lemma_leads_to_end(g: Grid, w: Seq<CellView>, p: int, d: Direction, q: int)
    requires
        w.len() == g.cells(),
        0 <= p < w.len(),
        leads_to_end(g, w, p, d, q),
    ensures
        0 <= q < w.len(),
        drains(g, w, p, d) == Some(q),
        drainer_at(g, w, q, place_of(opposite(d))) == Some(p),
{
    lemma_nbr_in_world(g, p, dx_of(d), dy_of(d));
    lemma_nbr_symmetric(g, p, dx_of(d), dy_of(d));
    let o = opposite(d);
    assert(dx_of(o) == -dx_of(d) && dy_of(o) == -dy_of(d));
    assert(dir_at(place_of(o)) == o);
    assert(opposite(o) == d);
    assert(nbr_dir(g, q, o) == Some(p));
}

proof fn lemma_drained_end(g: Grid, w: Seq<CellView>, q: int, k: int)
    requires
        w.len() == g.cells(),
        0 <= q < w.len(),
        0 <= k < 4,
        drainer_at(g, w, q, k) is Some,
    ensures
        leads_to_end(g, w, drainer_at(g, w, q, k)->0, opposite(dir_at(k)), q),
        0 <= drainer_at(g, w, q, k)->0 < w.len(),
{
    let d = dir_at(k);
    lemma_nbr_in_world(g, q, dx_of(d), dy_of(d));
}

proof fn lemma_first_to_end(g: Grid, w: Seq<CellView>, p: int, d: Direction, q: int)
    requires
        w.len() == g.cells(),
        0 <= p < w.len(),
        leads_to_end(g, w, p, d, q),
    ensures
        (first_drainer(g, w, q, 4) == Some(p)) == first_to_end(g, w, p, q),
        first_drainer(g, w, q, 4) is Some,
{
    lemma_leads_to_end(g, w, p, d, q);
    lemma_first_is_least(g, w, q);
    let a = first_drainer(g, w, q, 4)->0;
    assert(drainer_at(g, w, q, place_of(opposite(d))) is Some);
    let k = choose|k: int| 0 <= k < 4 && #[trigger] drainer_at(g, w, q, k) == Some(a);
    lemma_drained_end(g, w, q, k);
    assert(leads_to_end(g, w, a, opposite(dir_at(k)), q));
    assert forall|r: int, e: Direction|
        0 <= r < w.len() && #[trigger] leads_to_end(g, w, r, e, q) implies a <= r by {
        lemma_leads_to_end(g, w, r, e, q);
        assert(drainer_at(g, w, q, place_of(opposite(e))) == Some(r));
    }
}

/// Drainage empties every dead end to which some stem leads, and no other; a stem gains
/// what the dead ends held to which it is the first to lead, as far as it can hold it, and
/// drops its child links to dead ends. Nothing else changes.
pub proof fn lemma_drainage_empties_dead_ends(g: Grid, w: Seq<CellView>, i: int, d: Direction)
    requires
        w.len() == g.cells(),
        0 <= i < w.len(),
    ensures
        drainage(g, w).len() == w.len(),
        same_soil(w[i], drainage(g, w)[i]),
        !(w[i].occupant is Stem) ==> drainage(g, w)[i] == w[i],
        match (w[i].occupant, drainage(g, w)[i].occupant) {
            (
                OccupantView::Stem { plant, clan, energy, connections, parent, children },
                OccupantView::Stem {
                    plant: p,
                    clan: c,
                    energy: e,
                    connections: links,
                    parent: up,
                    children: down,
                },
            ) => {
                &&& p == plant && c == clan && links == connections && up == parent
                &&& children == 0 ==> down == 0
                &&& children == 0 && (exists|r: int, b: Direction|
                    0 <= r < w.len() && #[trigger] leads_to_end(g, w, r, b, i)) ==> e == 0
                &&& children == 0 && !(exists|r: int, b: Direction|
                    0 <= r < w.len() && #[trigger] leads_to_end(g, w, r, b, i)) ==> e == energy
                &&& children != 0 ==> e == at_most_full(
                    energy + drawn_from(g, w, i, Direction::North) + drawn_from(
                        g,
                        w,
                        i,
                        Direction::East,
                    ) + drawn_from(g, w, i, Direction::South) + drawn_from(g, w, i, Direction::West),
                )
                &&& has_dir(down, d) == (has_dir(children, d) && !(nbr_dir(g, i, d) matches Some(q)
                    && leads_to_end(g, w, i, d, q)))
            },
            (before, after) => !(before is Stem) && !(after is Stem),
        },
{
    assert(drainage(g, w)[i] == drained_cell(g, w, i));
    if let OccupantView::Stem { energy, children, .. } = w[i].occupant {
        lemma_first_is_least(g, w, i);
        if children == 0 {
            if exists|r: int, b: Direction| 0 <= r < w.len() && #[trigger] leads_to_end(g, w, r, b, i) {
                let (r, b) = choose|r: int, b: Direction|
                    0 <= r < w.len() && #[trigger] leads_to_end(g, w, r, b, i);
                lemma_first_to_end(g, w, r, b, i);
            } else if first_drainer(g, w, i, 4) is Some {
                let a = first_drainer(g, w, i, 4)->0;
                let k = choose|k: int| 0 <= k < 4 && #[trigger] drainer_at(g, w, i, k) == Some(a);
                lemma_drained_end(g, w, i, k);
                assert(false);
            }
            lemma_bits(d, d);
        } else {
            assert forall|b: Direction| true implies drains(g, w, i, b) == (if nbr_dir(
                g,
                i,
                b,
            ) matches Some(q) && leads_to_end(g, w, i, b, q) {
                nbr_dir(g, i, b)
            } else {
                None
            }) && (match #[trigger] drains(g, w, i, b) {
                Some(q) => if first_drainer(g, w, q, 4) == Some(i) {
                    w[q].occupant->Stem_energy as int
                } else {
                    0
                },
                None => 0,
            }) == drawn_from(g, w, i, b) by {
                if let Some(q) = nbr_dir(g, i, b) {
                    if leads_to_end(g, w, i, b, q) {
                        lemma_first_to_end(g, w, i, b, q);
                    }
                }
            }
            reveal_with_fuel(collected, 5);
            assert(drains(g, w, i, dir_at(0)) == drains(g, w, i, Direction::North));
            assert(drains(g, w, i, dir_at(1)) == drains(g, w, i, Direction::East));
            assert(drains(g, w, i, dir_at(2)) == drains(g, w, i, Direction::South));
            assert(drains(g, w, i, dir_at(3)) == drains(g, w, i, Direction::West));
            assert(collected(g, w, i, 4) == drawn_from(g, w, i, Direction::North) + drawn_from(
                g,
                w,
                i,
                Direction::East,
            ) + drawn_from(g, w, i, Direction::South) + drawn_from(g, w, i, Direction::West));
            lemma_mask_from(
                drains(g, w, i, Direction::North) is Some,
                drains(g, w, i, Direction::East) is Some,
                drains(g, w, i, Direction::South) is Some,
                drains(g, w, i, Direction::West) is Some,
            );
            let m = drain_mask(g, w, i);
            let bit = bit_of(d);
            assert(has_dir(m, d) == (drains(g, w, i, d) is Some));
            lemma_cleared(children, m, d);
        }
    }
}

/// Clearing the bits of a mask clears exactly the directions that it names.
proof fn lemma_cleared(links: u8, m: u8, d: Direction)
    ensures
        has_dir(links & !m, d) == (has_dir(links, d) && !has_dir(m, d)),
{
    let one = bit_of(d);
    assert(((links & !m) & one != 0) == (links & one != 0 && !(m & one != 0))) by (bit_vector)
        requires
            one == 1 || one == 2 || one == 4 || one == 8,
    ;
}

// ---------------------------------------------------------------------------
// Directed push
// ---------------------------------------------------------------------------
/// How many of the four directions a mask names.
pub open spec fn branches(mask: u8) -> int {
    (if has_dir(mask, Direction::North) {
        1int
    } else {
        0
    }) + (if has_dir(mask, Direction::East) {
        1int
    } else {
        0
    }) + (if has_dir(mask, Direction::South) {
        1int
    } else {
        0
    }) + (if has_dir(mask, Direction::West) {
        1int
    } else {
        0
    })
}

/// What an energy leaves above the upkeep that all but seeds and sprouts keep back.
pub open spec fn spare(params: SimParams, energy: u16) -> int {
    if energy > params.upkeep_default {
        energy - params.upkeep_default
    } else {
        0
    }
}

/// What an occupant hands on in a direction: leaves, roots and antennae all that they can
/// spare to their parent, stems an equal part of it to each child, seeds and sprouts
/// nothing.
pub open spec fn handed_on(params: SimParams, occ: OccupantView, d: Direction) -> int {
    match occ {
        OccupantView::Leaf { energy, parent, .. } => if parent == Some(d) {
            spare(params, energy)
        } else {
            0
        },
        OccupantView::Root { energy, parent, .. } => if parent == Some(d) {
            spare(params, energy)
        } else {
            0
        },
        OccupantView::Antenna { energy, parent, .. } => if parent == Some(d) {
            spare(params, energy)
        } else {
            0
        },
        OccupantView::Stem { energy, children, .. } => if has_dir(children, d) {
            spare(params, energy) / branches(children)
        } else {
            0
        },
        _ => 0,
    }
}

/// What an occupant hands on in all directions together.
pub open spec fn handed_out(params: SimParams, occ: OccupantView) -> int {
    handed_on(params, occ, Direction::North) + handed_on(params, occ, Direction::East) + handed_on(
        params,
        occ,
        Direction::South,
    ) + handed_on(params, occ, Direction::West)
}

/// What the neighbour in direction `d` hands to cell `j`.
pub open spec fn handed_by(g: Grid, params: SimParams, w: Seq<CellView>, j: int, d: Direction) -> int {
    match nbr_dir(g, j, d) {
        Some(q) => handed_on(params, w[q].occupant, opposite(d)),
        None => 0,
    }
}

/// What all four neighbours hand to cell `j`.
pub open spec fn handed_in(g: Grid, params: SimParams, w: Seq<CellView>, j: int) -> int {
    handed_by(g, params, w, j, Direction::North) + handed_by(g, params, w, j, Direction::East)
        + handed_by(g, params, w, j, Direction::South) + handed_by(g, params, w, j, Direction::West)
}

proof fn lemma_branches(mask: u8)
    ensures
        mask_dirs(mask, 4).len() == branches(mask),
{
    reveal_with_fuel(mask_dirs, 5);
}

proof fn lemma_handed_on(params: SimParams, occ: OccupantView, d: Direction)
    ensures
        (if targets_of(occ).contains(d) {
            per_target(params, occ)
        } else {
            0
        }) == handed_on(params, occ, d),
        0 <= handed_on(params, occ, d),
{
    lemma_outflow_within_surplus(params, occ);
    match occ {
        OccupantView::Stem { children, .. } => {
            lemma_mask_dirs(children, d);
            lemma_branches(children);
        },
        _ => {
            if is_producer(occ) {
                if let Some(up) = parent_of(occ) {
                    assert(targets_of(occ) == seq![up]);
                    assert(targets_of(occ)[0] == up);
                    assert(targets_of(occ).contains(d) == (up == d));
                    assert(surplus(params, occ) / 1 == surplus(params, occ));
                }
            }
        },
    }
}

proof fn lemma_handed_out(params: SimParams, occ: OccupantView)
    ensures
        outflow(params, occ) == handed_out(params, occ),
{
    let n = Direction::North;
    let e = Direction::East;
    let s = Direction::South;
    let t = Direction::West;
    lemma_handed_on(params, occ, n);
    lemma_handed_on(params, occ, e);
    lemma_handed_on(params, occ, s);
    lemma_handed_on(params, occ, t);
    let each = per_target(params, occ);
    match occ {
        OccupantView::Stem { children, .. } => {
            lemma_branches(children);
            lemma_mask_dirs(children, n);
            lemma_mask_dirs(children, e);
            lemma_mask_dirs(children, s);
            lemma_mask_dirs(children, t);
            let b = branches(children);
            assert(each * b == (if has_dir(children, n) {
                each
            } else {
                0
            }) + (if has_dir(children, e) {
                each
            } else {
                0
            }) + (if has_dir(children, s) {
                each
            } else {
                0
            }) + (if has_dir(children, t) {
                each
            } else {
                0
            })) by {
                assert(each * 0 == 0 && each * 1 == each && each * 2 == each + each && each * 3 == each
                    + each + each && each * 4 == each + each + each + each) by (nonlinear_arith);
            }
        },
        _ => {
            if is_producer(occ) && parent_of(occ) is Some {
                let up = parent_of(occ)->0;
                assert(targets_of(occ) == seq![up]);
                assert(targets_of(occ)[0] == up);
                assert(targets_of(occ).len() == 1);
                assert(each * 1 == each);
            } else {
                assert(targets_of(occ).len() == 0);
                assert(each * 0 == 0);
            }
        },
    }
}

/// Surplus flows: every occupant ends with what it had, less what it hands on, and with
/// what its neighbours hand to it, as far as it can hold it. Nothing else changes.
pub proof fn lemma_surplus_flows(g: Grid, params: SimParams, w: Seq<CellView>, j: int)
    requires
        0 <= j < w.len(),
    ensures
        ({
            let after = directed_push(g, params, w)[j];
            &&& directed_push(g, params, w).len() == w.len()
            &&& same_soil(w[j], after)
            &&& same_but_energy(w[j].occupant, after.occupant)
            &&& energy_of(w[j].occupant) matches Some(e) ==> {
                &&& 0 <= handed_out(params, w[j].occupant) <= e
                &&& 0 <= handed_in(g, params, w, j)
                &&& energy_of(after.occupant) == Some(
                    at_most_full(
                        e - handed_out(params, w[j].occupant) + handed_in(g, params, w, j),
                    ) as u16,
                )
            }
        }),
{
    assert(directed_push(g, params, w)[j] == pushed_cell(g, params, w, j));
    lemma_handed_out(params, w[j].occupant);
    lemma_outflow_within_surplus(params, w[j].occupant);
    assert forall|k: int| 0 <= k < 4 implies #[trigger] flow_from(g, params, w, j, k) == handed_by(
        g,
        params,
        w,
        j,
        dir_at(k),
    ) && 0 <= flow_from(g, params, w, j, k) by {
        if let Some(q) = nbr_dir(g, j, dir_at(k)) {
            lemma_handed_on(params, w[q].occupant, opposite(dir_at(k)));
        }
    }
    assert(flow_from(g, params, w, j, 0) == handed_by(g, params, w, j, Direction::North));
    assert(flow_from(g, params, w, j, 1) == handed_by(g, params, w, j, Direction::East));
    assert(flow_from(g, params, w, j, 2) == handed_by(g, params, w, j, Direction::South));
    assert(flow_from(g, params, w, j, 3) == handed_by(g, params, w, j, Direction::West));
}

/// A leaf, root or antenna with a parent keeps nothing but its upkeep: what it has above
/// goes to the parent, and it ends with its upkeep and what was handed to it meanwhile.
pub proof fn lemma_producers_hand_on_their_surplus(
    g: Grid,
    params: SimParams,
    w: Seq<CellView>,
    i: int,
    up: Direction,
)
    requires
        w.len() == g.cells(),
        0 <= i < w.len(),
        w[i].occupant is Leaf || w[i].occupant is Root || w[i].occupant is Antenna,
        upwards(w[i].occupant) == Some(up),
        energy_of(w[i].occupant) matches Some(e) && e > params.upkeep_default,
    ensures
        ({
            let after = directed_push(g, params, w);
            let e = energy_of(w[i].occupant)->0;
            &&& energy_of(after[i].occupant) == Some(
                at_most_full(params.upkeep_default + handed_in(g, params, w, i)) as u16,
            )
            &&& nbr_dir(g, i, up) matches Some(q) ==> w[q].occupant is Empty || energy_of(
                after[q].occupant,
            )->0 >= e - params.upkeep_default
        }),
{
    lemma_surplus_flows(g, params, w, i);
    assert(handed_out(params, w[i].occupant) == energy_of(w[i].occupant)->0 - params.upkeep_default);
    if let Some(q) = nbr_dir(g, i, up) {
        lemma_nbr_in_world(g, i, dx_of(up), dy_of(up));
        lemma_nbr_symmetric(g, i, dx_of(up), dy_of(up));
        let o = opposite(up);
        assert(dx_of(o) == -dx_of(up) && dy_of(o) == -dy_of(up));
        assert(opposite(o) == up);
        lemma_surplus_flows(g, params, w, q);
        assert(handed_by(g, params, w, q, o) == energy_of(w[i].occupant)->0 - params.upkeep_default);
        assert forall|d: Direction| 0 <= #[trigger] handed_by(g, params, w, q, d) by {
            if let Some(r) = nbr_dir(g, q, d) {
                lemma_handed_on(params, w[r].occupant, opposite(d));
            }
        }
        assert(0 <= handed_by(g, params, w, q, Direction::North));
        assert(0 <= handed_by(g, params, w, q, Direction::East));
        assert(0 <= handed_by(g, params, w, q, Direction::South));
        assert(0 <= handed_by(g, params, w, q, Direction::West));
    }
}

// ---------------------------------------------------------------------------
// Germination
// ---------------------------------------------------------------------------
/// Whether a direction leads to nobody: to an empty cell or out of the world.
pub open spec fn nobody_at(g: Grid, w: Seq<CellView>, i: int, d: Direction) -> bool {
    match nbr_dir(g, i, d) {
        Some(q) => w[q].occupant is Empty,
        None => true,
    }
}

/// How many of the first `m` cells held a seed before and hold a sprout after.
pub open spec fn seeds_sprouted(w: Seq<CellView>, after: Seq<CellView>, m: nat) -> nat
    decreases m,
{
    if m == 0 {
        0
    } else {
        seeds_sprouted(w, after, (m - 1) as nat) + if w[m - 1].occupant is Seed && after[m
            - 1].occupant is Sprout {
            1nat
        } else {
            0
        }
    }
}

proof fn lemma_seeds_sprouted(
    g: Grid,
    params: SimParams,
    w: Seq<CellView>,
    next_id: PlantId,
    m: nat,
)
    requires
        m <= w.len(),
    ensures
        germination_count(g, params, w, m) == seeds_sprouted(
            w,
            germination(g, params, w, next_id),
            m,
        ),
    decreases m,
{
    if m > 0 {
        lemma_seeds_sprouted(g, params, w, next_id, (m - 1) as nat);
        assert(germination(g, params, w, next_id)[m - 1] == germinated_cell(
            g,
            params,
            w,
            next_id,
            m - 1,
        ));
    }
}

/// A seed that has saved up enough, or whose parent is gone, becomes the sprout of a new
/// plant: with its clan, energy, facing and genome, no parent, and the first gene to read.
/// New plants are numbered in scan order. A stem drops its child links to the seeds that
/// leave it because they have enough. Nothing else changes.
pub proof fn lemma_ripe_seeds_sprout(
    g: Grid,
    params: SimParams,
    w: Seq<CellView>,
    next_id: PlantId,
    i: int,
    d: Direction,
)
    requires
        0 <= i < w.len(),
    ensures
        ({
            let after = germination(g, params, w, next_id);
            &&& after.len() == w.len()
            &&& same_soil(w[i], after[i])
            &&& match w[i].occupant {
                OccupantView::Seed { clan, energy, facing, genome, parent, .. } => if energy
                    >= params.seed_dropoff_threshold || (parent matches Some(up) && nobody_at(g, w, i, up)) {
                    after[i].occupant == (OccupantView::Sprout {
                        plant: ((next_id + seeds_sprouted(w, after, i as nat)) % 0x1_0000_0000) as u32,
                        clan,
                        energy,
                        facing,
                        genome,
                        parent: None,
                        current_gene: 0,
                    })
                } else {
                    after[i] == w[i]
                },
                OccupantView::Stem { plant, clan, energy, connections, parent, children } => {
                    match after[i].occupant {
                        OccupantView::Stem {
                            plant: p,
                            clan: c,
                            energy: e,
                            connections: links,
                            parent: up,
                            children: down,
                        } => {
                            &&& p == plant && c == clan && e == energy && links == connections && up
                                == parent
                            &&& has_dir(down, d) == (has_dir(children, d) && !(cell_towards(
                                g,
                                w,
                                i,
                                d,
                            ) matches Some(there) && (there.occupant matches OccupantView::Seed {
                                energy: saved,
                                parent: from,
                                ..
                            } && from == Some(opposite(d)) && saved >= params.seed_dropoff_threshold)))
                        },
                        _ => false,
                    }
                },
                _ => after[i] == w[i],
            }
        }),
        germination_count(g, params, w, w.len()) == seeds_sprouted(
            w,
            germination(g, params, w, next_id),
            w.len(),
        ),
{
    assert(germination(g, params, w, next_id)[i] == germinated_cell(g, params, w, next_id, i));
    lemma_seeds_sprouted(g, params, w, next_id, i as nat);
    lemma_seeds_sprouted(g, params, w, next_id, w.len());
    if let OccupantView::Stem { children, .. } = w[i].occupant {
        lemma_mask_from(
            departs(g, params, w, i, Direction::North),
            departs(g, params, w, i, Direction::East),
            departs(g, params, w, i, Direction::South),
            departs(g, params, w, i, Direction::West),
        );
        lemma_cleared(children, departing(g, params, w, i), d);
    }
}

// ---------------------------------------------------------------------------
// Death
// ---------------------------------------------------------------------------
/// Whether an occupant has nothing to live on or for: no energy, nowhere to push any, or
/// soil that it does not bear.
pub open spec fn doomed(g: Grid, params: SimParams, w: Seq<CellView>, i: int) -> bool {
    let occ = w[i].occupant;
    ||| energy_of(occ) == Some(0u16)
    ||| (occ is Leaf || occ is Root || occ is Antenna) && match upwards(occ) {
        Some(up) => nobody_at(g, w, i, up),
        None => true,
    }
    ||| (occ matches OccupantView::Stem { children, parent, .. } && children == 0 && parent is None)
    ||| !(occ is Empty) && !(occ is Root) && w[i].organic > params.soil_organic_poison
    ||| !(occ is Empty) && !(occ is Antenna) && w[i].soil_energy > params.soil_energy_poison
}

/// How many of the first `m` cells were occupied before and are empty after.
pub open spec fn emptied(w: Seq<CellView>, after: Seq<CellView>, m: nat) -> nat
    decreases m,
{
    if m == 0 {
        0
    } else {
        emptied(w, after, (m - 1) as nat) + if !(w[m - 1].occupant is Empty) && after[m
            - 1].occupant is Empty {
            1nat
        } else {
            0
        }
    }
}

proof fn lemma_doomed(g: Grid, params: SimParams, w: Seq<CellView>, i: int)
    ensures
        dies(g, params, w, i) == doomed(g, params, w, i),
        doomed(g, params, w, i) ==> !(w[i].occupant is Empty),
{
}

proof fn lemma_emptied(g: Grid, params: SimParams, w: Seq<CellView>, m: nat)
    requires
        m <= w.len(),
    ensures
        death_count(g, params, w, m) == emptied(w, death(g, params, w), m),
    decreases m,
{
    if m > 0 {
        lemma_emptied(g, params, w, (m - 1) as nat);
        lemma_doomed(g, params, w, m - 1);
        assert(death(g, params, w)[m - 1].occupant == bereft(g, params, w, m - 1));
    }
}

/// Death takes exactly the doomed: their cells are empty after it, and each is counted.
/// All others live on as they were, except that whoever had one of the dead as parent has
/// no parent any more.
pub proof fn lemma_death_takes_the_doomed(g: Grid, params: SimParams, w: Seq<CellView>, i: int)
    requires
        w.len() == g.cells(),
        0 <= i < w.len(),
    ensures
        ({
            let after = death(g, params, w);
            &&& after.len() == w.len()
            &&& same_ground(w[i], after[i])
            &&& doomed(g, params, w, i) ==> after[i].occupant is Empty
            &&& !doomed(g, params, w, i) ==> {
                let bereaved = upwards(w[i].occupant) matches Some(up) && (nbr_dir(
                    g,
                    i,
                    up,
                ) matches Some(q) && doomed(g, params, w, q));
                &&& bereaved ==> lost_its_parent(w[i].occupant, after[i].occupant)
                &&& !bereaved ==> after[i].occupant == w[i].occupant
            }
        }),
        death_count(g, params, w, w.len()) == emptied(w, death(g, params, w), w.len()),
{
    lemma_doomed(g, params, w, i);
    lemma_emptied(g, params, w, w.len());
    assert(death(g, params, w)[i].occupant == bereft(g, params, w, i));
    if let Some(up) = upwards(w[i].occupant) {
        if let Some(q) = nbr_dir(g, i, up) {
            lemma_doomed(g, params, w, q);
        }
    }
}

/// The sum of the nine weights of a kernel.
pub open spec fn all_weights(kernel: Kernel) -> int {
    over_square(|dx: int, dy: int| kernel[dy + 1][dx + 1] as int)
}

/// What a cell gets when those around it for which `left` holds an energy die: from each
/// the weight that the kernel has where the cell lies.
pub open spec fn organic_left(
    g: Grid,
    kernel: Kernel,
    left: spec_fn(int) -> Option<u16>,
    j: int,
) -> int {
    over_square(
        |dx: int, dy: int|
            match nbr(g, j, -dx, -dy) {
                Some(q) => if left(q) is Some {
                    kernel[dy + 1][dx + 1] as int
                } else {
                    0
                },
                None => 0,
            },
    )
}

/// The energy that a cell gets of those who die around it: each divides what it had by all
/// the weights, and gives each place so many times its weight.
pub open spec fn energy_left(
    g: Grid,
    kernel: Kernel,
    left: spec_fn(int) -> Option<u16>,
    j: int,
) -> int {
    over_square(
        |dx: int, dy: int|
            match nbr(g, j, -dx, -dy) {
                Some(q) => match left(q) {
                    Some(e) => if all_weights(kernel) > 0 {
                        (e as int / all_weights(kernel)) * kernel[dy + 1][dx + 1]
                    } else {
                        0
                    },
                    None => 0,
                },
                None => 0,
            },
    )
}

/// Those who die enrich the soil of the nine cells around them.
pub proof fn lemma_remains(
    g: Grid,
    kernel: Kernel,
    dying: Seq<Option<u16>>,
    w: Seq<CellView>,
    j: int,
)
    ensures
        ({
            let after = enriched(g, kernel, dying, w, j);
            let left = |q: int| dying[q];
            &&& after.organic == at_most_full(w[j].organic + organic_left(g, kernel, left, j))
            &&& after.soil_energy == at_most_full(w[j].soil_energy + energy_left(g, kernel, left, j))
            &&& same_ground(w[j], after) && after.occupant == w[j].occupant
        }),
{
    let left = |q: int| dying[q];
    reveal_with_fuel(kernel_sum, 10);
    assert(kernel_sum(kernel, 9) == all_weights(kernel));
    lemma_organic_received(g, kernel, dying, j);
    lemma_energy_received(g, kernel, dying, j);
    lemma_received_bounds(g, kernel, SoilField::Organic, dying, j, 9);
    lemma_received_bounds(g, kernel, SoilField::Energy, dying, j, 9);
}

proof fn lemma_received_bounds(
    g: Grid,
    kernel: Kernel,
    field: SoilField,
    dying: Seq<Option<u16>>,
    j: int,
    m: nat,
)
    requires
        m <= 9,
    ensures
        0 <= received(g, kernel, field, dying, j, m),
    decreases m,
{
    if m > 0 {
        lemma_received_bounds(g, kernel, field, dying, j, (m - 1) as nat);
        if let Some(q) = nbr(g, j, -off_dx(m - 1), -off_dy(m - 1)) {
            if let Some(e) = dying[q] {
                lemma_deposit_within_energy(kernel, e);
                assert(0 <= given(kernel, SoilField::Energy, e, m - 1));
            }
        }
    }
}

proof fn lemma_organic_received(g: Grid, kernel: Kernel, dying: Seq<Option<u16>>, j: int)
    ensures
        received(g, kernel, SoilField::Organic, dying, j, 9) == organic_left(
            g,
            kernel,
            |q: int| dying[q],
            j,
        ),
{
    reveal_with_fuel(received, 10);
}

proof fn lemma_energy_received(g: Grid, kernel: Kernel, dying: Seq<Option<u16>>, j: int)
    requires
        kernel_sum(kernel, 9) == all_weights(kernel),
    ensures
        received(g, kernel, SoilField::Energy, dying, j, 9) == energy_left(
            g,
            kernel,
            |q: int| dying[q],
            j,
        ),
{
    lemma_remains_upto(g, kernel, dying, j, 9);
    reveal_with_fuel(remains_upto, 10);
    reveal(remains_at);
}

/// The energy that cell `j` gets of whoever dies at the place from which it lies `(dx, dy)`.
#[verifier::opaque]
spec fn remains_at(
    g: Grid,
    kernel: Kernel,
    dying: Seq<Option<u16>>,
    j: int,
    dx: int,
    dy: int,
) -> int {
    match nbr(g, j, -dx, -dy) {
        Some(q) => match dying[q] {
            Some(e) => if all_weights(kernel) > 0 {
                (e as int / all_weights(kernel)) * kernel[dy + 1][dx + 1]
            } else {
                0
            },
            None => 0,
        },
        None => 0,
    }
}

spec fn remains_upto(g: Grid, kernel: Kernel, dying: Seq<Option<u16>>, j: int, m: nat) -> int
    decreases m,
{
    if m == 0 {
        0
    } else {
        remains_upto(g, kernel, dying, j, (m - 1) as nat) + remains_at(
            g,
            kernel,
            dying,
            j,
            off_dx(m - 1),
            off_dy(m - 1),
        )
    }
}

proof fn lemma_remains_upto(g: Grid, kernel: Kernel, dying: Seq<Option<u16>>, j: int, m: nat)
    requires
        m <= 9,
        kernel_sum(kernel, 9) == all_weights(kernel),
    ensures
        received(g, kernel, SoilField::Energy, dying, j, m) == remains_upto(g, kernel, dying, j, m),
    decreases m,
{
    if m > 0 {
        lemma_remains_upto(g, kernel, dying, j, (m - 1) as nat);
        reveal(remains_at);
        let wt = kernel[off_dy(m - 1) + 1][off_dx(m - 1) + 1];
        assert(0 * wt == 0);
    }
}

/// The dead feed the soil: each cell around them gains the weight that it has in the
/// kernel as organic matter, and so many times the energy of the dead divided by all the
/// weights, as far as it can hold them.
pub proof fn lemma_the_dead_feed_the_soil(g: Grid, params: SimParams, w: Seq<CellView>, j: int)
    requires
        0 <= j < w.len(),
    ensures
        ({
            let after = death(g, params, w)[j];
            let kernel = params.death_deposit_kernel;
            let left = |q: int|
                if 0 <= q < w.len() && doomed(g, params, w, q) {
                    energy_of(w[q].occupant)
                } else {
                    None
                };
            w.len() == g.cells() ==> {
                &&& after.organic == at_most_full(w[j].organic + organic_left(g, kernel, left, j))
                &&& after.soil_energy == at_most_full(
                    w[j].soil_energy + energy_left(g, kernel, left, j),
                )
            }
        }),
{
    let kernel = params.death_deposit_kernel;
    let dying = dying_energy(g, params, w);
    let left = |q: int|
        if 0 <= q < w.len() && doomed(g, params, w, q) {
            energy_of(w[q].occupant)
        } else {
            None
        };
    let raw = |q: int| dying[q];
    lemma_remains(g, kernel, dying, w, j);
    if w.len() == g.cells() {
        assert forall|dx: int, dy: int| true implies (#[trigger] nbr(g, j, dx, dy) matches Some(q)
            ==> raw(q) == left(q)) by {
            lemma_nbr_in_world(g, j, dx, dy);
            if let Some(q) = nbr(g, j, dx, dy) {
                lemma_doomed(g, params, w, q);
            }
        }
        lemma_left_alike(g, kernel, raw, left, j);
    }
}

/// What is left to a cell depends only on who dies around it.
pub proof fn lemma_left_alike(
    g: Grid,
    kernel: Kernel,
    a: spec_fn(int) -> Option<u16>,
    b: spec_fn(int) -> Option<u16>,
    j: int,
)
    requires
        forall|dx: int, dy: int|
            (#[trigger] nbr(g, j, dx, dy) matches Some(q) ==> a(q) == b(q)),
    ensures
        organic_left(g, kernel, a, j) == organic_left(g, kernel, b, j),
        energy_left(g, kernel, a, j) == energy_left(g, kernel, b, j),
{
}

// ---------------------------------------------------------------------------
// Ticks and their reports
// ---------------------------------------------------------------------------
/// A tick is its ten phases in order, each on what the one before it left; new plants are
/// numbered on, and the random numbers go on where growth stopped.
pub proof fn lemma_phases_follow_each_other(g: Grid, params: SimParams, s: SimView)
    ensures
        ({
            let lit = photosynthesis(params, s.world);
            let drifted = regulation(params, lit);
            let fed = soil_pulls(g, params, drifted);
            let paid = upkeep(params, fed);
            let pruned = prune(g, paid);
            let drained = drainage(g, pruned);
            let pushed = directed_push(g, params, drained);
            let germinated = germination(g, params, pushed, s.next_plant_id);
            let grown = growth(g, params, params.death_deposit_kernel, germinated, s.rng);
            let after = tick(g, params, s);
            &&& after.world == death(g, params, grown)
            &&& pushed.len() == g.cells() ==> after.next_plant_id == (s.next_plant_id + seeds_sprouted(
                pushed,
                germinated,
                g.cells() as nat,
            )) % 0x1_0000_0000
            &&& after.rng == rng_before(g, params, germinated, s.rng, g.cells() as nat)
        }),
{
    let pushed = after_push(g, params, s.world);
    if pushed.len() == g.cells() {
        lemma_seeds_sprouted(g, params, pushed, s.next_plant_id, g.cells() as nat);
    }
}

/// Going on for `b` ticks after `a` ticks is going on for `a + b` ticks.
pub proof fn lemma_ticks_add_up(g: Grid, params: SimParams, s: SimView, a: nat, b: nat)
    ensures
        ticks(g, params, ticks(g, params, s, a), b) == ticks(g, params, s, a + b),
        ticks(g, params, s, 0) == s,
        ticks(g, params, s, 1) == tick(g, params, s),
    decreases b,
{
    reveal_with_fuel(ticks, 2);
    if b > 0 {
        lemma_ticks_add_up(g, params, s, a, (b - 1) as nat);
        assert(ticks(g, params, s, a + b) == tick(
            g,
            params,
            ticks(g, params, s, (a + (b - 1)) as nat),
        ));
    }
}

/// How many of the first `m` cells pass a test.
pub open spec fn how_many(test: spec_fn(int) -> bool, m: nat) -> nat
    decreases m,
{
    if m == 0 {
        0
    } else {
        how_many(test, (m - 1) as nat) + if test(m - 1) {
            1nat
        } else {
            0
        }
    }
}

/// A census tells how many cells hold each kind of occupant, and how many hold any.
pub proof fn lemma_census_counts(c: Census, w: Seq<CellView>)
    requires
        census_of(c, w),
    ensures
        c.leaves == how_many(|i: int| w[i].occupant is Leaf, w.len()),
        c.roots == how_many(|i: int| w[i].occupant is Root, w.len()),
        c.stems == how_many(|i: int| w[i].occupant is Stem, w.len()),
        c.antennas == how_many(|i: int| w[i].occupant is Antenna, w.len()),
        c.sprouts == how_many(|i: int| w[i].occupant is Sprout, w.len()),
        c.seeds == how_many(|i: int| w[i].occupant is Seed, w.len()),
        c.occupants == how_many(|i: int| !(w[i].occupant is Empty), w.len()),
{
    lemma_counts(w, w.len());
    assert(w.take(w.len() as int) =~= w);
}

proof fn lemma_counts(w: Seq<CellView>, m: nat)
    requires
        m <= w.len(),
    ensures
        count_kind(w.take(m as int), Kind::Leaf) == how_many(|i: int| w[i].occupant is Leaf, m),
        count_kind(w.take(m as int), Kind::Root) == how_many(|i: int| w[i].occupant is Root, m),
        count_kind(w.take(m as int), Kind::Stem) == how_many(|i: int| w[i].occupant is Stem, m),
        count_kind(w.take(m as int), Kind::Antenna) == how_many(|i: int| w[i].occupant is Antenna, m),
        count_kind(w.take(m as int), Kind::Sprout) == how_many(|i: int| w[i].occupant is Sprout, m),
        count_kind(w.take(m as int), Kind::Seed) == how_many(|i: int| w[i].occupant is Seed, m),
        count_occupied(w.take(m as int)) == how_many(|i: int| !(w[i].occupant is Empty), m),
    decreases m,
{
    if m > 0 {
        lemma_counts(w, (m - 1) as nat);
        assert(w.take(m as int).drop_last() =~= w.take(m - 1));
        assert(w.take(m as int).last() == w[m - 1]);
    }
}

/// Trials count sprouts, seeds and leaves, in this order.
pub proof fn lemma_trial_counts(counts: (u32, u32, u32), s: SimView)
    requires
        counts_of(counts, s),
    ensures
        counts.0 == how_many(|i: int| s.world[i].occupant is Sprout, s.world.len()),
        counts.1 == how_many(|i: int| s.world[i].occupant is Seed, s.world.len()),
        counts.2 == how_many(|i: int| s.world[i].occupant is Leaf, s.world.len()),
{
    lemma_counts(s.world, s.world.len());
    assert(s.world.take(s.world.len() as int) =~= s.world);
}

/// A report tells how many cells pruning changed, how many links to dead ends were dropped,
/// how many seeds sprouted, how many sprouts could read a gene and how many cells died, and
/// it takes the census of the world after the tick.
pub proof fn lemma_report_tells(r: TickReport, g: Grid, params: SimParams, s: SimView)
    requires
        reports(r, g, params, s),
        s.world.len() == g.cells(),
    ensures
        ({
            let paid = upkeep(params, soil_pulls(g, params, regulation(params, photosynthesis(params, s.world))));
            let pruned = prune(g, paid);
            let pushed = directed_push(g, params, drainage(g, pruned));
            let germinated = germination(g, params, pushed, s.next_plant_id);
            let grown = growth(g, params, params.death_deposit_kernel, germinated, s.rng);
            let n = g.cells() as nat;
            &&& r.prune_changes == how_many(|i: int| pruned[i] != paid[i], n)
            &&& r.drained == how_many(|i: int| ends_at(g, pruned, i, Direction::North), n) + how_many(
                |i: int| ends_at(g, pruned, i, Direction::East),
                n,
            ) + how_many(|i: int| ends_at(g, pruned, i, Direction::South), n) + how_many(
                |i: int| ends_at(g, pruned, i, Direction::West),
                n,
            )
            &&& r.germinations == seeds_sprouted(pushed, germinated, n)
            &&& r.growth_attempts == how_many(
                |i: int|
                    germinated[i].occupant matches OccupantView::Sprout { genome, .. }
                        && genome.genes.len() > 0,
                n,
            )
            &&& r.deaths == emptied(grown, death(g, params, grown), n)
            &&& census_of(r.census, death(g, params, grown))
        }),
{
    let paid = after_upkeep(g, params, s.world);
    let pruned = prune(g, paid);
    let pushed = after_push(g, params, s.world);
    let n = g.cells() as nat;
    lemma_prunes_counted(g, paid, n);
    lemma_drains_counted(g, pruned, n);
    lemma_seeds_sprouted(g, params, pushed, s.next_plant_id, n);
    lemma_growers_counted(after_germination(g, params, s), n);
    lemma_emptied(g, params, after_growth(g, params, s), n);
}

/// Whether a child link of the stem at `p` leads to a dead end in direction `d`.
pub open spec fn ends_at(g: Grid, w: Seq<CellView>, p: int, d: Direction) -> bool {
    nbr_dir(g, p, d) matches Some(q) && leads_to_end(g, w, p, d, q)
}

proof fn lemma_prunes_counted(g: Grid, w: Seq<CellView>, m: nat)
    requires
        m <= w.len(),
    ensures
        prune_count(g, w, m) == how_many(|i: int| prune(g, w)[i] != w[i], m),
    decreases m,
{
    if m > 0 {
        lemma_prunes_counted(g, w, (m - 1) as nat);
        assert(prune(g, w)[m - 1] == pruned_cell(g, w, m - 1));
    }
}

proof fn lemma_drains_counted(g: Grid, w: Seq<CellView>, m: nat)
    requires
        m <= w.len(),
    ensures
        drain_count(g, w, m) == how_many(|i: int| ends_at(g, w, i, Direction::North), m) + how_many(
            |i: int| ends_at(g, w, i, Direction::East),
            m,
        ) + how_many(|i: int| ends_at(g, w, i, Direction::South), m) + how_many(
            |i: int| ends_at(g, w, i, Direction::West),
            m,
        ),
    decreases m,
{
    if m > 0 {
        lemma_drains_counted(g, w, (m - 1) as nat);
        reveal_with_fuel(drain_links, 5);
        assert forall|d: Direction| drains(g, w, m - 1, d) is Some == #[trigger] ends_at(g, w, m - 1, d) by {}
        assert(drains(g, w, m - 1, dir_at(0)) is Some == ends_at(g, w, m - 1, Direction::North));
        assert(drains(g, w, m - 1, dir_at(1)) is Some == ends_at(g, w, m - 1, Direction::East));
        assert(drains(g, w, m - 1, dir_at(2)) is Some == ends_at(g, w, m - 1, Direction::South));
        assert(drains(g, w, m - 1, dir_at(3)) is Some == ends_at(g, w, m - 1, Direction::West));
    }
}

proof fn lemma_growers_counted(w: Seq<CellView>, m: nat)
    requires
        m <= w.len(),
    ensures
        grower_count(w, m) == how_many(
            |i: int|
                w[i].occupant matches OccupantView::Sprout { genome, .. } && genome.genes.len() > 0,
            m,
        ),
    decreases m,
{
    if m > 0 {
        lemma_growers_counted(w, (m - 1) as nat);
    }
}

} // verus!
