//! Fair division of the soil among the roots and antennae that reach it.
//!
//! Each puller wants a kernel-weighted amount from every soil cell in the 3x3
//! square around it. A soil cell gives up at most what is wanted of it, and every
//! puller gets the share that its weight has in the total demand, rounded down.
//! No share depends on the order in which cells are visited.
use vstd::prelude::*;
use crate::grid::{cell_mut, cell_ref, lemma_nbr_in_world, lemma_nbr_symmetric, lemma_world_len, nbr};
use crate::grid::{neighbor, same_layout, shaped, total_cells, world_of, Grid};
use crate::protocol::{CellView, Chunk, Energy, Kernel, Occupant, OccupantView, SimParams};
use crate::sim::occupant::{energy_of, occupant_energy, set_occupant_energy, with_energy};

verus! {

/// The two things that can be pulled from the soil.
#[derive(Clone, Copy, Debug, PartialEq, Eq, Structural)]
pub enum SoilField {
    Organic,
    Energy,
}

/// Column offset of the `k`-th of the nine kernel places, row by row.
pub open spec fn off_dx(k: int) -> int {
    k % 3 - 1
}

/// Row offset of the `k`-th kernel place.
pub open spec fn off_dy(k: int) -> int {
    k / 3 - 1
}

/// Weight of the `k`-th kernel place.
pub open spec fn weight_at(kernel: Kernel, k: int) -> u16 {
    kernel[k / 3][k % 3]
}

/// Roots pull organic, antennae pull soil energy.
pub open spec fn pulls(field: SoilField, occ: OccupantView) -> bool {
    match field {
        SoilField::Organic => occ is Root,
        SoilField::Energy => occ is Antenna,
    }
}

/// How much of a field a soil cell holds.
pub open spec fn soil(field: SoilField, c: CellView) -> u16 {
    match field {
        SoilField::Organic => c.organic,
        SoilField::Energy => c.soil_energy,
    }
}

/// What the puller at kernel place `k` seen from cell `j` wants of cell `j`:
/// the low byte of its weight, or nothing when no puller stands there.
pub open spec fn want(
    g: Grid,
    kernel: Kernel,
    field: SoilField,
    w: Seq<CellView>,
    j: int,
    k: int,
) -> int {
    match nbr(g, j, -off_dx(k), -off_dy(k)) {
        Some(p) => if pulls(field, w[p].occupant) {
            weight_at(kernel, k) as int % 256
        } else {
            0
        },
        None => 0,
    }
}

/// What the pullers at the first `m` kernel places want of cell `j` together.
pub open spec fn wanted(
    g: Grid,
    kernel: Kernel,
    field: SoilField,
    w: Seq<CellView>,
    j: int,
    m: nat,
) -> int
    decreases m,
{
    if m == 0 {
        0
    } else {
        wanted(g, kernel, field, w, j, (m - 1) as nat) + want(g, kernel, field, w, j, m - 1)
    }
}

/// Total demand on cell `j`, saturating at 255.
pub open spec fn demand(
    g: Grid,
    kernel: Kernel,
    field: SoilField,
    w: Seq<CellView>,
    j: int,
) -> int {
    let total = wanted(g, kernel, field, w, j, 9);
    if total > 255 {
        255
    } else {
        total
    }
}

/// What a soil cell gives up.
pub open spec fn loss(avail: u16, demand: int) -> int {
    if avail < demand {
        avail as int
    } else {
        demand
    }
}

/// The part of a cell's loss that goes to one puller of weight `weight`.
pub open spec fn share(weight: u16, avail: u16, demand: int) -> int {
    if demand == 0 {
        0
    } else {
        (weight * loss(avail, demand)) / demand
    }
}

/// What the puller at `p` gets from its first `m` kernel places.
pub open spec fn gained(
    g: Grid,
    kernel: Kernel,
    field: SoilField,
    w: Seq<CellView>,
    p: int,
    m: nat,
) -> int
    decreases m,
{
    if m == 0 {
        0
    } else {
        gained(g, kernel, field, w, p, (m - 1) as nat) + match nbr(g, p, off_dx(m - 1), off_dy(m - 1)) {
            Some(j) => share(
                weight_at(kernel, m - 1),
                soil(field, w[j]),
                demand(g, kernel, field, w, j),
            ),
            None => 0,
        }
    }
}

/// What the occupant of cell `p` gains in all.
pub open spec fn gain(g: Grid, params: SimParams, w: Seq<CellView>, p: int) -> int {
    match w[p].occupant {
        OccupantView::Root { .. } => gained(g, params.root_pull_kernel, SoilField::Organic, w, p, 9),
        OccupantView::Antenna { .. } => gained(
            g,
            params.antenna_pull_kernel,
            SoilField::Energy,
            w,
            p,
            9,
        ),
        _ => 0,
    }
}

/// A cell after its soil has been drawn on and its own puller has been fed.
pub open spec fn pulled_cell(g: Grid, params: SimParams, w: Seq<CellView>, j: int) -> CellView {
    let c = w[j];
    CellView {
        organic: (c.organic - loss(
            c.organic,
            demand(g, params.root_pull_kernel, SoilField::Organic, w, j),
        )) as u16,
        soil_energy: (c.soil_energy - loss(
            c.soil_energy,
            demand(g, params.antenna_pull_kernel, SoilField::Energy, w, j),
        )) as u16,
        occupant: match energy_of(c.occupant) {
            Some(e) => with_energy(
                c.occupant,
                (if e + gain(g, params, w, j) > Energy::MAX {
                    Energy::MAX as int
                } else {
                    e + gain(g, params, w, j)
                }) as Energy,
            ),
            None => c.occupant,
        },
        ..c
    }
}

/// The world after the soil pulls.
pub open spec fn soil_pulls(g: Grid, params: SimParams, w: Seq<CellView>) -> Seq<CellView> {
    Seq::new(w.len(), |j: int| pulled_cell(g, params, w, j))
}

// ---------------------------------------------------------------------------
// Demand accumulated puller by puller
// ---------------------------------------------------------------------------
/// Whether the puller at kernel place `k` seen from cell `j` has been counted
/// once all pullers below `i`, and the places below `at` of puller `i`, are done.
spec fn counted(g: Grid, j: int, k: int, i: int, at: int) -> bool {
    match nbr(g, j, -off_dx(k), -off_dy(k)) {
        Some(p) => p < i || (p == i && k < at),
        None => false,
    }
}

spec fn wanted_so_far(
    g: Grid,
    kernel: Kernel,
    field: SoilField,
    w: Seq<CellView>,
    j: int,
    m: nat,
    i: int,
    at: int,
) -> int
    decreases m,
{
    if m == 0 {
        0
    } else {
        wanted_so_far(g, kernel, field, w, j, (m - 1) as nat, i, at) + if counted(
            g,
            j,
            m - 1,
            i,
            at,
        ) {
            want(g, kernel, field, w, j, m - 1)
        } else {
            0
        }
    }
}

spec fn capped(total: int) -> int {
    if total > 255 {
        255
    } else {
        total
    }
}

proof fn lemma_wanted_bounds(
    g: Grid,
    kernel: Kernel,
    field: SoilField,
    w: Seq<CellView>,
    j: int,
    m: nat,
    i: int,
    at: int,
)
    ensures
        0 <= wanted_so_far(g, kernel, field, w, j, m, i, at),
        0 <= wanted(g, kernel, field, w, j, m),
    decreases m,
{
    if m > 0 {
        lemma_wanted_bounds(g, kernel, field, w, j, (m - 1) as nat, i, at);
    }
}

/// Nothing is counted before the first puller.
proof fn lemma_wanted_start(g: Grid, kernel: Kernel, field: SoilField, w: Seq<CellView>, j: int, m: nat)
    requires
        0 <= j < g.cells(),
    ensures
        wanted_so_far(g, kernel, field, w, j, m, 0, 0) == 0,
    decreases m,
{
    if m > 0 {
        lemma_wanted_start(g, kernel, field, w, j, (m - 1) as nat);
        lemma_nbr_in_world(g, j, -off_dx(m - 1), -off_dy(m - 1));
    }
}

/// Everything is counted after the last cell.
proof fn lemma_wanted_end(g: Grid, kernel: Kernel, field: SoilField, w: Seq<CellView>, j: int, m: nat)
    requires
        0 <= j < g.cells(),
    ensures
        wanted_so_far(g, kernel, field, w, j, m, g.cells(), 0) == wanted(g, kernel, field, w, j, m),
    decreases m,
{
    if m > 0 {
        lemma_wanted_end(g, kernel, field, w, j, (m - 1) as nat);
        lemma_nbr_in_world(g, j, -off_dx(m - 1), -off_dy(m - 1));
    }
}

/// A cell without a puller of this field counts nothing, and finishing its nine
/// places is the same as starting the next cell.
proof fn lemma_wanted_next(
    g: Grid,
    kernel: Kernel,
    field: SoilField,
    w: Seq<CellView>,
    j: int,
    m: nat,
    i: int,
)
    requires
        m <= 9,
    ensures
        wanted_so_far(g, kernel, field, w, j, m, i, 9) == wanted_so_far(
            g,
            kernel,
            field,
            w,
            j,
            m,
            i + 1,
            0,
        ),
        !pulls(field, w[i].occupant) ==> wanted_so_far(g, kernel, field, w, j, m, i, 0)
            == wanted_so_far(g, kernel, field, w, j, m, i + 1, 0),
    decreases m,
{
    if m > 0 {
        lemma_wanted_next(g, kernel, field, w, j, (m - 1) as nat, i);
    }
}

/// Counting place `at` of the puller at `i` changes the demand of one cell only:
/// the one that lies at that place.
proof fn lemma_wanted_step(
    g: Grid,
    kernel: Kernel,
    field: SoilField,
    w: Seq<CellView>,
    j: int,
    m: nat,
    i: int,
    at: int,
)
    requires
        0 <= i < g.cells(),
        0 <= j < g.cells(),
        0 <= at < 9,
        pulls(field, w[i].occupant),
    ensures
        wanted_so_far(g, kernel, field, w, j, m, i, at + 1) == wanted_so_far(
            g,
            kernel,
            field,
            w,
            j,
            m,
            i,
            at,
        ) + (if at < m && nbr(g, i, off_dx(at), off_dy(at)) == Some(j) {
            weight_at(kernel, at) as int % 256
        } else {
            0
        }),
    decreases m,
{
    if m > 0 {
        lemma_wanted_step(g, kernel, field, w, j, (m - 1) as nat, i, at);
        if m - 1 == at {
            lemma_nbr_symmetric(g, i, off_dx(at), off_dy(at));
            lemma_nbr_symmetric(g, j, -off_dx(at), -off_dy(at));
        }
    }
}

/// One puller adds its weights to the demand of the nine cells around it.
fn add_demand(
    buf: &mut Vec<u8>,
    g: Grid,
    kernel: &Kernel,
    i: usize,
    Ghost(field): Ghost<SoilField>,
    Ghost(w): Ghost<Seq<CellView>>,
)
    requires
        g.fits(),
        i < g.cells(),
        w.len() == g.cells(),
        old(buf).len() == g.cells(),
        pulls(field, w[i as int].occupant),
        forall|j: int|
            0 <= j < g.cells() ==> #[trigger] old(buf)@[j] == capped(
                wanted_so_far(g, *kernel, field, w, j, 9, i as int, 0),
            ),
    ensures
        final(buf).len() == g.cells(),
        forall|j: int|
            0 <= j < g.cells() ==> #[trigger] final(buf)@[j] == capped(
                wanted_so_far(g, *kernel, field, w, j, 9, i + 1, 0),
            ),
{
    let mut k: usize = 0;
    while k < 9
        invariant
            k <= 9,
            g.fits(),
            i < g.cells(),
            w.len() == g.cells(),
            buf.len() == g.cells(),
            pulls(field, w[i as int].occupant),
            forall|j: int|
                0 <= j < g.cells() ==> #[trigger] buf@[j] == capped(
                    wanted_so_far(g, *kernel, field, w, j, 9, i as int, k as int),
                ),
        decreases 9 - k,
    {
        let weight: u16 = kernel[k / 3][k % 3];
        let dx: i32 = (k % 3) as i32 - 1;
        let dy: i32 = (k / 3) as i32 - 1;
        let ghost before = buf@;
        assert(weight as u8 == weight % 256) by (bit_vector);
        if let Some(idx) = neighbor(g, i, dx, dy) {
            let sum: u8 = buf[idx].saturating_add(weight as u8);
            buf.set(idx, sum);
        }
        proof {
            assert forall|j: int| 0 <= j < g.cells() implies #[trigger] buf@[j] == capped(
                wanted_so_far(g, *kernel, field, w, j, 9, i as int, k + 1),
            ) by {
                lemma_wanted_step(g, *kernel, field, w, j, 9, i as int, k as int);
                lemma_wanted_bounds(g, *kernel, field, w, j, 9, i as int, k as int);
                assert(before[j] == capped(
                    wanted_so_far(g, *kernel, field, w, j, 9, i as int, k as int),
                ));
            }
        }
        k = k + 1;
    }
    proof {
        assert forall|j: int| 0 <= j < g.cells() implies #[trigger] buf@[j] == capped(
            wanted_so_far(g, *kernel, field, w, j, 9, i + 1, 0),
        ) by {
            lemma_wanted_next(g, *kernel, field, w, j, 9, i as int);
        }
    }
}

/// Fair share that the puller at `i` gets from the nine cells around it.
fn puller_gain(
    chunks: &Vec<Chunk>,
    g: Grid,
    kernel: &Kernel,
    field: SoilField,
    demands: &Vec<u8>,
    i: usize,
) -> (total: u32)
    requires
        shaped(chunks@, g),
        i < g.cells(),
        demands.len() == g.cells(),
        forall|j: int|
            0 <= j < g.cells() ==> #[trigger] demands@[j] == demand(
                g,
                *kernel,
                field,
                world_of(chunks@),
                j,
            ),
    ensures
        total == gained(g, *kernel, field, world_of(chunks@), i as int, 9),
{
    let ghost w = world_of(chunks@);
    let mut total: u32 = 0;
    let mut k: usize = 0;
    while k < 9
        invariant
            k <= 9,
            shaped(chunks@, g),
            w == world_of(chunks@),
            i < g.cells(),
            demands.len() == g.cells(),
            forall|j: int|
                0 <= j < g.cells() ==> #[trigger] demands@[j] == demand(g, *kernel, field, w, j),
            total == gained(g, *kernel, field, w, i as int, k as nat),
            0 <= total <= k * 65535,
        decreases 9 - k,
    {
        let weight: u32 = kernel[k / 3][k % 3] as u32;
        let dx: i32 = (k % 3) as i32 - 1;
        let dy: i32 = (k / 3) as i32 - 1;
        if let Some(idx) = neighbor(g, i, dx, dy) {
            let cell = cell_ref(chunks, g, idx);
            let avail: u32 = match field {
                SoilField::Organic => cell.organic as u32,
                SoilField::Energy => cell.soil_energy as u32,
            };
            let wanted_here: u32 = demands[idx] as u32;
            assert(wanted_here == demand(g, *kernel, field, w, idx as int));
            if wanted_here != 0 {
                let lost: u32 = if avail < wanted_here {
                    avail
                } else {
                    wanted_here
                };
                assert(weight * lost <= 65535 * 255) by (nonlinear_arith)
                    requires
                        weight <= 65535,
                        lost <= 255,
                ;
                assert((weight * lost) / (wanted_here as int) <= 65535) by (nonlinear_arith)
                    requires
                        0 <= weight <= 65535,
                        0 <= lost <= wanted_here,
                        0 < wanted_here,
                ;
                total = total + weight * lost / wanted_here;
            }
        }
        k = k + 1;
    }
    total
}

/// Divide the soil among the pullers and feed them.
pub fn phase_soil_pulls(chunks: &mut Vec<Chunk>, g: Grid, params: &SimParams)
    requires
        shaped(old(chunks)@, g),
    ensures
        same_layout(old(chunks)@, final(chunks)@),
        world_of(final(chunks)@) == soil_pulls(g, *params, world_of(old(chunks)@)),
{
    let n: usize = total_cells(g);
    let ghost w = world_of(chunks@);
    let rk = params.root_pull_kernel;
    let ak = params.antenna_pull_kernel;
    proof {
        lemma_world_len(chunks@, g);
    }
    let mut organic_demand: Vec<u8> = Vec::with_capacity(n);
    let mut energy_demand: Vec<u8> = Vec::with_capacity(n);
    let mut i: usize = 0;
    while i < n
        invariant
            i <= n,
            organic_demand.len() == i,
            energy_demand.len() == i,
            forall|j: int| 0 <= j < i ==> #[trigger] organic_demand@[j] == 0,
            forall|j: int| 0 <= j < i ==> #[trigger] energy_demand@[j] == 0,
        decreases n - i,
    {
        organic_demand.push(0);
        energy_demand.push(0);
        i = i + 1;
    }
    proof {
        assert forall|j: int| 0 <= j < n implies #[trigger] organic_demand@[j] == capped(
            wanted_so_far(g, rk, SoilField::Organic, w, j, 9, 0, 0),
        ) by {
            lemma_wanted_start(g, rk, SoilField::Organic, w, j, 9);
        }
        assert forall|j: int| 0 <= j < n implies #[trigger] energy_demand@[j] == capped(
            wanted_so_far(g, ak, SoilField::Energy, w, j, 9, 0, 0),
        ) by {
            lemma_wanted_start(g, ak, SoilField::Energy, w, j, 9);
        }
    }
    i = 0;
    while i < n
        invariant
            i <= n,
            n == g.cells(),
            shaped(chunks@, g),
            world_of(chunks@) == w,
            w.len() == n,
            organic_demand.len() == n,
            energy_demand.len() == n,
            forall|j: int|
                0 <= j < n ==> #[trigger] organic_demand@[j] == capped(
                    wanted_so_far(g, rk, SoilField::Organic, w, j, 9, i as int, 0),
                ),
            forall|j: int|
                0 <= j < n ==> #[trigger] energy_demand@[j] == capped(
                    wanted_so_far(g, ak, SoilField::Energy, w, j, 9, i as int, 0),
                ),
        decreases n - i,
    {
        let cell = cell_ref(chunks, g, i);
        proof {
            if !pulls(SoilField::Organic, w[i as int].occupant) {
                assert forall|j: int| 0 <= j < n implies #[trigger] organic_demand@[j] == capped(
                    wanted_so_far(g, rk, SoilField::Organic, w, j, 9, i + 1, 0),
                ) by {
                    lemma_wanted_next(g, rk, SoilField::Organic, w, j, 9, i as int);
                }
            }
            if !pulls(SoilField::Energy, w[i as int].occupant) {
                assert forall|j: int| 0 <= j < n implies #[trigger] energy_demand@[j] == capped(
                    wanted_so_far(g, ak, SoilField::Energy, w, j, 9, i + 1, 0),
                ) by {
                    lemma_wanted_next(g, ak, SoilField::Energy, w, j, 9, i as int);
                }
            }
        }
        match &cell.occupant {
            Occupant::Root { .. } => {
                add_demand(
                    &mut organic_demand,
                    g,
                    &rk,
                    i,
                    Ghost(SoilField::Organic),
                    Ghost(w),
                );
            },
            Occupant::Antenna { .. } => {
                add_demand(&mut energy_demand, g, &ak, i, Ghost(SoilField::Energy), Ghost(w));
            },
            _ => {},
        }
        i = i + 1;
    }
    proof {
        assert forall|j: int| 0 <= j < n implies #[trigger] organic_demand@[j] == demand(
            g,
            rk,
            SoilField::Organic,
            w,
            j,
        ) by {
            lemma_wanted_end(g, rk, SoilField::Organic, w, j, 9);
        }
        assert forall|j: int| 0 <= j < n implies #[trigger] energy_demand@[j] == demand(
            g,
            ak,
            SoilField::Energy,
            w,
            j,
        ) by {
            lemma_wanted_end(g, ak, SoilField::Energy, w, j, 9);
        }
    }
    let mut gains: Vec<u32> = Vec::with_capacity(n);
    i = 0;
    while i < n
        invariant
            i <= n,
            n == g.cells(),
            shaped(chunks@, g),
            world_of(chunks@) == w,
            w.len() == n,
            rk == params.root_pull_kernel,
            ak == params.antenna_pull_kernel,
            organic_demand.len() == n,
            energy_demand.len() == n,
            forall|j: int|
                0 <= j < n ==> #[trigger] organic_demand@[j] == demand(
                    g,
                    rk,
                    SoilField::Organic,
                    w,
                    j,
                ),
            forall|j: int|
                0 <= j < n ==> #[trigger] energy_demand@[j] == demand(
                    g,
                    ak,
                    SoilField::Energy,
                    w,
                    j,
                ),
            gains.len() == i,
            forall|j: int| 0 <= j < i ==> #[trigger] gains@[j] == gain(g, *params, w, j),
        decreases n - i,
    {
        let cell = cell_ref(chunks, g, i);
        let got: u32 = match &cell.occupant {
            Occupant::Root { .. } => puller_gain(
                chunks,
                g,
                &rk,
                SoilField::Organic,
                &organic_demand,
                i,
            ),
            Occupant::Antenna { .. } => puller_gain(
                chunks,
                g,
                &ak,
                SoilField::Energy,
                &energy_demand,
                i,
            ),
            _ => 0,
        };
        gains.push(got);
        i = i + 1;
    }
    i = 0;
    while i < n
        invariant
            i <= n,
            n == g.cells(),
            shaped(chunks@, g),
            same_layout(old(chunks)@, chunks@),
            w.len() == n,
            rk == params.root_pull_kernel,
            ak == params.antenna_pull_kernel,
            organic_demand.len() == n,
            energy_demand.len() == n,
            gains.len() == n,
            forall|j: int|
                0 <= j < n ==> #[trigger] organic_demand@[j] == demand(
                    g,
                    rk,
                    SoilField::Organic,
                    w,
                    j,
                ),
            forall|j: int|
                0 <= j < n ==> #[trigger] energy_demand@[j] == demand(
                    g,
                    ak,
                    SoilField::Energy,
                    w,
                    j,
                ),
            forall|j: int| 0 <= j < n ==> #[trigger] gains@[j] == gain(g, *params, w, j),
            world_of(chunks@).len() == n,
            forall|j: int|
                0 <= j < n ==> #[trigger] world_of(chunks@)[j] == (if j < i {
                    pulled_cell(g, *params, w, j)
                } else {
                    w[j]
                }),
        decreases n - i,
    {
        let cell = cell_mut(chunks, g, i);
        let od: u16 = organic_demand[i] as u16;
        let ed: u16 = energy_demand[i] as u16;
        cell.organic = cell.organic.saturating_sub(od);
        cell.soil_energy = cell.soil_energy.saturating_sub(ed);
        if let Some(e) = occupant_energy(&cell.occupant) {
            let fed: u64 = e as u64 + gains[i] as u64;
            let new_e: Energy = if fed > Energy::MAX as u64 {
                Energy::MAX
            } else {
                fed as Energy
            };
            set_occupant_energy(&mut cell.occupant, new_e);
        }
        i = i + 1;
    }
    assert(world_of(chunks@) =~= soil_pulls(g, *params, w));
}

} // verus!
