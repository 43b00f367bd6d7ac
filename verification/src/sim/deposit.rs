//! What dying cells leave to the soil around them.
//!
//! A cell that dies spreads organic matter over its 3x3 square, one kernel weight
//! per place, and divides the energy it held over the same places in proportion
//! to the weights, rounded down so that no energy is made.
use vstd::prelude::*;
use crate::grid::{cell_mut, lemma_nbr_in_world, lemma_nbr_symmetric, lemma_world_len, nbr, neighbor};
use crate::grid::{same_layout, shaped, total_cells, world_of, Grid};
use crate::protocol::{CellView, Chunk, Energy, Kernel};
use crate::sim::pull::{off_dx, off_dy, weight_at, SoilField};

verus! {

/// Sum of the first `m` kernel weights.
pub open spec fn kernel_sum(kernel: Kernel, m: nat) -> int
    decreases m,
{
    if m == 0 {
        0
    } else {
        kernel_sum(kernel, (m - 1) as nat) + weight_at(kernel, m - 1)
    }
}

/// Energy that a dying cell leaves per unit of kernel weight.
pub open spec fn per_unit(kernel: Kernel, energy: Energy) -> int {
    if kernel_sum(kernel, 9) > 0 {
        energy as int / kernel_sum(kernel, 9)
    } else {
        0
    }
}

/// What a cell that dies with `energy` gives to the `k`-th place around it.
pub open spec fn given(kernel: Kernel, field: SoilField, energy: Energy, k: int) -> int {
    match field {
        SoilField::Organic => weight_at(kernel, k) as int,
        SoilField::Energy => per_unit(kernel, energy) * weight_at(kernel, k),
    }
}

/// What one dying cell `src` gives to cell `j` through its first `m` places.
pub open spec fn landed(
    g: Grid,
    kernel: Kernel,
    field: SoilField,
    src: int,
    energy: Energy,
    j: int,
    m: nat,
) -> int
    decreases m,
{
    if m == 0 {
        0
    } else {
        landed(g, kernel, field, src, energy, j, (m - 1) as nat) + if nbr(
            g,
            src,
            off_dx(m - 1),
            off_dy(m - 1),
        ) == Some(j) {
            given(kernel, field, energy, m - 1)
        } else {
            0
        }
    }
}

/// What cell `j` receives from the dying cells for which it is one of the first
/// `m` places. `dying` holds, by linear index, the energy of each dying cell.
pub open spec fn received(
    g: Grid,
    kernel: Kernel,
    field: SoilField,
    dying: Seq<Option<Energy>>,
    j: int,
    m: nat,
) -> int
    decreases m,
{
    if m == 0 {
        0
    } else {
        received(g, kernel, field, dying, j, (m - 1) as nat) + match nbr(
            g,
            j,
            -off_dx(m - 1),
            -off_dy(m - 1),
        ) {
            Some(q) => match dying[q] {
                Some(e) => given(kernel, field, e, m - 1),
                None => 0,
            },
            None => 0,
        }
    }
}

/// Soil holds at most what fits.
pub open spec fn held(amount: int) -> u16 {
    if amount > u16::MAX {
        u16::MAX
    } else {
        amount as u16
    }
}

/// A soil cell after one cell has died near it.
pub open spec fn enriched_by(
    g: Grid,
    kernel: Kernel,
    src: int,
    energy: Energy,
    w: Seq<CellView>,
    j: int,
) -> CellView {
    CellView {
        organic: held(w[j].organic + landed(g, kernel, SoilField::Organic, src, energy, j, 9)),
        soil_energy: held(
            w[j].soil_energy + landed(g, kernel, SoilField::Energy, src, energy, j, 9),
        ),
        ..w[j]
    }
}

/// A soil cell after all dying cells have left their share to it.
pub open spec fn enriched(
    g: Grid,
    kernel: Kernel,
    dying: Seq<Option<Energy>>,
    w: Seq<CellView>,
    j: int,
) -> CellView {
    CellView {
        organic: held(w[j].organic + received(g, kernel, SoilField::Organic, dying, j, 9)),
        soil_energy: held(
            w[j].soil_energy + received(g, kernel, SoilField::Energy, dying, j, 9),
        ),
        ..w[j]
    }
}

/// The world after all deposits.
pub open spec fn deposits(
    g: Grid,
    kernel: Kernel,
    dying: Seq<Option<Energy>>,
    w: Seq<CellView>,
) -> Seq<CellView> {
    Seq::new(w.len(), |j: int| enriched(g, kernel, dying, w, j))
}

/// No weight exceeds the sum of the weights.
pub proof fn lemma_kernel_sum(kernel: Kernel, m: nat)
    ensures
        0 <= kernel_sum(kernel, m) <= m * 65535,
        forall|k: int| 0 <= k < m ==> #[trigger] weight_at(kernel, k) <= kernel_sum(kernel, m),
    decreases m,
{
    if m > 0 {
        lemma_kernel_sum(kernel, (m - 1) as nat);
    }
}

/// Death makes no energy: what a dying cell leaves in all is at most what it
/// held, wherever the edges of the world are.
pub proof fn lemma_deposit_within_energy(kernel: Kernel, energy: Energy)
    ensures
        0 <= per_unit(kernel, energy),
        per_unit(kernel, energy) * kernel_sum(kernel, 9) <= energy,
        forall|k: int|
            0 <= k < 9 ==> 0 <= #[trigger] given(kernel, SoilField::Energy, energy, k) <= energy,
{
    lemma_kernel_sum(kernel, 9);
    let s = kernel_sum(kernel, 9);
    let u = per_unit(kernel, energy);
    if s > 0 {
        assert(0 <= u && u * s <= energy) by (nonlinear_arith)
            requires
                s > 0,
                u == energy as int / s,
        ;
    }
    assert(u * s <= energy) by (nonlinear_arith)
        requires
            s > 0 ==> u * s <= energy,
            s == 0 || s > 0,
            0 <= energy,
    ;
    assert forall|k: int| 0 <= k < 9 implies 0 <= #[trigger] given(
        kernel,
        SoilField::Energy,
        energy,
        k,
    ) <= energy by {
        let wt = weight_at(kernel, k) as int;
        assert(0 <= u * wt <= u * s) by (nonlinear_arith)
            requires
                0 <= u,
                0 <= wt <= s,
        ;
    }
}

proof fn lemma_landed_bounds(
    g: Grid,
    kernel: Kernel,
    field: SoilField,
    src: int,
    energy: Energy,
    j: int,
    m: nat,
)
    requires
        m <= 9,
    ensures
        0 <= landed(g, kernel, field, src, energy, j, m),
    decreases m,
{
    if m > 0 {
        lemma_landed_bounds(g, kernel, field, src, energy, j, (m - 1) as nat);
        lemma_deposit_within_energy(kernel, energy);
        assert(0 <= given(kernel, SoilField::Energy, energy, m - 1));
    }
}

fn weight_sum(kernel: &Kernel) -> (sum: u32)
    ensures
        sum == kernel_sum(*kernel, 9),
{
    let mut sum: u32 = 0;
    let mut k: usize = 0;
    while k < 9
        invariant
            k <= 9,
            sum == kernel_sum(*kernel, k as nat),
            0 <= sum <= k * 65535,
        decreases 9 - k,
    {
        sum = sum + kernel[k / 3][k % 3] as u32;
        k = k + 1;
    }
    sum
}

/// Spread what one dying cell leaves.
pub fn deposit_kernel(chunks: &mut Vec<Chunk>, g: Grid, i: usize, kernel: &Kernel, energy: Energy)
    requires
        shaped(old(chunks)@, g),
        i < g.cells(),
    ensures
        same_layout(old(chunks)@, final(chunks)@),
        shaped(final(chunks)@, g),
        world_of(final(chunks)@).len() == world_of(old(chunks)@).len(),
        forall|j: int|
            0 <= j < g.cells() ==> #[trigger] world_of(final(chunks)@)[j] == enriched_by(
                g,
                *kernel,
                i as int,
                energy,
                world_of(old(chunks)@),
                j,
            ),
{
    let ghost w = world_of(chunks@);
    let total: u32 = weight_sum(kernel);
    let unit: u32 = if total > 0 {
        energy as u32 / total
    } else {
        0
    };
    proof {
        lemma_world_len(chunks@, g);
        lemma_deposit_within_energy(*kernel, energy);
    }
    let mut k: usize = 0;
    while k < 9
        invariant
            k <= 9,
            i < g.cells(),
            unit == per_unit(*kernel, energy),
            shaped(chunks@, g),
            same_layout(old(chunks)@, chunks@),
            w.len() == g.cells(),
            world_of(chunks@).len() == w.len(),
            forall|t: int|
                0 <= t < 9 ==> 0 <= #[trigger] given(*kernel, SoilField::Energy, energy, t)
                    <= energy,
            forall|j: int|
                0 <= j < g.cells() ==> #[trigger] world_of(chunks@)[j] == (CellView {
                    organic: held(
                        w[j].organic + landed(
                            g,
                            *kernel,
                            SoilField::Organic,
                            i as int,
                            energy,
                            j,
                            k as nat,
                        ),
                    ),
                    soil_energy: held(
                        w[j].soil_energy + landed(
                            g,
                            *kernel,
                            SoilField::Energy,
                            i as int,
                            energy,
                            j,
                            k as nat,
                        ),
                    ),
                    ..w[j]
                }),
        decreases 9 - k,
    {
        let weight: u16 = kernel[k / 3][k % 3];
        let dx: i32 = (k % 3) as i32 - 1;
        let dy: i32 = (k / 3) as i32 - 1;
        let ghost before = world_of(chunks@);
        if let Some(idx) = neighbor(g, i, dx, dy) {
            proof {
                assert(given(*kernel, SoilField::Energy, energy, k as int) <= energy);
                lemma_landed_bounds(
                    g,
                    *kernel,
                    SoilField::Organic,
                    i as int,
                    energy,
                    idx as int,
                    k as nat,
                );
                lemma_landed_bounds(
                    g,
                    *kernel,
                    SoilField::Energy,
                    i as int,
                    energy,
                    idx as int,
                    k as nat,
                );
                assert(before[idx as int].organic == held(
                    w[idx as int].organic + landed(
                        g,
                        *kernel,
                        SoilField::Organic,
                        i as int,
                        energy,
                        idx as int,
                        k as nat,
                    ),
                ));
            }
            let share: u16 = (unit * weight as u32) as u16;
            let cell = cell_mut(chunks, g, idx);
            cell.organic = cell.organic.saturating_add(weight);
            cell.soil_energy = cell.soil_energy.saturating_add(share);
        }
        proof {
            assert forall|j: int| 0 <= j < g.cells() implies #[trigger] world_of(chunks@)[j] == (
            CellView {
                organic: held(
                    w[j].organic + landed(
                        g,
                        *kernel,
                        SoilField::Organic,
                        i as int,
                        energy,
                        j,
                        (k + 1) as nat,
                    ),
                ),
                soil_energy: held(
                    w[j].soil_energy + landed(
                        g,
                        *kernel,
                        SoilField::Energy,
                        i as int,
                        energy,
                        j,
                        (k + 1) as nat,
                    ),
                ),
                ..w[j]
            }) by {
                assert(before[j].sunlit == w[j].sunlit);
            }
        }
        k = k + 1;
    }
}

// ---------------------------------------------------------------------------
// Deposits accumulated cell by cell
// ---------------------------------------------------------------------------
spec fn received_so_far(
    g: Grid,
    kernel: Kernel,
    field: SoilField,
    dying: Seq<Option<Energy>>,
    j: int,
    m: nat,
    i: int,
) -> int
    decreases m,
{
    if m == 0 {
        0
    } else {
        received_so_far(g, kernel, field, dying, j, (m - 1) as nat, i) + match nbr(
            g,
            j,
            -off_dx(m - 1),
            -off_dy(m - 1),
        ) {
            Some(q) => match dying[q] {
                Some(e) => if q < i {
                    given(kernel, field, e, m - 1)
                } else {
                    0
                },
                None => 0,
            },
            None => 0,
        }
    }
}

proof fn lemma_received_edges(
    g: Grid,
    kernel: Kernel,
    field: SoilField,
    dying: Seq<Option<Energy>>,
    j: int,
    m: nat,
)
    requires
        0 <= j < g.cells(),
    ensures
        received_so_far(g, kernel, field, dying, j, m, 0) == 0,
        received_so_far(g, kernel, field, dying, j, m, g.cells()) == received(
            g,
            kernel,
            field,
            dying,
            j,
            m,
        ),
    decreases m,
{
    if m > 0 {
        lemma_received_edges(g, kernel, field, dying, j, (m - 1) as nat);
        lemma_nbr_in_world(g, j, -off_dx(m - 1), -off_dy(m - 1));
    }
}

proof fn lemma_received_step(
    g: Grid,
    kernel: Kernel,
    field: SoilField,
    dying: Seq<Option<Energy>>,
    j: int,
    m: nat,
    i: int,
)
    requires
        0 <= j < g.cells(),
        0 <= i < g.cells(),
        m <= 9,
    ensures
        received_so_far(g, kernel, field, dying, j, m, i + 1) == received_so_far(
            g,
            kernel,
            field,
            dying,
            j,
            m,
            i,
        ) + (match dying[i] {
            Some(e) => landed(g, kernel, field, i, e, j, m),
            None => 0,
        }),
        0 <= received_so_far(g, kernel, field, dying, j, m, i),
    decreases m,
{
    if m > 0 {
        lemma_received_step(g, kernel, field, dying, j, (m - 1) as nat, i);
        let k = m - 1;
        lemma_nbr_symmetric(g, i, off_dx(k), off_dy(k));
        lemma_nbr_symmetric(g, j, -off_dx(k), -off_dy(k));
        if let Some(q) = nbr(g, j, -off_dx(k), -off_dy(k)) {
            if let Some(e) = dying[q] {
                lemma_deposit_within_energy(kernel, e);
                assert(0 <= given(kernel, SoilField::Energy, e, k));
            }
        }
    }
}

/// Spread what all dying cells leave. `dying` holds the energy of each dying cell
/// by linear index.
pub fn deposit_all(
    chunks: &mut Vec<Chunk>,
    g: Grid,
    kernel: &Kernel,
    dying: &Vec<Option<Energy>>,
)
    requires
        shaped(old(chunks)@, g),
        dying.len() == g.cells(),
    ensures
        same_layout(old(chunks)@, final(chunks)@),
        shaped(final(chunks)@, g),
        world_of(final(chunks)@) == deposits(g, *kernel, dying@, world_of(old(chunks)@)),
{
    let n: usize = total_cells(g);
    let ghost w = world_of(chunks@);
    proof {
        lemma_world_len(chunks@, g);
        assert forall|j: int| 0 <= j < n implies {
            &&& #[trigger] received_so_far(g, *kernel, SoilField::Organic, dying@, j, 9, 0) == 0
            &&& received_so_far(g, *kernel, SoilField::Energy, dying@, j, 9, 0) == 0
        } by {
            lemma_received_edges(g, *kernel, SoilField::Organic, dying@, j, 9);
            lemma_received_edges(g, *kernel, SoilField::Energy, dying@, j, 9);
        }
    }
    let mut i: usize = 0;
    while i < n
        invariant
            i <= n,
            n == g.cells(),
            dying.len() == n,
            shaped(chunks@, g),
            same_layout(old(chunks)@, chunks@),
            w.len() == n,
            world_of(chunks@).len() == n,
            forall|j: int|
                0 <= j < n ==> #[trigger] world_of(chunks@)[j] == (CellView {
                    organic: held(
                        w[j].organic + received_so_far(
                            g,
                            *kernel,
                            SoilField::Organic,
                            dying@,
                            j,
                            9,
                            i as int,
                        ),
                    ),
                    soil_energy: held(
                        w[j].soil_energy + received_so_far(
                            g,
                            *kernel,
                            SoilField::Energy,
                            dying@,
                            j,
                            9,
                            i as int,
                        ),
                    ),
                    ..w[j]
                }),
        decreases n - i,
    {
        let ghost before = world_of(chunks@);
        if let Some(e) = dying[i] {
            deposit_kernel(chunks, g, i, kernel, e);
        }
        proof {
            assert forall|j: int| 0 <= j < n implies #[trigger] world_of(chunks@)[j] == (CellView {
                organic: held(
                    w[j].organic + received_so_far(
                        g,
                        *kernel,
                        SoilField::Organic,
                        dying@,
                        j,
                        9,
                        i + 1,
                    ),
                ),
                soil_energy: held(
                    w[j].soil_energy + received_so_far(
                        g,
                        *kernel,
                        SoilField::Energy,
                        dying@,
                        j,
                        9,
                        i + 1,
                    ),
                ),
                ..w[j]
            }) by {
                lemma_received_step(g, *kernel, SoilField::Organic, dying@, j, 9, i as int);
                lemma_received_step(g, *kernel, SoilField::Energy, dying@, j, 9, i as int);
                assert(before[j].sunlit == w[j].sunlit);
                if let Some(e) = dying@[i as int] {
                    lemma_landed_bounds(g, *kernel, SoilField::Organic, i as int, e, j, 9);
                    lemma_landed_bounds(g, *kernel, SoilField::Energy, i as int, e, j, 9);
                }
            }
        }
        i = i + 1;
    }
    proof {
        assert forall|j: int| 0 <= j < n implies #[trigger] world_of(chunks@)[j] == enriched(
            g,
            *kernel,
            dying@,
            w,
            j,
        ) by {
            lemma_received_edges(g, *kernel, SoilField::Organic, dying@, j, 9);
            lemma_received_edges(g, *kernel, SoilField::Energy, dying@, j, 9);
        }
        assert(world_of(chunks@) =~= deposits(g, *kernel, dying@, w));
    }
}

} // verus!
