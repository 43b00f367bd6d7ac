//! Light, soil and upkeep: the phases that touch each cell by itself.
use vstd::prelude::*;
use crate::grid::{cell_mut, lemma_world_len, same_layout, shaped, total_cells, world_of, Grid};
use crate::protocol::{CellView, Chunk, Energy, Occupant, SimParams};
use crate::sim::occupant::{energy_of, occupant_energy, set_occupant_energy, upkeep_for, upkeep_of};
use crate::sim::occupant::with_energy;

verus! {

// ---------------------------------------------------------------------------
// Photosynthesis
// ---------------------------------------------------------------------------
/// A leaf in the light gains energy, up to what it can hold.
pub open spec fn lit_cell(params: SimParams, c: CellView) -> CellView {
    if c.sunlit && c.occupant is Leaf {
        let e = energy_of(c.occupant)->0 + params.leaf_photosynthesis;
        CellView {
            occupant: with_energy(
                c.occupant,
                (if e > Energy::MAX {
                    Energy::MAX as int
                } else {
                    e
                }) as Energy,
            ),
            ..c
        }
    } else {
        c
    }
}

/// The world after photosynthesis.
pub open spec fn photosynthesis(params: SimParams, w: Seq<CellView>) -> Seq<CellView> {
    Seq::new(w.len(), |i: int| lit_cell(params, w[i]))
}

/// Feed the leaves that stand in the light.
pub fn phase_photosynthesis(chunks: &mut Vec<Chunk>, g: Grid, params: &SimParams)
    requires
        shaped(old(chunks)@, g),
    ensures
        same_layout(old(chunks)@, final(chunks)@),
        world_of(final(chunks)@) == photosynthesis(*params, world_of(old(chunks)@)),
{
    let n: usize = total_cells(g);
    let ghost w0 = world_of(chunks@);
    proof {
        lemma_world_len(chunks@, g);
    }
    let mut i: usize = 0;
    while i < n
        invariant
            i <= n,
            n == g.cells(),
            shaped(chunks@, g),
            same_layout(old(chunks)@, chunks@),
            w0.len() == n,
            world_of(chunks@).len() == n,
            forall|j: int|
                0 <= j < n ==> #[trigger] world_of(chunks@)[j] == (if j < i {
                    lit_cell(*params, w0[j])
                } else {
                    w0[j]
                }),
        decreases n - i,
    {
        let cell = cell_mut(chunks, g, i);
        if cell.sunlit {
            if let Occupant::Leaf { energy, .. } = &mut cell.occupant {
                *energy = energy.saturating_add(params.leaf_photosynthesis);
            }
        }
        i = i + 1;
    }
    assert(world_of(chunks@) =~= photosynthesis(*params, w0));
}

// ---------------------------------------------------------------------------
// Soil energy regulation
// ---------------------------------------------------------------------------
/// Soil energy drifts towards its resting level without overshooting it.
pub open spec fn regulated(params: SimParams, e: u16) -> u16 {
    let rest = params.soil_energy_rest;
    let step = params.soil_energy_regulation;
    if e < rest {
        (if e + step > rest {
            rest as int
        } else {
            e + step
        }) as u16
    } else if e - step < rest {
        rest
    } else {
        (e - step) as u16
    }
}

/// The world after soil energy has drifted.
pub open spec fn regulation(params: SimParams, w: Seq<CellView>) -> Seq<CellView> {
    Seq::new(
        w.len(),
        |i: int| CellView { soil_energy: regulated(params, w[i].soil_energy), ..w[i] },
    )
}

/// Let the soil energy drift.
pub fn phase_soil_regulation(chunks: &mut Vec<Chunk>, g: Grid, params: &SimParams)
    requires
        shaped(old(chunks)@, g),
    ensures
        same_layout(old(chunks)@, final(chunks)@),
        world_of(final(chunks)@) == regulation(*params, world_of(old(chunks)@)),
{
    let n: usize = total_cells(g);
    let ghost w0 = world_of(chunks@);
    proof {
        lemma_world_len(chunks@, g);
    }
    let rest: u16 = params.soil_energy_rest;
    let step: u16 = params.soil_energy_regulation;
    let mut i: usize = 0;
    while i < n
        invariant
            i <= n,
            n == g.cells(),
            rest == params.soil_energy_rest,
            step == params.soil_energy_regulation,
            shaped(chunks@, g),
            same_layout(old(chunks)@, chunks@),
            w0.len() == n,
            world_of(chunks@).len() == n,
            forall|j: int|
                0 <= j < n ==> #[trigger] world_of(chunks@)[j] == (if j < i {
                    CellView { soil_energy: regulated(*params, w0[j].soil_energy), ..w0[j] }
                } else {
                    w0[j]
                }),
        decreases n - i,
    {
        let cell = cell_mut(chunks, g, i);
        if cell.soil_energy < rest {
            let raised: u16 = cell.soil_energy.saturating_add(step);
            cell.soil_energy = if raised > rest {
                rest
            } else {
                raised
            };
        } else if cell.soil_energy > rest {
            let lowered: u16 = cell.soil_energy.saturating_sub(step);
            cell.soil_energy = if lowered < rest {
                rest
            } else {
                lowered
            };
        }
        i = i + 1;
    }
    assert(world_of(chunks@) =~= regulation(*params, w0));
}

// ---------------------------------------------------------------------------
// Upkeep
// ---------------------------------------------------------------------------
/// An occupant pays its upkeep as far as its energy reaches.
pub open spec fn paid_cell(params: SimParams, c: CellView) -> CellView {
    match energy_of(c.occupant) {
        Some(e) => {
            let cost = upkeep_of(params, c.occupant);
            CellView {
                occupant: with_energy(
                    c.occupant,
                    (if e < cost {
                        0
                    } else {
                        e - cost
                    }) as Energy,
                ),
                ..c
            }
        },
        None => c,
    }
}

/// The world after upkeep.
pub open spec fn upkeep(params: SimParams, w: Seq<CellView>) -> Seq<CellView> {
    Seq::new(w.len(), |i: int| paid_cell(params, w[i]))
}

/// Make every occupant pay its upkeep.
pub fn phase_upkeep(chunks: &mut Vec<Chunk>, g: Grid, params: &SimParams)
    requires
        shaped(old(chunks)@, g),
    ensures
        same_layout(old(chunks)@, final(chunks)@),
        world_of(final(chunks)@) == upkeep(*params, world_of(old(chunks)@)),
{
    let n: usize = total_cells(g);
    let ghost w0 = world_of(chunks@);
    proof {
        lemma_world_len(chunks@, g);
    }
    let mut i: usize = 0;
    while i < n
        invariant
            i <= n,
            n == g.cells(),
            shaped(chunks@, g),
            same_layout(old(chunks)@, chunks@),
            w0.len() == n,
            world_of(chunks@).len() == n,
            forall|j: int|
                0 <= j < n ==> #[trigger] world_of(chunks@)[j] == (if j < i {
                    paid_cell(*params, w0[j])
                } else {
                    w0[j]
                }),
        decreases n - i,
    {
        let cell = cell_mut(chunks, g, i);
        if let Some(e) = occupant_energy(&cell.occupant) {
            let cost: Energy = upkeep_for(params, &cell.occupant);
            set_occupant_energy(&mut cell.occupant, e.saturating_sub(cost));
        }
        i = i + 1;
    }
    assert(world_of(chunks@) =~= upkeep(*params, w0));
}

/// Soil energy comes closer to its resting level, by at most one step and never past
/// it, and stays there once it is there.
pub proof fn lemma_regulation(params: SimParams, e: u16)
    ensures
        e <= params.soil_energy_rest ==> e <= regulated(params, e) <= params.soil_energy_rest,
        e >= params.soil_energy_rest ==> params.soil_energy_rest <= regulated(params, e) <= e,
        regulated(params, e) - e <= params.soil_energy_regulation,
        e - regulated(params, e) <= params.soil_energy_regulation,
        e == params.soil_energy_rest ==> regulated(params, e) == e,
{
}

} // verus!
