//! One tick of the simulation: all phases in order.
use vstd::prelude::*;
use crate::grid::{lemma_same_layout_shaped, same_layout, shaped, world_of, Grid};
use crate::protocol::{CellView, Chunk, PlantId, SimParams};
use crate::rng::{RngView, SimRng};
use crate::sim::census::{census_of, take_census, Census};
use crate::sim::death::{death, death_count, phase_death};
use crate::sim::germinate::{germination, germination_count, nth_id, phase_germination};
use crate::sim::growth::{grower_count, growth, phase_growth_pull, rng_before};
use crate::sim::pull::{phase_soil_pulls, soil_pulls};
use crate::sim::push::{directed_push, phase_push};
use crate::sim::soil::{phase_photosynthesis, phase_soil_regulation, phase_upkeep, photosynthesis, regulation};
use crate::sim::soil::upkeep;
use crate::sim::stem::{drain_count, drainage, phase_drainage, phase_prune_pull, prune, prune_count};

verus! {

/// What a tick did.
#[derive(Clone, Copy, Debug, PartialEq, Eq)]
pub struct TickReport {
    /// Stems whose links changed.
    pub prune_changes: u64,
    /// Links to dead ends that were drained.
    pub drained: u64,
    pub germinations: u64,
    /// Sprouts that were considered for growth.
    pub growth_attempts: u64,
    pub deaths: u64,
    /// The occupants at the end of the tick.
    pub census: Census,
}

/// Everything that a tick reads and changes.
#[verifier::ext_equal]
pub struct SimView {
    pub world: Seq<CellView>,
    pub next_plant_id: PlantId,
    pub rng: RngView,
}

/// The world after the phases that only move energy: photosynthesis, soil drift,
/// soil pulls and upkeep.
pub open spec fn after_upkeep(g: Grid, params: SimParams, w: Seq<CellView>) -> Seq<CellView> {
    upkeep(params, soil_pulls(g, params, regulation(params, photosynthesis(params, w))))
}

/// The world after the links have been tended and the surplus has been pushed.
pub open spec fn after_push(g: Grid, params: SimParams, w: Seq<CellView>) -> Seq<CellView> {
    directed_push(g, params, drainage(g, prune(g, after_upkeep(g, params, w))))
}

/// The world after germination.
pub open spec fn after_germination(g: Grid, params: SimParams, s: SimView) -> Seq<CellView> {
    germination(g, params, after_push(g, params, s.world), s.next_plant_id)
}

/// The world after growth.
pub open spec fn after_growth(g: Grid, params: SimParams, s: SimView) -> Seq<CellView> {
    growth(g, params, params.death_deposit_kernel, after_germination(g, params, s), s.rng)
}

/// The state after one tick. It is determined by the state before it and the
/// parameters alone.
pub open spec fn tick(g: Grid, params: SimParams, s: SimView) -> SimView {
    SimView {
        world: death(g, params, after_growth(g, params, s)),
        next_plant_id: nth_id(
            s.next_plant_id,
            germination_count(g, params, after_push(g, params, s.world), g.cells() as nat) as int,
        ),
        rng: rng_before(g, params, after_germination(g, params, s), s.rng, g.cells() as nat),
    }
}

/// The state after `n` ticks.
pub open spec fn ticks(g: Grid, params: SimParams, s: SimView, n: nat) -> SimView
    decreases n,
{
    if n == 0 {
        s
    } else {
        tick(g, params, ticks(g, params, s, (n - 1) as nat))
    }
}

/// What a tick reports.
pub open spec fn reports(r: TickReport, g: Grid, params: SimParams, s: SimView) -> bool {
    let n = g.cells() as nat;
    &&& r.prune_changes == prune_count(g, after_upkeep(g, params, s.world), n)
    &&& r.drained == drain_count(g, prune(g, after_upkeep(g, params, s.world)), n)
    &&& r.germinations == germination_count(g, params, after_push(g, params, s.world), n)
    &&& r.growth_attempts == grower_count(after_germination(g, params, s), n)
    &&& r.deaths == death_count(g, params, after_growth(g, params, s), n)
    &&& census_of(r.census, tick(g, params, s).world)
}

/// Advance the world by one tick.
pub fn mutate_world(
    chunks: &mut Vec<Chunk>,
    chunks_x: u32,
    chunks_y: u32,
    params: &SimParams,
    next_plant_id: &mut PlantId,
    rng: &mut SimRng,
) -> (report: TickReport)
    requires
        shaped(old(chunks)@, (Grid { chunks_x, chunks_y, wrap: params.world_wrap })),
    ensures
        same_layout(old(chunks)@, final(chunks)@),
        ({
            let g = Grid { chunks_x, chunks_y, wrap: params.world_wrap };
            let before = SimView {
                world: world_of(old(chunks)@),
                next_plant_id: *old(next_plant_id),
                rng: old(rng)@,
            };
            let after = tick(g, *params, before);
            &&& world_of(final(chunks)@) == after.world
            &&& *final(next_plant_id) == after.next_plant_id
            &&& final(rng)@ == after.rng
            &&& reports(report, g, *params, before)
        }),
{
    let g = Grid { chunks_x, chunks_y, wrap: params.world_wrap };
    let ghost start = chunks@;
    phase_photosynthesis(chunks, g, params);
    proof {
        lemma_same_layout_shaped(start, chunks@, g);
    }
    let ghost c1 = chunks@;
    phase_soil_regulation(chunks, g, params);
    proof {
        lemma_same_layout_shaped(c1, chunks@, g);
    }
    let ghost c2 = chunks@;
    phase_soil_pulls(chunks, g, params);
    proof {
        lemma_same_layout_shaped(c2, chunks@, g);
    }
    let ghost c3 = chunks@;
    phase_upkeep(chunks, g, params);
    proof {
        lemma_same_layout_shaped(c3, chunks@, g);
    }
    let ghost c4 = chunks@;
    let prune_changes: u64 = phase_prune_pull(chunks, g);
    proof {
        lemma_same_layout_shaped(c4, chunks@, g);
    }
    let ghost c5 = chunks@;
    let drained: u64 = phase_drainage(chunks, g);
    proof {
        lemma_same_layout_shaped(c5, chunks@, g);
    }
    let ghost c6 = chunks@;
    phase_push(chunks, g, params);
    proof {
        lemma_same_layout_shaped(c6, chunks@, g);
    }
    let ghost c7 = chunks@;
    let germinations: u64 = phase_germination(chunks, g, params, next_plant_id);
    proof {
        lemma_same_layout_shaped(c7, chunks@, g);
    }
    let ghost c8 = chunks@;
    let growth_attempts: u64 = phase_growth_pull(
        chunks,
        g,
        params,
        &params.death_deposit_kernel,
        rng,
    );
    proof {
        lemma_same_layout_shaped(c8, chunks@, g);
    }
    let ghost c9 = chunks@;
    let deaths: u64 = phase_death(chunks, g, params);
    proof {
        lemma_same_layout_shaped(c9, chunks@, g);
    }
    let census = take_census(chunks, g);
    TickReport { prune_changes, drained, germinations, growth_attempts, deaths, census }
}

} // verus!
