//! Determinism trials: a seed and a number of ticks determine a world.
use vstd::prelude::*;
use crate::digest::{digest, hash_chunks};
use crate::grid::{cell_count, lemma_same_layout_shaped, lemma_world_len, shaped, world_of, Grid};
use crate::protocol::{default_sim_params, Chunk, PlantId, SimParams, WorldGenParams};
use crate::rng::{seeded, SimRng};
use crate::sim::census::{count_kind, count_occupants, lemma_all_cells, lemma_count_bound, Kind};
use crate::sim::tick::{mutate_world, tick, ticks, SimView};
use crate::world::{build_world, fresh_world, grid_of, lemma_planted_count, place_random_sprout_grid};
use crate::world::{plantable, planted, RateSpread};

verus! {

/// The parameters of a trial: the defaults, in a world with edges.
pub open spec fn trial_params() -> SimParams {
    SimParams { world_wrap: false, ..default_sim_params() }
}

/// The world of a trial has fewer chunks than this, so that 32 bits count its
/// occupants however many there are.
pub const MAX_CHUNKS: u64 = 0x40_0000;

/// Knobs of a world that is small enough for a trial.
pub open spec fn triable(params: WorldGenParams) -> bool {
    plantable(params) && params.chunks_x * params.chunks_y < MAX_CHUNKS
}

/// The state that a trial begins with.
pub open spec fn trial_start(params: WorldGenParams, spread: Option<Seq<u32>>, seed: u64) -> SimView {
    let plan = planted(params, spread, fresh_world(params), seeded(seed));
    SimView { world: plan.world, next_plant_id: (plan.count + 1) as u32, rng: plan.rng }
}

/// The state of a trial after `n` ticks.
pub open spec fn trial_after(
    params: WorldGenParams,
    spread: Option<Seq<u32>>,
    seed: u64,
    n: nat,
) -> SimView {
    ticks(grid_of(params, false), trial_params(), trial_start(params, spread, seed), n)
}

/// A world that is run from a seed.
pub struct Trial {
    pub chunks_x: u32,
    pub chunks_y: u32,
    pub chunks: Vec<Chunk>,
    pub next_plant_id: PlantId,
    pub rng: SimRng,
    /// How many ticks have been run.
    pub tick: u64,
}

/// What one tick of a trial did.
#[derive(Clone, Copy, Debug, PartialEq, Eq)]
pub struct TrialRow {
    pub tick: u64,
    /// The digest of the world after the tick.
    pub hash: u64,
    /// Sprouts, seeds and leaves before the tick.
    pub before: (u32, u32, u32),
    /// Sprouts, seeds and leaves after the tick.
    pub after: (u32, u32, u32),
    pub next_plant_id: PlantId,
}

/// Whether three numbers count the sprouts, seeds and leaves of a world.
pub open spec fn counts_of(counts: (u32, u32, u32), s: SimView) -> bool {
    &&& counts.0 == count_kind(s.world, Kind::Sprout)
    &&& counts.1 == count_kind(s.world, Kind::Seed)
    &&& counts.2 == count_kind(s.world, Kind::Leaf)
}

impl Trial {
    /// The extent of the world; trials have hard edges.
    pub open spec fn grid(&self) -> Grid {
        Grid { chunks_x: self.chunks_x, chunks_y: self.chunks_y, wrap: false }
    }

    /// The world has the extent that the trial says.
    pub open spec fn wf(&self) -> bool {
        &&& shaped(self.chunks@, self.grid())
        &&& self.chunks_x * self.chunks_y < MAX_CHUNKS
    }

    /// What the next tick reads and changes.
    pub open spec fn sim(&self) -> SimView {
        SimView {
            world: world_of(self.chunks@),
            next_plant_id: self.next_plant_id,
            rng: self.rng@,
        }
    }

    /// The trial is where a seed and its ticks determine it to be.
    pub open spec fn runs(&self, params: WorldGenParams, spread: Option<Seq<u32>>, seed: u64) -> bool {
        &&& self.chunks_x == params.chunks_x
        &&& self.chunks_y == params.chunks_y
        &&& self.sim() == trial_after(params, spread, seed, self.tick as nat)
    }

    /// Build and plant the world of a seed.
    pub fn start(params: &WorldGenParams, spread: &RateSpread, seed: u64) -> (trial: Trial)
        requires
            triable(*params),
        ensures
            trial.wf(),
            trial.tick == 0,
            trial.runs(*params, spread@, seed),
    {
        let mut chunks = build_world(params);
        let mut rng = SimRng::seed_from_u64(seed);
        let ghost built = chunks@;
        assert(shaped(built, grid_of(*params, false)));
        proof {
            lemma_planted_count(*params, spread@, fresh_world(*params), seeded(seed));
            assert(cell_count(params.chunks_x as int, params.chunks_y as int) == params.chunks_x
                * params.chunks_y * 1024);
        }
        let count: u32 = place_random_sprout_grid(&mut chunks, params, spread, &mut rng);
        let trial = Trial {
            chunks_x: params.chunks_x,
            chunks_y: params.chunks_y,
            chunks,
            next_plant_id: count + 1,
            rng,
            tick: 0,
        };
        proof {
            assert(trial.grid() == grid_of(*params, false));
            lemma_same_layout_shaped(built, trial.chunks@, trial.grid());
            assert(trial.sim() == trial_start(*params, spread@, seed));
        }
        trial
    }

    /// The digest of the world.
    pub fn hash(&self) -> (hash: u64)
        requires
            self.wf(),
        ensures
            hash == digest(self.sim().world),
    {
        hash_chunks(
            &self.chunks,
            Grid { chunks_x: self.chunks_x, chunks_y: self.chunks_y, wrap: false },
        )
    }

    fn counts(&self) -> (counts: (u32, u32, u32))
        requires
            self.wf(),
        ensures
            counts_of(counts, self.sim()),
    {
        proof {
            let w = world_of(self.chunks@);
            lemma_all_cells(self.chunks@, self.grid());
            lemma_world_len(self.chunks@, self.grid());
            lemma_count_bound(w, Kind::Sprout);
            lemma_count_bound(w, Kind::Seed);
            lemma_count_bound(w, Kind::Leaf);
            assert(self.grid().cells() == self.chunks_x * self.chunks_y * 1024);
        }
        count_occupants(&self.chunks)
    }

    /// Run one tick.
    pub fn step(&mut self) -> (row: TrialRow)
        requires
            old(self).wf(),
            old(self).tick < u64::MAX,
        ensures
            final(self).wf(),
            final(self).tick == old(self).tick + 1,
            final(self).chunks_x == old(self).chunks_x,
            final(self).chunks_y == old(self).chunks_y,
            final(self).sim() == tick(old(self).grid(), trial_params(), old(self).sim()),
            row.tick == final(self).tick,
            row.hash == digest(final(self).sim().world),
            counts_of(row.before, old(self).sim()),
            counts_of(row.after, final(self).sim()),
            row.next_plant_id == final(self).next_plant_id,
            forall|params: WorldGenParams, spread: Option<Seq<u32>>, seed: u64| #[trigger]
                old(self).runs(params, spread, seed) ==> final(self).runs(params, spread, seed),
    {
        let before = self.counts();
        let mut params = SimParams::default();
        params.world_wrap = false;
        let ghost start = self.chunks@;
        let ghost g = self.grid();
        mutate_world(
            &mut self.chunks,
            self.chunks_x,
            self.chunks_y,
            &params,
            &mut self.next_plant_id,
            &mut self.rng,
        );
        proof {
            assert(params == trial_params());
            lemma_same_layout_shaped(start, self.chunks@, g);
        }
        self.tick = self.tick + 1;
        TrialRow {
            tick: self.tick,
            hash: self.hash(),
            before,
            after: self.counts(),
            next_plant_id: self.next_plant_id,
        }
    }
}

/// The same seed gives the same world: two trials with the same knobs and seed that
/// have run as many ticks agree in every cell, in the next plant id, in the state of
/// the random numbers and in the digest.
pub proof fn lemma_same_seed_same_world(
    a: Trial,
    b: Trial,
    params: WorldGenParams,
    spread: Option<Seq<u32>>,
    seed: u64,
)
    requires
        a.runs(params, spread, seed),
        b.runs(params, spread, seed),
        a.tick == b.tick,
    ensures
        a.sim() == b.sim(),
        digest(a.sim().world) == digest(b.sim().world),
{
}

/// A trial is the planted world of its seed, run for its ticks with the default scalars in a
/// world with edges.
pub proof fn lemma_what_a_trial_runs(
    t: Trial,
    params: WorldGenParams,
    spread: Option<Seq<u32>>,
    seed: u64,
)
    requires
        t.runs(params, spread, seed),
    ensures
        ({
            let plan = planted(params, spread, fresh_world(params), seeded(seed));
            let start = SimView {
                world: plan.world,
                next_plant_id: (plan.count + 1) as u32,
                rng: plan.rng,
            };
            let g = Grid { chunks_x: params.chunks_x, chunks_y: params.chunks_y, wrap: false };
            let scalars = SimParams { world_wrap: false, ..default_sim_params() };
            t.sim() == ticks(g, scalars, start, t.tick as nat)
        }),
{
}

} // verus!
