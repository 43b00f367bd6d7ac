//! The server's simulation state and how commands, requests and time change it.
use vstd::prelude::*;
use crate::genome::permitted;
use crate::grid::{cell_mut, idx_of, lemma_idx_of, lemma_same_layout_shaped, lemma_world_len, linear_idx};
use crate::grid::{same_layout, shaped, world_of, Grid};
use crate::protocol::{default_vine_view, modified_chunks, shows_all, shows_modified, wire_chunks, CellView};
use crate::protocol::{Chunk, ClientMessage, Direction, Genome, Occupant, OccupantView, PlantId};
use crate::protocol::{ServerMessage, SimParams, WireChunk, WorldGenParams, DEFAULT_MUTATION_RATE};
use crate::rng::{seeded, SimRng};
use crate::sim::germinate::nth_id;
use crate::sim::lasting::{lemma_planted_genomes_are_permitted, well_bred};
use crate::sim::tick::{mutate_world, reports, tick, SimView, TickReport};
use crate::world::{build_world, enough_ids, fresh_world, grid_of, ids_suffice, is_plantable};
use crate::world::{lemma_every_lit_point_is_planted, lemma_fresh_world_len, lemma_placed};
use crate::world::{place_random_sprout_grid, placed, plantable, planted, RateSpread};

verus! {

// ---------------------------------------------------------------------------
// Pacing
// ---------------------------------------------------------------------------
/// How the simulation is paced.
#[derive(Clone, Copy, Debug)]
pub struct SimControl {
    pub paused: bool,
    pub tick_hz: u32,
    /// When false, the simulation ticks as fast as it can; when true, it honours
    /// `tick_hz` between ticks. Pausing is independent.
    pub tick_rate_limited: bool,
    /// Single steps that were asked for and not yet taken.
    pub step_pending: u32,
}

/// What the simulation loop does next.
#[derive(Clone, Copy, Debug, PartialEq, Eq, Structural)]
pub enum SimAction {
    TickNow,
    /// Sleep for so many milliseconds, then tick.
    TickAfter(u64),
    /// Sleep for so many milliseconds, then look again.
    Wait(u64),
}

/// How long a paused simulation sleeps before it looks again.
pub const PAUSE_POLL_MILLIS: u64 = 50;

/// What the loop does next: pending steps come first, then the pause, then the
/// pace.
pub open spec fn action_for(ctrl: SimControl) -> SimAction {
    if ctrl.step_pending > 0 {
        SimAction::TickNow
    } else if ctrl.paused {
        SimAction::Wait(PAUSE_POLL_MILLIS)
    } else if ctrl.tick_rate_limited {
        let hz: u64 = if ctrl.tick_hz == 0 {
            1
        } else {
            ctrl.tick_hz as u64
        };
        SimAction::TickAfter((1000u64 / hz))
    } else {
        SimAction::TickNow
    }
}

/// The controls after the loop has acted on them: taking a pending step uses it up.
pub open spec fn acted(ctrl: SimControl) -> SimControl {
    SimControl {
        step_pending: if ctrl.step_pending > 0 {
            (ctrl.step_pending - 1) as u32
        } else {
            0
        },
        ..ctrl
    }
}

/// Decide what the loop does next.
pub fn next_action(ctrl: &mut SimControl) -> (action: SimAction)
    ensures
        action == action_for(*old(ctrl)),
        *final(ctrl) == acted(*old(ctrl)),
{
    if ctrl.step_pending > 0 {
        ctrl.step_pending = ctrl.step_pending - 1;
        SimAction::TickNow
    } else if ctrl.paused {
        SimAction::Wait(PAUSE_POLL_MILLIS)
    } else if ctrl.tick_rate_limited {
        let hz: u32 = if ctrl.tick_hz == 0 {
            1
        } else {
            ctrl.tick_hz
        };
        SimAction::TickAfter(1000 / hz as u64)
    } else {
        SimAction::TickNow
    }
}

// ---------------------------------------------------------------------------
// State
// ---------------------------------------------------------------------------
/// Everything the server keeps about a running simulation.
pub struct SimState {
    /// World size in chunks.
    pub chunks_x: u32,
    pub chunks_y: u32,
    pub world: Vec<Chunk>,
    pub next_plant_id: PlantId,
    pub current_tick: u64,
    pub control: SimControl,
    pub seed: u64,
    pub rng: SimRng,
    pub params: SimParams,
    /// The knobs that built the current world.
    pub world_gen_params: WorldGenParams,
}

impl SimState {
    /// The extent of the world.
    pub open spec fn grid(&self) -> Grid {
        Grid { chunks_x: self.chunks_x, chunks_y: self.chunks_y, wrap: self.params.world_wrap }
    }

    /// The world has the extent that the state says.
    pub open spec fn wf(&self) -> bool {
        shaped(self.world@, self.grid())
    }

    /// What a tick reads and changes.
    pub open spec fn sim(&self) -> SimView {
        SimView {
            world: world_of(self.world@),
            next_plant_id: self.next_plant_id,
            rng: self.rng@,
        }
    }

    /// The greeting that tells viewers the state of the controls.
    pub open spec fn greeting(&self) -> ServerMessage {
        ServerMessage::Welcome {
            world_chunks_x: self.chunks_x,
            world_chunks_y: self.chunks_y,
            paused: self.control.paused,
            tick_hz: self.control.tick_hz,
            tick_rate_limited: self.control.tick_rate_limited,
            tick: self.current_tick,
            seed: self.seed,
            sim_params: self.params,
            world_gen_params: self.world_gen_params,
        }
    }

    /// Advance the world by one tick.
    pub fn advance(&mut self) -> (report: TickReport)
        requires
            old(self).wf(),
            old(self).current_tick < u64::MAX,
        ensures
            final(self).wf(),
            final(self).sim() == tick(old(self).grid(), old(self).params, old(self).sim()),
            reports(report, old(self).grid(), old(self).params, old(self).sim()),
            final(self).current_tick == old(self).current_tick + 1,
            same_layout(old(self).world@, final(self).world@),
            final(self).chunks_x == old(self).chunks_x,
            final(self).chunks_y == old(self).chunks_y,
            final(self).control == old(self).control,
            final(self).seed == old(self).seed,
            final(self).params == old(self).params,
            final(self).world_gen_params == old(self).world_gen_params,
    {
        let params = self.params;
        let ghost before = self.world@;
        let ghost g = self.grid();
        let report = mutate_world(
            &mut self.world,
            self.chunks_x,
            self.chunks_y,
            &params,
            &mut self.next_plant_id,
            &mut self.rng,
        );
        proof {
            lemma_same_layout_shaped(before, self.world@, g);
        }
        self.current_tick = self.current_tick + 1;
        report
    }

    /// The greeting for a viewer.
    pub fn welcome(&self) -> (msg: ServerMessage)
        ensures
            msg == self.greeting(),
    {
        ServerMessage::Welcome {
            world_chunks_x: self.chunks_x,
            world_chunks_y: self.chunks_y,
            paused: self.control.paused,
            tick_hz: self.control.tick_hz,
            tick_rate_limited: self.control.tick_rate_limited,
            tick: self.current_tick,
            seed: self.seed,
            sim_params: self.params,
            world_gen_params: self.world_gen_params,
        }
    }

    /// The whole world for viewers.
    pub fn chunk_batch(&self) -> (msg: ServerMessage)
        ensures
            msg matches ServerMessage::ChunkBatch { tick: t, chunks } && t == self.current_tick
                && shows_all(chunks@, self.world@),
    {
        ServerMessage::ChunkBatch { tick: self.current_tick, chunks: wire_chunks(&self.world) }
    }

    /// What has changed in the world since viewers were last told of it; `shown` is
    /// what they were told, and is brought up to date.
    pub fn tick_update(&self, shown: &mut Vec<WireChunk>) -> (msg: ServerMessage)
        ensures
            updates(msg, *self, old(shown)@),
            shows_all(final(shown)@, self.world@),
    {
        ServerMessage::TickUpdate {
            tick: self.current_tick,
            chunks: modified_chunks(shown, &self.world),
        }
    }

    /// Plant a starter sprout at world coordinates. Returns its plant id, or none
    /// when the coordinates lie outside the world.
    pub fn spawn_sprout(&mut self, x: i32, y: i32, facing: Direction) -> (plant: Option<PlantId>)
        requires
            old(self).wf(),
        ensures
            plant is Some == in_world(old(self).grid(), x, y),
            plant is None ==> *final(self) == *old(self),
            plant matches Some(id) ==> {
                let i = idx_of(old(self).chunks_x as int, x as int, y as int);
                &&& id == old(self).next_plant_id
                &&& final(self).next_plant_id == nth_id(id, 1)
                &&& world_of(final(self).world@) == world_of(old(self).world@).update(
                    i,
                    spawned_cell(world_of(old(self).world@)[i], id, facing),
                )
                &&& same_layout(old(self).world@, final(self).world@)
                &&& same_but_world(*old(self), *final(self))
            },
            final(self).wf(),
    {
        let max_x: i32 = (self.chunks_x * 32) as i32;
        let max_y: i32 = (self.chunks_y * 32) as i32;
        if x < 0 || y < 0 || x >= max_x || y >= max_y {
            return None;
        }
        let g = Grid {
            chunks_x: self.chunks_x,
            chunks_y: self.chunks_y,
            wrap: self.params.world_wrap,
        };
        proof {
            lemma_idx_of(g.chunks_x as int, g.chunks_y as int, x as int, y as int);
        }
        let i: usize = linear_idx(self.chunks_x, x, y);
        let plant: PlantId = self.next_plant_id;
        self.next_plant_id = plant.wrapping_add(1);
        let genome = Genome::default_vine();
        let cell = cell_mut(&mut self.world, g, i);
        cell.lineage_mutation_rate = genome.mutation_rate;
        cell.occupant = Occupant::Sprout {
            plant,
            clan: 0,
            energy: 100,
            facing,
            genome: Box::new(genome),
            parent: None,
            current_gene: 0,
        };
        Some(plant)
    }

    /// Replace the world by a freshly built and planted one. The controls and the
    /// live scalars stay as they are.
    pub fn regenerate_world(&mut self, seed: u64, params: WorldGenParams, spread: &RateSpread)
        requires
            plantable(params),
            ids_suffice(params, fresh_world(params)),
        ensures
            final(self).wf(),
            regenerated(*final(self), seed, params, spread@),
            placed(final(self).world@, params.chunks_x),
            final(self).control == old(self).control,
            final(self).params == old(self).params,
    {
        let chunks = build_world(&params);
        self.settle(chunks, seed, params, spread);
    }

    /// Replace the world by a built one and plant it.
    fn settle(
        &mut self,
        bare: Vec<Chunk>,
        seed: u64,
        params: WorldGenParams,
        spread: &RateSpread,
    )
        requires
            plantable(params),
            world_of(bare@) == fresh_world(params),
            forall|wrap: bool| #[trigger] shaped(bare@, grid_of(params, wrap)),
            placed(bare@, params.chunks_x),
            ids_suffice(params, fresh_world(params)),
        ensures
            final(self).wf(),
            regenerated(*final(self), seed, params, spread@),
            placed(final(self).world@, params.chunks_x),
            final(self).control == old(self).control,
            final(self).params == old(self).params,
    {
        let mut chunks = bare;
        let ghost built = chunks@;
        let mut rng = SimRng::seed_from_u64(seed);
        proof {
            assert(shaped(built, grid_of(params, false)));
            lemma_fresh_world_len(params);
            lemma_every_lit_point_is_planted(params, spread@, fresh_world(params), rng@);
        }
        let count: u32 = place_random_sprout_grid(&mut chunks, &params, spread, &mut rng);
        self.world = chunks;
        self.rng = rng;
        self.world_gen_params = params;
        self.chunks_x = params.chunks_x;
        self.chunks_y = params.chunks_y;
        self.seed = seed;
        self.next_plant_id = count + 1;
        self.current_tick = 0;
        proof {
            assert(shaped(built, self.grid())) by {
                assert(self.grid() == grid_of(params, self.params.world_wrap));
            }
            lemma_same_layout_shaped(built, self.world@, self.grid());
            lemma_placed(built, self.world@, params.chunks_x);
        }
    }

    /// Carry out a command of a viewer.
    pub fn apply_command(&mut self, msg: ClientMessage, spread: &RateSpread) -> (reaction: Reaction)
        requires
            old(self).wf(),
        ensures
            final(self).wf(),
            placed(old(self).world@, old(self).chunks_x) ==> placed(
                final(self).world@,
                final(self).chunks_x,
            ),
            commanded(*old(self), *final(self), msg, spread@, reaction),
    {
        match msg {
            ClientMessage::SpawnSprout { x, y, facing } => {
                match self.spawn_sprout(x, y, facing) {
                    Some(_) => {
                        proof {
                            if placed(old(self).world@, old(self).chunks_x) {
                                lemma_placed(old(self).world@, self.world@, self.chunks_x);
                            }
                        }
                        Reaction::Nothing
                    },
                    None => Reaction::Refused,
                }
            },
            ClientMessage::SetPaused(paused) => {
                self.control.paused = paused;
                Reaction::BroadcastWelcome
            },
            ClientMessage::Step => {
                self.control.paused = true;
                self.control.step_pending = self.control.step_pending.saturating_add(1);
                Reaction::BroadcastWelcome
            },
            ClientMessage::SetTickHz(hz) => {
                self.control.tick_hz = if hz == 0 {
                    1
                } else {
                    hz
                };
                Reaction::BroadcastWelcome
            },
            ClientMessage::SetTickRateLimited(limited) => {
                self.control.tick_rate_limited = limited;
                Reaction::BroadcastWelcome
            },
            ClientMessage::SetSimParams(params) => {
                self.params = params;
                Reaction::BroadcastWelcome
            },
            ClientMessage::RegenerateWorld { seed, params } => {
                if !is_plantable(&params) {
                    return Reaction::Refused;
                }
                let chunks = build_world(&params);
                assert(shaped(chunks@, grid_of(params, false)));
                if !enough_ids(&chunks, &params) {
                    return Reaction::Refused;
                }
                self.settle(chunks, seed, params, spread);
                Reaction::BroadcastWorld
            },
            ClientMessage::Hello => Reaction::Unexpected,
            ClientMessage::Subscribe => Reaction::Unexpected,
        }
    }

    /// Answer a request of a viewer; commands get no answer.
    pub fn answer_request(&self, msg: &ClientMessage) -> (answer: Option<ServerMessage>)
        ensures
            match *msg {
                ClientMessage::Hello => answer == Some(self.greeting()),
                ClientMessage::Subscribe => answer matches Some(ServerMessage::ChunkBatch {
                    tick: t,
                    chunks,
                }) && t == self.current_tick && shows_all(chunks@, self.world@),
                _ => answer is None,
            },
    {
        match msg {
            ClientMessage::Hello => Some(self.welcome()),
            ClientMessage::Subscribe => Some(self.chunk_batch()),
            _ => None,
        }
    }
}

/// Whether a message tells viewers of exactly the chunks that are not as they were
/// shown last.
pub open spec fn updates(msg: ServerMessage, s: SimState, shown: Seq<WireChunk>) -> bool {
    msg matches ServerMessage::TickUpdate { tick: t, chunks } && t == s.current_tick
        && shows_modified(chunks@, shown, s.world@)
}

/// Whether world coordinates name a cell of the world.
pub open spec fn in_world(g: Grid, x: i32, y: i32) -> bool {
    0 <= x < 32 * g.chunks_x && 0 <= y < 32 * g.chunks_y
}

/// A cell after a starter sprout was planted in it by hand.
pub open spec fn spawned_cell(c: CellView, plant: PlantId, facing: Direction) -> CellView {
    CellView {
        lineage_mutation_rate: DEFAULT_MUTATION_RATE,
        occupant: OccupantView::Sprout {
            plant,
            clan: 0,
            energy: 100,
            facing,
            genome: default_vine_view(),
            parent: None,
            current_gene: 0,
        },
        ..c
    }
}

/// Everything but the cells and the next plant id is the same.
pub open spec fn same_but_world(a: SimState, b: SimState) -> bool {
    &&& a.chunks_x == b.chunks_x
    &&& a.chunks_y == b.chunks_y
    &&& a.current_tick == b.current_tick
    &&& a.control == b.control
    &&& a.seed == b.seed
    &&& a.rng == b.rng
    &&& a.params == b.params
    &&& a.world_gen_params == b.world_gen_params
}

/// The state holds the world that a seed and the knobs determine, at tick 0.
pub open spec fn regenerated(
    s: SimState,
    seed: u64,
    params: WorldGenParams,
    spread: Option<Seq<u32>>,
) -> bool {
    let plan = planted(params, spread, fresh_world(params), seeded(seed));
    &&& world_of(s.world@) == plan.world
    &&& s.rng@ == plan.rng
    &&& s.next_plant_id == plan.count + 1
    &&& s.chunks_x == params.chunks_x
    &&& s.chunks_y == params.chunks_y
    &&& s.world_gen_params == params
    &&& s.seed == seed
    &&& s.current_tick == 0
}

/// What the server does after a command.
#[derive(Clone, Copy, Debug, PartialEq, Eq, Structural)]
pub enum Reaction {
    /// Nothing to tell anyone.
    Nothing,
    /// All viewers get a fresh greeting.
    BroadcastWelcome,
    /// All viewers get a fresh greeting and the whole world.
    BroadcastWorld,
    /// The command was impossible and changed nothing.
    Refused,
    /// The message is not a command; nothing changed.
    Unexpected,
}

/// What a command does to the state, and the reaction to it.
pub open spec fn commanded(
    before: SimState,
    after: SimState,
    msg: ClientMessage,
    spread: Option<Seq<u32>>,
    reaction: Reaction,
) -> bool {
    match msg {
        ClientMessage::SpawnSprout { x, y, facing } => if in_world(before.grid(), x, y) {
            let i = idx_of(before.chunks_x as int, x as int, y as int);
            &&& reaction == Reaction::Nothing
            &&& after.next_plant_id == nth_id(before.next_plant_id, 1)
            &&& world_of(after.world@) == world_of(before.world@).update(
                i,
                spawned_cell(world_of(before.world@)[i], before.next_plant_id, facing),
            )
            &&& same_layout(before.world@, after.world@)
            &&& same_but_world(before, after)
        } else {
            reaction == Reaction::Refused && after == before
        },
        ClientMessage::SetPaused(paused) => {
            &&& reaction == Reaction::BroadcastWelcome
            &&& after == SimState { control: SimControl { paused, ..before.control }, ..before }
        },
        ClientMessage::Step => {
            &&& reaction == Reaction::BroadcastWelcome
            &&& after == SimState {
                control: SimControl {
                    paused: true,
                    step_pending: (if before.control.step_pending == u32::MAX {
                        u32::MAX as int
                    } else {
                        before.control.step_pending + 1
                    }) as u32,
                    ..before.control
                },
                ..before
            }
        },
        ClientMessage::SetTickHz(hz) => {
            &&& reaction == Reaction::BroadcastWelcome
            &&& after == SimState {
                control: SimControl {
                    tick_hz: if hz == 0 {
                        1
                    } else {
                        hz
                    },
                    ..before.control
                },
                ..before
            }
        },
        ClientMessage::SetTickRateLimited(limited) => {
            &&& reaction == Reaction::BroadcastWelcome
            &&& after == SimState {
                control: SimControl { tick_rate_limited: limited, ..before.control },
                ..before
            }
        },
        ClientMessage::SetSimParams(params) => {
            &&& reaction == Reaction::BroadcastWelcome
            &&& after == SimState { params, ..before }
        },
        ClientMessage::RegenerateWorld { seed, params } => if plantable(params) && ids_suffice(
            params,
            fresh_world(params),
        ) {
            &&& reaction == Reaction::BroadcastWorld
            &&& regenerated(after, seed, params, spread)
            &&& after.control == before.control
            &&& after.params == before.params
        } else {
            reaction == Reaction::Refused && after == before
        },
        ClientMessage::Hello => reaction == Reaction::Unexpected && after == before,
        ClientMessage::Subscribe => reaction == Reaction::Unexpected && after == before,
    }
}

/// A paused simulation does not tick of itself.
pub proof fn lemma_pause_holds(ctrl: SimControl)
    requires
        ctrl.paused,
        ctrl.step_pending == 0,
    ensures
        action_for(ctrl) == SimAction::Wait(PAUSE_POLL_MILLIS),
        acted(ctrl) == ctrl,
{
}

/// A step ticks once and leaves the simulation paused, whether it was running or not.
pub proof fn lemma_step_ticks_once(
    before: SimState,
    after: SimState,
    spread: Option<Seq<u32>>,
    reaction: Reaction,
)
    requires
        commanded(before, after, ClientMessage::Step, spread, reaction),
        before.control.step_pending == 0,
    ensures
        action_for(after.control) == SimAction::TickNow,
        action_for(acted(after.control)) == SimAction::Wait(PAUSE_POLL_MILLIS),
{
}

/// Every change of the controls is told to all viewers, and none of them touches the
/// world, the random numbers or the tick.
pub proof fn lemma_controls_are_broadcast(
    before: SimState,
    after: SimState,
    msg: ClientMessage,
    spread: Option<Seq<u32>>,
    reaction: Reaction,
)
    requires
        commanded(before, after, msg, spread, reaction),
        msg is SetPaused || msg is Step || msg is SetTickHz || msg is SetTickRateLimited
            || msg is SetSimParams,
    ensures
        reaction == Reaction::BroadcastWelcome,
        after.sim() == before.sim(),
        after.current_tick == before.current_tick,
{
}

/// Requests that arrive as commands, and commands that cannot be carried out, change
/// nothing.
pub proof fn lemma_refusals_change_nothing(
    before: SimState,
    after: SimState,
    msg: ClientMessage,
    spread: Option<Seq<u32>>,
    reaction: Reaction,
)
    requires
        commanded(before, after, msg, spread, reaction),
        reaction == Reaction::Refused || reaction == Reaction::Unexpected,
    ensures
        after == before,
{
}

/// No command brings a genome of forbidden size or mutation rate into the world.
pub proof fn lemma_commands_keep_genomes_permitted(
    before: SimState,
    after: SimState,
    msg: ClientMessage,
    spread: Option<Seq<u32>>,
    reaction: Reaction,
)
    requires
        before.wf(),
        well_bred(world_of(before.world@)),
        commanded(before, after, msg, spread, reaction),
    ensures
        well_bred(world_of(after.world@)),
{
    match msg {
        ClientMessage::SpawnSprout { x, y, .. } => {
            if in_world(before.grid(), x, y) {
                lemma_idx_of(before.chunks_x as int, before.chunks_y as int, x as int, y as int);
                lemma_world_len(before.world@, before.grid());
                assert(permitted(default_vine_view()));
            }
        },
        ClientMessage::RegenerateWorld { seed, params } => {
            if reaction == Reaction::BroadcastWorld {
                lemma_fresh_world_len(params);
                lemma_every_lit_point_is_planted(
                    params,
                    spread,
                    fresh_world(params),
                    seeded(seed),
                );
                lemma_planted_genomes_are_permitted(params, spread, seeded(seed));
            }
        },
        _ => {},
    }
}

/// The same seed and knobs regenerate the same world, whatever was there before.
pub proof fn lemma_regeneration_is_determined(
    a: SimState,
    b: SimState,
    seed: u64,
    params: WorldGenParams,
    spread: Option<Seq<u32>>,
)
    requires
        regenerated(a, seed, params, spread),
        regenerated(b, seed, params, spread),
    ensures
        a.sim() == b.sim(),
        a.current_tick == b.current_tick,
{
}

/// Every command on the controls sets what it names to what it says, and nothing else; a
/// rate of none counts as one.
pub proof fn lemma_controls_do_what_they_say(
    before: SimState,
    after: SimState,
    msg: ClientMessage,
    spread: Option<Seq<u32>>,
    reaction: Reaction,
)
    requires
        commanded(before, after, msg, spread, reaction),
    ensures
        msg matches ClientMessage::SetPaused(paused) ==> {
            &&& after.control.paused == paused
            &&& after.control.tick_hz == before.control.tick_hz
            &&& after.control.tick_rate_limited == before.control.tick_rate_limited
            &&& after.control.step_pending == before.control.step_pending
            &&& after.params == before.params
        },
        msg matches ClientMessage::SetTickHz(hz) ==> {
            &&& hz > 0 ==> after.control.tick_hz == hz
            &&& hz == 0 ==> after.control.tick_hz == 1
            &&& after.control.paused == before.control.paused
            &&& after.control.tick_rate_limited == before.control.tick_rate_limited
            &&& after.control.step_pending == before.control.step_pending
            &&& after.params == before.params
        },
        msg matches ClientMessage::SetTickRateLimited(limited) ==> {
            &&& after.control.tick_rate_limited == limited
            &&& after.control.paused == before.control.paused
            &&& after.control.tick_hz == before.control.tick_hz
            &&& after.control.step_pending == before.control.step_pending
            &&& after.params == before.params
        },
        msg matches ClientMessage::SetSimParams(params) ==> {
            &&& after.params == params
            &&& after.control == before.control
        },
        msg is Step ==> {
            &&& after.control.paused
            &&& before.control.step_pending < u32::MAX ==> after.control.step_pending
                == before.control.step_pending + 1
            &&& before.control.step_pending == u32::MAX ==> after.control.step_pending == u32::MAX
            &&& after.control.tick_hz == before.control.tick_hz
            &&& after.control.tick_rate_limited == before.control.tick_rate_limited
            &&& after.params == before.params
        },
        !(msg is SpawnSprout) && !(msg is RegenerateWorld) ==> {
            &&& after.world == before.world
            &&& after.chunks_x == before.chunks_x && after.chunks_y == before.chunks_y
            &&& after.next_plant_id == before.next_plant_id
            &&& after.current_tick == before.current_tick
            &&& after.seed == before.seed
            &&& after.rng == before.rng
            &&& after.world_gen_params == before.world_gen_params
        },
{
}

/// A sprout is spawned in the cell that a viewer names, if it lies in the world: it faces
/// where the viewer says, is of a new plant and no clan but the first, and has 100 energy, the
/// starter genome and no parent. No other cell changes.
pub proof fn lemma_sprouts_are_spawned_where_asked(
    before: SimState,
    after: SimState,
    x: i32,
    y: i32,
    facing: Direction,
    spread: Option<Seq<u32>>,
    reaction: Reaction,
)
    requires
        before.wf(),
        commanded(before, after, (ClientMessage::SpawnSprout { x, y, facing }), spread, reaction),
    ensures
        ({
            let w = world_of(before.world@);
            let now = world_of(after.world@);
            let i = idx_of(before.chunks_x as int, x as int, y as int);
            if 0 <= x < 32 * before.chunks_x && 0 <= y < 32 * before.chunks_y {
                &&& reaction == Reaction::Nothing
                &&& now.len() == w.len()
                &&& forall|k: int| 0 <= k < w.len() && k != i ==> #[trigger] now[k] == w[k]
                &&& now[i].occupant == (OccupantView::Sprout {
                    plant: before.next_plant_id,
                    clan: 0,
                    energy: 100,
                    facing,
                    genome: default_vine_view(),
                    parent: None,
                    current_gene: 0,
                })
                &&& now[i].organic == w[i].organic && now[i].soil_energy == w[i].soil_energy
                    && now[i].sunlit == w[i].sunlit
                &&& now[i].lineage_mutation_rate == default_vine_view().mutation_rate
                &&& after.next_plant_id as int == (before.next_plant_id + 1) % 0x1_0000_0000
                &&& after.control == before.control && after.current_tick == before.current_tick
                    && after.rng == before.rng && after.params == before.params
            } else {
                reaction == Reaction::Refused && after == before
            }
        }),
{
    if 0 <= x < 32 * before.chunks_x && 0 <= y < 32 * before.chunks_y {
        lemma_idx_of(before.chunks_x as int, before.chunks_y as int, x as int, y as int);
        lemma_world_len(before.world@, before.grid());
    }
}

/// Regeneration puts the planted world of the seed and the knobs in place of the old one and
/// starts to count from the first tick and the first plant that is free; the controls and the
/// live scalars stay as they are. Knobs of which no world can be built or planted are refused.
pub proof fn lemma_worlds_are_regenerated(
    before: SimState,
    after: SimState,
    seed: u64,
    params: WorldGenParams,
    spread: Option<Seq<u32>>,
    reaction: Reaction,
)
    requires
        commanded(before, after, (ClientMessage::RegenerateWorld { seed, params }), spread, reaction),
    ensures
        ({
            let plan = planted(params, spread, fresh_world(params), seeded(seed));
            if plantable(params) && ids_suffice(params, fresh_world(params)) {
                &&& reaction == Reaction::BroadcastWorld
                &&& world_of(after.world@) == plan.world
                &&& after.rng@ == plan.rng
                &&& after.next_plant_id == plan.count + 1
                &&& after.chunks_x == params.chunks_x && after.chunks_y == params.chunks_y
                &&& after.world_gen_params == params
                &&& after.seed == seed
                &&& after.current_tick == 0
                &&& after.control == before.control
                &&& after.params == before.params
            } else {
                reaction == Reaction::Refused && after == before
            }
        }),
{
}

/// Asked-for steps are taken first, one tick each; a pause holds all other ticks back; and
/// only where the rate is limited is there a wait, of a second divided by the rate.
pub proof fn lemma_pacing(ctrl: SimControl)
    ensures
        ctrl.step_pending > 0 ==> action_for(ctrl) == SimAction::TickNow && acted(ctrl).step_pending
            == ctrl.step_pending - 1,
        ctrl.step_pending == 0 ==> acted(ctrl) == ctrl,
        ctrl.step_pending == 0 && ctrl.paused ==> action_for(ctrl) == SimAction::Wait(50),
        ctrl.step_pending == 0 && !ctrl.paused && !ctrl.tick_rate_limited ==> action_for(ctrl)
            == SimAction::TickNow,
        ctrl.step_pending == 0 && !ctrl.paused && ctrl.tick_rate_limited && ctrl.tick_hz > 0 ==> (
        action_for(ctrl) matches SimAction::TickAfter(millis) && millis * ctrl.tick_hz <= 1000
            && 1000 < (millis + 1) * ctrl.tick_hz),
        acted(ctrl).paused == ctrl.paused,
        acted(ctrl).tick_hz == ctrl.tick_hz,
        acted(ctrl).tick_rate_limited == ctrl.tick_rate_limited,
{
    if ctrl.tick_hz > 0 {
        let hz = ctrl.tick_hz as int;
        let millis = 1000int / hz;
        assert(millis * hz <= 1000 && 1000 < (millis + 1) * hz) by (nonlinear_arith)
            requires
                hz > 0,
                millis == 1000int / hz,
        ;
    }
}

} // verus!
