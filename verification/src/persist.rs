//! Snapshots: what is saved of a simulation and how a simulation starts from one.
use vstd::prelude::*;
use crate::grid::{lemma_same_layout_shaped, lemma_world_len, same_layout, shaped, world_of, Grid};
use crate::protocol::{default_sim_params, same_chunk, Chunk, PlantId, SimParams, WorldGenParams, CHUNK_AREA};
use crate::rng::{seeded, RngView, SimRng};
use crate::state::{SimControl, SimState};
use crate::text::with_extension_suffix;
use crate::world::{build_world, buildable, enough_ids, fresh_world, grid_of, ids_suffice};
use crate::world::{is_plantable, lemma_every_lit_point_is_planted, place_random_sprout_grid};
use crate::world::{placed, plantable, planted, RateSpread};

verus! {

/// The version of the snapshots that this library takes. Since the second version
/// a snapshot carries the live scalars and the knobs of the world.
pub const SNAPSHOT_VERSION: u32 = 2;

/// A saved simulation.
pub struct WorldSnapshot {
    pub chunks_x: u32,
    pub chunks_y: u32,
    pub next_plant_id: PlantId,
    pub current_tick: u64,
    pub chunks: Vec<Chunk>,
    /// The seed of the run; none where the snapshot does not say.
    pub seed: Option<u64>,
    /// The state of the generator; none where the snapshot does not say.
    pub rng: Option<SimRng>,
    /// The live scalars; none where the snapshot does not say.
    pub sim_params: Option<SimParams>,
    /// The knobs that built the world; none where the snapshot does not say.
    pub world_gen_params: Option<WorldGenParams>,
    /// The version that it was written in; 0 where the snapshot does not say. A run
    /// starts alike from every version: what an older one lacks has a default.
    pub version: u32,
}

/// Whether a list of chunks has the extent of a grid.
pub fn is_shaped(chunks: &Vec<Chunk>, g: Grid) -> (yes: bool)
    ensures
        yes == shaped(chunks@, g),
{
    let x: u64 = g.chunks_x as u64;
    let y: u64 = g.chunks_y as u64;
    if x * 32 > 0x7FFF_FFFF || y * 32 > 0x7FFF_FFFF {
        return false;
    }
    assert(0 <= x * y * 1024 <= 0x3FF_FFFF * 0x3FF_FFFF * 1024 && 0 <= x * y <= x * y * 1024)
        by (nonlinear_arith)
        requires
            0 <= x <= 0x3FF_FFFF,
            0 <= y <= 0x3FF_FFFF,
    ;
    let count: u64 = x * y;
    if count * 1024 > usize::MAX as u64 || chunks.len() as u64 != count {
        return false;
    }
    let mut c: usize = 0;
    while c < chunks.len()
        invariant
            c <= chunks.len(),
            forall|t: int| 0 <= t < c ==> (#[trigger] chunks@[t]).cells.len() == CHUNK_AREA,
        decreases chunks.len() - c,
    {
        if chunks[c].cells.len() != CHUNK_AREA {
            return false;
        }
        c = c + 1;
    }
    true
}

/// The snapshot of a freshly built world: no seed and no generator yet.
pub fn fresh_snapshot(params: &WorldGenParams) -> (snapshot: WorldSnapshot)
    requires
        buildable(*params),
    ensures
        snapshot.chunks_x == params.chunks_x,
        snapshot.chunks_y == params.chunks_y,
        snapshot.next_plant_id == 1,
        snapshot.current_tick == 0,
        world_of(snapshot.chunks@) == fresh_world(*params),
        forall|wrap: bool| #[trigger] shaped(snapshot.chunks@, grid_of(*params, wrap)),
        placed(snapshot.chunks@, params.chunks_x),
        snapshot.seed is None,
        snapshot.rng is None,
        snapshot.sim_params is None,
        snapshot.world_gen_params == Some(*params),
        snapshot.version == SNAPSHOT_VERSION,
{
    WorldSnapshot {
        chunks_x: params.chunks_x,
        chunks_y: params.chunks_y,
        next_plant_id: 1,
        current_tick: 0,
        chunks: build_world(params),
        seed: None,
        rng: None,
        sim_params: None,
        world_gen_params: Some(*params),
        version: SNAPSHOT_VERSION,
    }
}

/// Whether two lists of chunks hold the same cells in the same layout.
pub open spec fn same_world(a: Seq<Chunk>, b: Seq<Chunk>) -> bool {
    &&& a.len() == b.len()
    &&& forall|c: int| 0 <= c < a.len() ==> same_chunk(#[trigger] a[c], b[c])
}

/// Equal chunks make equal worlds.
pub proof fn lemma_same_world(a: Seq<Chunk>, b: Seq<Chunk>, g: Grid)
    requires
        same_world(a, b),
        shaped(b, g),
    ensures
        shaped(a, g),
        world_of(a) == world_of(b),
        same_layout(b, a),
{
    assert forall|c: int| 0 <= c < a.len() implies (#[trigger] a[c]).cells.len() == CHUNK_AREA by {
        assert(same_chunk(a[c], b[c]));
        assert(b[c].cells.len() == CHUNK_AREA);
    }
    assert forall|c: int| 0 <= c < b.len() implies (#[trigger] b[c]).coord == a[c].coord
        && b[c].cells.len() == a[c].cells.len() by {
        assert(same_chunk(a[c], b[c]));
    }
    reveal(world_of);
    assert forall|i: int| 0 <= i < world_of(a).len() implies #[trigger] world_of(a)[i] == world_of(
        b,
    )[i] by {
        assert(same_chunk(a[i / 1024], b[i / 1024]));
        assert(a[i / 1024].cells@[i % 1024]@ == b[i / 1024].cells@[i % 1024]@);
    }
    assert(world_of(a) =~= world_of(b));
}

fn copy_chunks(chunks: &Vec<Chunk>) -> (copy: Vec<Chunk>)
    ensures
        same_world(copy@, chunks@),
{
    let mut copy: Vec<Chunk> = Vec::with_capacity(chunks.len());
    let mut c: usize = 0;
    while c < chunks.len()
        invariant
            c <= chunks.len(),
            copy.len() == c,
            forall|t: int| 0 <= t < c ==> same_chunk(#[trigger] copy@[t], chunks@[t]),
        decreases chunks.len() - c,
    {
        copy.push(chunks[c].clone());
        c = c + 1;
    }
    copy
}

/// Whether a snapshot holds all that a state needs to go on: everything but the
/// controls.
pub open spec fn captures(snapshot: WorldSnapshot, s: SimState) -> bool {
    &&& snapshot.chunks_x == s.chunks_x
    &&& snapshot.chunks_y == s.chunks_y
    &&& snapshot.next_plant_id == s.next_plant_id
    &&& snapshot.current_tick == s.current_tick
    &&& same_world(snapshot.chunks@, s.world@)
    &&& snapshot.seed == Some(s.seed)
    &&& snapshot.rng matches Some(r) && r@ == s.rng@
    &&& snapshot.sim_params == Some(s.params)
    &&& snapshot.world_gen_params == Some(s.world_gen_params)
    &&& snapshot.version == SNAPSHOT_VERSION
}

/// Take a snapshot of a running simulation.
pub fn take_snapshot(s: &SimState) -> (snapshot: WorldSnapshot)
    ensures
        captures(snapshot, *s),
{
    WorldSnapshot {
        chunks_x: s.chunks_x,
        chunks_y: s.chunks_y,
        next_plant_id: s.next_plant_id,
        current_tick: s.current_tick,
        chunks: copy_chunks(&s.world),
        seed: Some(s.seed),
        rng: Some(s.rng.clone()),
        sim_params: Some(s.params),
        world_gen_params: Some(s.world_gen_params),
        version: SNAPSHOT_VERSION,
    }
}

// ---------------------------------------------------------------------------
// Starting from a snapshot
// ---------------------------------------------------------------------------
/// The seed of a run that starts from a snapshot.
pub open spec fn start_seed(snapshot: WorldSnapshot, seed: u64) -> u64 {
    match snapshot.seed {
        Some(s) => s,
        None => seed,
    }
}

/// The generator of a run that starts from a snapshot.
pub open spec fn start_rng(snapshot: WorldSnapshot, seed: u64) -> RngView {
    match snapshot.rng {
        Some(r) => r@,
        None => seeded(start_seed(snapshot, seed)),
    }
}

/// The live scalars of a run that starts from a snapshot.
pub open spec fn start_params(snapshot: WorldSnapshot) -> SimParams {
    match snapshot.sim_params {
        Some(p) => p,
        None => default_sim_params(),
    }
}

/// The world knobs of a run that starts from a snapshot: a snapshot that does not
/// hold them has the extent of its world and the given rest.
pub open spec fn start_world_gen(snapshot: WorldSnapshot, rest: WorldGenParams) -> WorldGenParams {
    match snapshot.world_gen_params {
        Some(p) => p,
        None => WorldGenParams {
            chunks_x: snapshot.chunks_x,
            chunks_y: snapshot.chunks_y,
            ..rest
        },
    }
}

/// The grid of a run that starts from a snapshot.
pub open spec fn start_grid(snapshot: WorldSnapshot) -> Grid {
    Grid {
        chunks_x: snapshot.chunks_x,
        chunks_y: snapshot.chunks_y,
        wrap: start_params(snapshot).world_wrap,
    }
}

/// A snapshot from which a run can start: its world has the extent that it says,
/// and where it has no seed, its world can be planted.
pub open spec fn startable(snapshot: WorldSnapshot, rest: WorldGenParams) -> bool {
    &&& shaped(snapshot.chunks@, start_grid(snapshot))
    &&& snapshot.seed is None ==> {
        let gen = start_world_gen(snapshot, rest);
        &&& plantable(gen)
        &&& gen.chunks_x == snapshot.chunks_x
        &&& gen.chunks_y == snapshot.chunks_y
        &&& ids_suffice(gen, world_of(snapshot.chunks@))
    }
}

/// Whether a state is the start of a run from a snapshot. A world that comes
/// without a seed is planted first.
pub open spec fn starts(
    s: SimState,
    snapshot: WorldSnapshot,
    seed: u64,
    rest: WorldGenParams,
    spread: Option<Seq<u32>>,
    control: SimControl,
) -> bool {
    let gen = start_world_gen(snapshot, rest);
    let w = world_of(snapshot.chunks@);
    let v = start_rng(snapshot, seed);
    let plan = planted(gen, spread, w, v);
    &&& s.chunks_x == snapshot.chunks_x
    &&& s.chunks_y == snapshot.chunks_y
    &&& s.current_tick == snapshot.current_tick
    &&& s.seed == start_seed(snapshot, seed)
    &&& s.params == start_params(snapshot)
    &&& s.world_gen_params == gen
    &&& s.control == control
    &&& same_layout(snapshot.chunks@, s.world@)
    &&& if snapshot.seed is None {
        &&& world_of(s.world@) == plan.world
        &&& s.rng@ == plan.rng
        &&& s.next_plant_id == plan.count + 1
    } else {
        &&& world_of(s.world@) == w
        &&& s.rng@ == v
        &&& s.next_plant_id == snapshot.next_plant_id
    }
}

/// The controls with which a server starts.
pub fn start_control(start_running: bool, tick_hz: u32) -> (control: SimControl)
    ensures
        control == (SimControl {
            paused: !start_running,
            tick_hz: if tick_hz == 0 {
                1
            } else {
                tick_hz
            },
            tick_rate_limited: false,
            step_pending: 0,
        }),
{
    SimControl {
        paused: !start_running,
        tick_hz: if tick_hz == 0 {
            1
        } else {
            tick_hz
        },
        tick_rate_limited: false,
        step_pending: 0,
    }
}

/// Start a run from a snapshot.
pub fn start_from(
    snapshot: WorldSnapshot,
    seed: u64,
    rest: &WorldGenParams,
    spread: &RateSpread,
    control: SimControl,
) -> (s: SimState)
    requires
        startable(snapshot, *rest),
    ensures
        s.wf(),
        starts(s, snapshot, seed, *rest, spread@, control),
{
    let ghost snap = snapshot;
    let run_seed: u64 = match snapshot.seed {
        Some(s) => s,
        None => seed,
    };
    let unplanted = snapshot.seed.is_none();
    let mut rng = match snapshot.rng {
        Some(r) => r,
        None => SimRng::seed_from_u64(run_seed),
    };
    let params = match snapshot.sim_params {
        Some(p) => p,
        None => SimParams::default(),
    };
    let world_gen_params = match snapshot.world_gen_params {
        Some(p) => p,
        None => WorldGenParams {
            chunks_x: snapshot.chunks_x,
            chunks_y: snapshot.chunks_y,
            ..*rest
        },
    };
    let mut world = snapshot.chunks;
    let mut next_plant_id: PlantId = snapshot.next_plant_id;
    let ghost before = world@;
    assert(rng@ == start_rng(snap, seed));
    assert(world_gen_params == start_world_gen(snap, *rest));
    if unplanted {
        proof {
            assert(shaped(before, grid_of(world_gen_params, false)));
            lemma_world_len(before, grid_of(world_gen_params, false));
            lemma_every_lit_point_is_planted(world_gen_params, spread@, world_of(before), rng@);
        }
        let count: u32 = place_random_sprout_grid(&mut world, &world_gen_params, spread, &mut rng);
        next_plant_id = count + 1;
    }
    proof {
        lemma_same_layout_shaped(before, world@, start_grid(snap));
    }
    SimState {
        chunks_x: snapshot.chunks_x,
        chunks_y: snapshot.chunks_y,
        world,
        next_plant_id,
        current_tick: snapshot.current_tick,
        control,
        seed: run_seed,
        rng,
        params,
        world_gen_params,
    }
}

/// Why no run can start from a snapshot.
#[derive(Clone, Copy, Debug, PartialEq, Eq, Structural)]
pub enum StartError {
    /// The world does not have the extent that the snapshot says.
    Misshapen,
    /// The world has not been planted yet and cannot be: its knobs do not fit it, or it
    /// has too many planting points in the sun for the plant ids there are.
    Unplantable,
}

/// Start a run from a snapshot of any origin.
pub fn try_start_from(
    snapshot: WorldSnapshot,
    seed: u64,
    rest: &WorldGenParams,
    spread: &RateSpread,
    control: SimControl,
) -> (started: Result<SimState, StartError>)
    ensures
        match started {
            Ok(s) => {
                &&& startable(snapshot, *rest)
                &&& s.wf()
                &&& starts(s, snapshot, seed, *rest, spread@, control)
            },
            Err(StartError::Misshapen) => !shaped(snapshot.chunks@, start_grid(snapshot)),
            Err(StartError::Unplantable) => {
                &&& shaped(snapshot.chunks@, start_grid(snapshot))
                &&& !startable(snapshot, *rest)
            },
        },
{
    let wrap = match &snapshot.sim_params {
        Some(p) => p.world_wrap,
        None => SimParams::default().world_wrap,
    };
    let g = Grid { chunks_x: snapshot.chunks_x, chunks_y: snapshot.chunks_y, wrap };
    if !is_shaped(&snapshot.chunks, g) {
        return Err(StartError::Misshapen);
    }
    if snapshot.seed.is_none() {
        let gen = match snapshot.world_gen_params {
            Some(p) => p,
            None => WorldGenParams {
                chunks_x: snapshot.chunks_x,
                chunks_y: snapshot.chunks_y,
                ..*rest
            },
        };
        if !is_plantable(&gen) || gen.chunks_x != snapshot.chunks_x || gen.chunks_y
            != snapshot.chunks_y {
            return Err(StartError::Unplantable);
        }
        assert(shaped(snapshot.chunks@, grid_of(gen, false)));
        if !enough_ids(&snapshot.chunks, &gen) {
            return Err(StartError::Unplantable);
        }
    }
    Ok(start_from(snapshot, seed, rest, spread, control))
}

/// Saving and starting again loses nothing but the controls: the run goes on from
/// the very state that was saved.
pub proof fn lemma_resume(
    s: SimState,
    snapshot: WorldSnapshot,
    seed: u64,
    rest: WorldGenParams,
    spread: Option<Seq<u32>>,
    control: SimControl,
    resumed: SimState,
)
    requires
        s.wf(),
        captures(snapshot, s),
        starts(resumed, snapshot, seed, rest, spread, control),
    ensures
        startable(snapshot, rest),
        resumed.sim() == s.sim(),
        resumed.current_tick == s.current_tick,
        resumed.seed == s.seed,
        resumed.params == s.params,
        resumed.world_gen_params == s.world_gen_params,
        resumed.grid() == s.grid(),
        resumed.wf(),
        resumed.control == control,
{
    lemma_same_world(snapshot.chunks@, s.world@, s.grid());
    lemma_same_layout_shaped(snapshot.chunks@, resumed.world@, s.grid());
}

// ---------------------------------------------------------------------------
// Saving
// ---------------------------------------------------------------------------
/// One step of a save.
#[derive(Clone, Copy, Debug, PartialEq, Eq, Structural)]
pub enum SaveStep {
    /// Write the new bytes to the temporary file and flush them to the disk.
    WriteTmp,
    /// Rename the live file to the backup.
    Rotate,
    /// Rename the temporary file to the live file.
    Publish,
}

/// The three files of a save.
pub struct DiskView {
    pub live: Option<Seq<u8>>,
    pub tmp: Option<Seq<u8>>,
    pub bak: Option<Seq<u8>>,
}

/// The files after a step of saving `bytes`.
pub open spec fn after_step(step: SaveStep, bytes: Seq<u8>, d: DiskView) -> DiskView {
    match step {
        SaveStep::WriteTmp => DiskView { tmp: Some(bytes), ..d },
        SaveStep::Rotate => DiskView { live: None, bak: d.live, ..d },
        SaveStep::Publish => DiskView { live: d.tmp, tmp: None, ..d },
    }
}

/// The files after the first `n` steps.
pub open spec fn after_steps(steps: Seq<SaveStep>, bytes: Seq<u8>, d: DiskView, n: nat) -> DiskView
    decreases n,
{
    if n == 0 {
        d
    } else {
        after_step(steps[n - 1], bytes, after_steps(steps, bytes, d, (n - 1) as nat))
    }
}

/// The steps of a save.
pub open spec fn save_plan(live_exists: bool) -> Seq<SaveStep> {
    if live_exists {
        seq![SaveStep::WriteTmp, SaveStep::Rotate, SaveStep::Publish]
    } else {
        seq![SaveStep::WriteTmp, SaveStep::Publish]
    }
}

/// The steps of a save: write aside, keep the old version, then switch.
pub fn save_steps(live_exists: bool) -> (steps: Vec<SaveStep>)
    ensures
        steps@ == save_plan(live_exists),
{
    let mut steps: Vec<SaveStep> = Vec::new();
    steps.push(SaveStep::WriteTmp);
    if live_exists {
        steps.push(SaveStep::Rotate);
    }
    steps.push(SaveStep::Publish);
    steps
}

/// The live file is never partial: after any number of steps it is the old version,
/// the complete new version, or absent while the old version is complete in the
/// backup. In the end it is the new version, and the old one is the backup.
pub proof fn lemma_save_is_crash_safe(bytes: Seq<u8>, d: DiskView, n: nat)
    requires
        n <= save_plan(d.live is Some).len(),
    ensures
        ({
            let steps = save_plan(d.live is Some);
            let now = after_steps(steps, bytes, d, n);
            let end = after_steps(steps, bytes, d, steps.len());
            &&& now.live == d.live || now.live == Some(bytes) || (now.live is None && now.bak
                == d.live)
            &&& end.live == Some(bytes)
            &&& end.bak == (if d.live is Some {
                d.live
            } else {
                d.bak
            })
        }),
{
    let steps = save_plan(d.live is Some);
    reveal_with_fuel(after_steps, 4);
}

/// The names of the temporary file and of the backup.
pub fn side_files(path: &str) -> (names: (String, String))
    ensures
        names.0@ == path@ + "."@ + "tmp"@,
        names.1@ == path@ + "."@ + "bak"@,
{
    (with_extension_suffix(path, "tmp"), with_extension_suffix(path, "bak"))
}

/// A run goes on from what its snapshot holds: with its seed, its random numbers, its scalars
/// and its knobs where it has them, and with the given seed, fresh random numbers, the default
/// scalars and the given knobs, cut to its world, where it does not. A world without a seed is
/// planted first, any other is taken as it is.
pub proof fn lemma_a_run_goes_on_from_its_snapshot(
    s: SimState,
    snapshot: WorldSnapshot,
    seed: u64,
    rest: WorldGenParams,
    spread: Option<Seq<u32>>,
    control: SimControl,
)
    requires
        starts(s, snapshot, seed, rest, spread, control),
    ensures
        s.chunks_x == snapshot.chunks_x,
        s.chunks_y == snapshot.chunks_y,
        s.current_tick == snapshot.current_tick,
        s.control == control,
        snapshot.seed matches Some(kept) ==> s.seed == kept,
        snapshot.seed is None ==> s.seed == seed,
        snapshot.sim_params matches Some(kept) ==> s.params == kept,
        snapshot.sim_params is None ==> s.params == default_sim_params(),
        snapshot.world_gen_params matches Some(kept) ==> s.world_gen_params == kept,
        snapshot.world_gen_params is None ==> s.world_gen_params == (WorldGenParams {
            chunks_x: snapshot.chunks_x,
            chunks_y: snapshot.chunks_y,
            ..rest
        }),
        snapshot.seed is Some ==> {
            &&& world_of(s.world@) == world_of(snapshot.chunks@)
            &&& s.next_plant_id == snapshot.next_plant_id
            &&& snapshot.rng matches Some(kept) ==> s.rng@ == kept@
            &&& snapshot.rng is None ==> s.rng@ == seeded(snapshot.seed->0)
        },
        snapshot.seed is None && snapshot.rng is None ==> {
            let plan = planted(s.world_gen_params, spread, world_of(snapshot.chunks@), seeded(seed));
            &&& world_of(s.world@) == plan.world
            &&& s.rng@ == plan.rng
            &&& s.next_plant_id == plan.count + 1
        },
{
}

} // verus!
