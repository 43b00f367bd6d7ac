//! The server's state: commands, snapshots, trials.
use simulife::digest::hash_chunks;
use simulife::grid::Grid;
use simulife::persist::{
    fresh_snapshot, is_shaped, save_steps, side_files, start_control, take_snapshot,
    try_start_from, SaveStep, StartError, WorldSnapshot, SNAPSHOT_VERSION,
};
use simulife::protocol::{
    Cell, Chunk, ChunkCoord, ClientMessage, Direction, Genome, Occupant, ServerMessage, SimParams,
    WireChunk, WireOccupant, WorldGenParams, CHUNK_AREA, GENOME_LEN, GENOME_MAX, GENOME_MIN,
    MUTATION_RATE_MAX, MUTATION_RATE_MIN,
};
use simulife::rng::SimRng;
use simulife::sim::census::count_occupants;
use simulife::state::{next_action, Reaction, SimAction, SimControl, SimState};
use simulife::trial::Trial;
use simulife::viewer::mirror::{Mirror, Update};
use simulife::viewer::session::{on_message, SessionPhase};
use simulife::world::RateSpread;

fn small() -> WorldGenParams {
    WorldGenParams {
        chunks_x: 2,
        chunks_y: 2,
        boxes_x: 1,
        boxes_y: 1,
        sunlit_margin_x: 4,
        sunlit_margin_y: 4,
        sprout_grid_spacing: 8,
        ..WorldGenParams::default()
    }
}

fn flat() -> RateSpread {
    RateSpread { steps: None }
}

fn started(seed: u64) -> SimState {
    let snapshot = fresh_snapshot(&small());
    match try_start_from(snapshot, seed, &small(), &flat(), start_control(false, 10)) {
        Ok(state) => state,
        Err(e) => panic!("cannot start: {e:?}"),
    }
}

fn digest(state: &SimState) -> u64 {
    hash_chunks(
        &state.world,
        Grid { chunks_x: state.chunks_x, chunks_y: state.chunks_y, wrap: state.params.world_wrap },
    )
}

#[test]
fn a_fresh_run_is_planted_and_paused() {
    let state = started(3);
    assert!(state.control.paused);
    assert_eq!(state.control.tick_hz, 10);
    assert_eq!(state.current_tick, 0);
    assert_eq!(state.seed, 3);
    let (sprouts, seeds, leaves) = count_occupants(&state.world);
    assert_eq!((seeds, leaves), (0, 0));
    assert!(sprouts > 0);
    assert_eq!(state.next_plant_id, sprouts + 1);
    assert_eq!(start_control(true, 0).tick_hz, 1);
    assert!(!start_control(true, 0).paused);
}

#[test]
fn pacing_serves_steps_then_pause_then_rate() {
    let mut c = SimControl { paused: true, tick_hz: 4, tick_rate_limited: true, step_pending: 1 };
    assert_eq!(next_action(&mut c), SimAction::TickNow);
    assert_eq!(c.step_pending, 0);
    assert_eq!(next_action(&mut c), SimAction::Wait(50));
    c.paused = false;
    assert_eq!(next_action(&mut c), SimAction::TickAfter(250));
    c.tick_hz = 0;
    assert_eq!(next_action(&mut c), SimAction::TickAfter(1000));
    c.tick_rate_limited = false;
    assert_eq!(next_action(&mut c), SimAction::TickNow);
}

#[test]
fn control_commands_are_broadcast() {
    let mut state = started(1);
    let tell = Reaction::BroadcastWelcome;
    assert_eq!(state.apply_command(ClientMessage::SetPaused(false), &flat()), tell);
    assert!(!state.control.paused);
    assert_eq!(state.apply_command(ClientMessage::Step, &flat()), tell);
    assert!(state.control.paused);
    assert_eq!(state.control.step_pending, 1);
    assert_eq!(state.apply_command(ClientMessage::SetTickHz(0), &flat()), tell);
    assert_eq!(state.control.tick_hz, 1);
    assert_eq!(state.apply_command(ClientMessage::SetTickRateLimited(true), &flat()), tell);
    let params = SimParams { cost_leaf: 1, ..SimParams::default() };
    assert_eq!(state.apply_command(ClientMessage::SetSimParams(params), &flat()), tell);
    match state.welcome() {
        ServerMessage::Welcome { paused, tick_hz, tick_rate_limited, sim_params, .. } => {
            assert!(paused);
            assert_eq!(tick_hz, 1);
            assert!(tick_rate_limited);
            assert_eq!(sim_params.cost_leaf, 1);
        }
        other => panic!("expected a greeting, got {other:?}"),
    }
}

#[test]
fn requests_are_answered_and_are_no_commands() {
    let mut state = started(1);
    assert!(matches!(
        state.answer_request(&ClientMessage::Hello),
        Some(ServerMessage::Welcome { seed: 1, .. })
    ));
    match state.answer_request(&ClientMessage::Subscribe) {
        Some(ServerMessage::ChunkBatch { tick, chunks }) => {
            assert_eq!(tick, 0);
            assert_eq!(chunks.len(), 4);
        }
        other => panic!("expected a batch, got {other:?}"),
    }
    assert!(state.answer_request(&ClientMessage::Step).is_none());
    let before = digest(&state);
    assert_eq!(state.apply_command(ClientMessage::Hello, &flat()), Reaction::Unexpected);
    assert_eq!(state.apply_command(ClientMessage::Subscribe, &flat()), Reaction::Unexpected);
    assert_eq!(digest(&state), before);
}

fn chunks_of(msg: ServerMessage) -> (u64, Vec<WireChunk>) {
    match msg {
        ServerMessage::ChunkBatch { tick, chunks } => (tick, chunks),
        ServerMessage::TickUpdate { tick, chunks } => (tick, chunks),
        other => panic!("expected chunks, got {other:?}"),
    }
}

#[test]
fn updates_tell_of_changed_chunks_only() {
    let mut state = started(5);
    let (_, mut shown) = chunks_of(state.chunk_batch());
    let (tick, chunks) = chunks_of(state.tick_update(&mut shown));
    assert_eq!((tick, chunks.len()), (0, 0));
    let spawn = ClientMessage::SpawnSprout { x: 33, y: 5, facing: Direction::North };
    assert_eq!(state.apply_command(spawn, &flat()), Reaction::Nothing);
    let (_, chunks) = chunks_of(state.tick_update(&mut shown));
    assert_eq!(chunks.len(), 1);
    assert_eq!((chunks[0].coord.x, chunks[0].coord.y), (1, 0));
    assert!(matches!(chunks[0].cells[5 * 32 + 1].occupant, WireOccupant::Sprout { .. }));
    let (_, chunks) = chunks_of(state.tick_update(&mut shown));
    assert!(chunks.is_empty());
    // What was never shown counts as changed, and what is gone is forgotten.
    shown.truncate(3);
    let (_, chunks) = chunks_of(state.tick_update(&mut shown));
    assert_eq!(chunks.len(), 1);
    assert_eq!((chunks[0].coord.x, chunks[0].coord.y), (1, 1));
    let extra = chunks[0].clone();
    shown.push(extra);
    let (_, chunks) = chunks_of(state.tick_update(&mut shown));
    assert!(chunks.is_empty());
    assert_eq!(shown.len(), 4);
}

#[test]
fn viewers_follow_the_world_by_updates() {
    let mut state = started(5);
    let mut mirror = Mirror::new();
    let hear = |mirror: &mut Mirror, msg| match on_message(SessionPhase::Live, msg) {
        Ok((_, event)) => mirror.apply(event),
        Err(e) => panic!("refused: {e:?}"),
    };
    hear(&mut mirror, state.welcome());
    hear(&mut mirror, state.chunk_batch());
    let (_, mut shown) = chunks_of(state.chunk_batch());
    for t in 1..=5u64 {
        state.advance();
        let msg = state.tick_update(&mut shown);
        assert_eq!(hear(&mut mirror, msg), Update::World(t));
        let (_, now) = chunks_of(state.chunk_batch());
        assert_eq!(mirror.chunks.len(), now.len());
        for (seen, real) in mirror.chunks.iter().zip(now.iter()) {
            assert_eq!(seen.coord, real.coord);
            assert_eq!(seen.cells, real.cells);
        }
    }
}

#[test]
fn sprouts_are_spawned_inside_the_world_only() {
    let mut state = started(1);
    let id = state.next_plant_id;
    let spawn = |x, y| ClientMessage::SpawnSprout { x, y, facing: Direction::West };
    assert_eq!(state.apply_command(spawn(33, 40), &flat()), Reaction::Nothing);
    assert_eq!(state.next_plant_id, id + 1);
    match &state.world[3].cells[8 * 32 + 1].occupant {
        Occupant::Sprout { plant, clan, energy, facing, genome, .. } => {
            assert_eq!((*plant, *clan, *energy), (id, 0, 100));
            assert_eq!(*facing, Direction::West);
            assert_eq!(genome.genes.len(), GENOME_LEN);
        }
        other => panic!("expected sprout, got {other:?}"),
    }
    for (x, y) in [(-1, 0), (0, -1), (64, 0), (0, 64)] {
        assert_eq!(state.apply_command(spawn(x, y), &flat()), Reaction::Refused);
    }
    assert_eq!(state.next_plant_id, id + 1);
}

#[test]
fn regeneration_depends_on_seed_and_knobs_alone() {
    let mut a = started(1);
    let mut b = started(2);
    for _ in 0..5 {
        b.advance();
    }
    let again = || ClientMessage::RegenerateWorld { seed: 9, params: small() };
    assert_eq!(a.apply_command(again(), &flat()), Reaction::BroadcastWorld);
    assert_eq!(b.apply_command(again(), &flat()), Reaction::BroadcastWorld);
    assert_eq!(digest(&a), digest(&b));
    assert_eq!(b.current_tick, 0);
    assert_eq!(a.next_plant_id, b.next_plant_id);
    let huge = WorldGenParams { chunks_x: 0x400_0000, ..small() };
    let impossible = ClientMessage::RegenerateWorld { seed: 9, params: huge };
    assert_eq!(a.apply_command(impossible, &flat()), Reaction::Refused);
    assert_eq!(digest(&a), digest(&b));
}

#[test]
fn snapshots_resume_where_they_were_taken() {
    let mut a = started(4);
    for _ in 0..10 {
        a.advance();
    }
    let snapshot = take_snapshot(&a);
    assert_eq!(snapshot.current_tick, 10);
    assert_eq!(snapshot.seed, Some(4));
    assert_eq!(snapshot.version, 2);
    let control = start_control(true, 30);
    let mut b = match try_start_from(snapshot, 999, &small(), &flat(), control) {
        Ok(state) => state,
        Err(e) => panic!("cannot start: {e:?}"),
    };
    assert_eq!(b.seed, 4);
    assert_eq!(b.current_tick, 10);
    assert_eq!(b.control.tick_hz, 30);
    for _ in 0..10 {
        a.advance();
        b.advance();
        assert_eq!(digest(&a), digest(&b));
        assert_eq!(a.next_plant_id, b.next_plant_id);
    }
}

#[test]
fn snapshots_of_any_origin_are_looked_at_first() {
    let bare = |chunks_x: u32, chunks: Vec<Chunk>, seed: Option<u64>| WorldSnapshot {
        chunks_x,
        chunks_y: 1,
        next_plant_id: 5,
        current_tick: 6,
        chunks,
        seed,
        rng: None,
        sim_params: None,
        world_gen_params: None,
        version: 0,
    };
    let one = WorldGenParams { chunks_x: 1, chunks_y: 1, ..small() };
    let control = start_control(false, 1);
    assert_eq!(fresh_snapshot(&one).version, SNAPSHOT_VERSION);
    let chunks = || fresh_snapshot(&one).chunks;
    assert!(is_shaped(&chunks(), Grid { chunks_x: 1, chunks_y: 1, wrap: true }));
    match try_start_from(bare(2, chunks(), None), 1, &one, &flat(), control) {
        Err(e) => assert_eq!(e, StartError::Misshapen),
        Ok(_) => panic!("one chunk is not two"),
    }
    let unplantable = WorldGenParams { boxes_x: u32::MAX, ..one };
    match try_start_from(bare(1, chunks(), None), 1, &unplantable, &flat(), control) {
        Err(e) => assert_eq!(e, StartError::Unplantable),
        Ok(_) => panic!("too many boxes"),
    }
    // A snapshot with a seed but without a generator gets the generator of its seed.
    match try_start_from(bare(1, chunks(), Some(8)), 1, &one, &flat(), control) {
        Ok(state) => {
            assert_eq!(state.seed, 8);
            assert_eq!(state.next_plant_id, 5);
            assert_eq!(state.current_tick, 6);
            assert_eq!(state.rng.get_seed(), SimRng::seed_from_u64(8).get_seed());
            assert_eq!(state.world_gen_params.chunks_x, 1);
            // What is saved next is of this version, whatever was loaded.
            assert_eq!(take_snapshot(&state).version, SNAPSHOT_VERSION);
        }
        Err(e) => panic!("cannot start: {e:?}"),
    }
}

fn empty_chunk(cx: i32, cy: i32) -> Chunk {
    let cells = (0..CHUNK_AREA)
        .map(|_| Cell {
            organic: 0,
            soil_energy: 0,
            sunlit: false,
            lineage_mutation_rate: 0,
            occupant: Occupant::Empty,
        })
        .collect();
    Chunk { coord: ChunkCoord { x: cx, y: cy }, cells }
}

fn make_snapshot() -> WorldSnapshot {
    let mut chunks = vec![empty_chunk(0, 0)];
    chunks[0].cells[0].organic = 123;
    chunks[0].cells[5].occupant = Occupant::Sprout {
        plant: 7,
        clan: 0,
        energy: 250,
        facing: Direction::East,
        genome: Box::new(Genome::default_vine()),
        parent: Some(Direction::West),
        current_gene: 4,
    };
    WorldSnapshot {
        chunks_x: 1,
        chunks_y: 1,
        next_plant_id: 42,
        current_tick: 99,
        chunks,
        seed: Some(0xABCD_1234),
        rng: Some(SimRng::seed_from_u64(0xABCD_1234)),
        sim_params: None,
        world_gen_params: None,
        version: SNAPSHOT_VERSION,
    }
}

fn build_state(snap: WorldSnapshot) -> SimState {
    match try_start_from(snap, 0, &small(), &flat(), start_control(false, 10)) {
        Ok(state) => state,
        Err(e) => panic!("cannot start: {e:?}"),
    }
}

/// Files in memory, by name.
struct Disk {
    files: Vec<(String, WorldSnapshot)>,
}

impl Disk {
    fn take(&mut self, name: &str) -> Option<WorldSnapshot> {
        let at = self.files.iter().position(|f| f.0 == name)?;
        Some(self.files.remove(at).1)
    }

    fn put(&mut self, name: &str, snapshot: WorldSnapshot) {
        self.take(name);
        self.files.push((name.to_string(), snapshot));
    }

    fn rename(&mut self, from: &str, to: &str) {
        let moved = self.take(from).expect("rename source");
        self.put(to, moved);
    }

    fn save_world(&mut self, path: &str, state: &SimState) {
        let (tmp, bak) = side_files(path);
        let exists = self.files.iter().any(|f| f.0 == path);
        for step in save_steps(exists) {
            match step {
                SaveStep::WriteTmp => self.put(&tmp, take_snapshot(state)),
                SaveStep::Rotate => self.rename(path, &bak),
                SaveStep::Publish => self.rename(&tmp, path),
            }
        }
    }
}

#[test]
fn snapshot_round_trips_through_save_and_load() {
    let snap = make_snapshot();
    let state = build_state(make_snapshot());
    let mut disk = Disk { files: vec![] };
    disk.save_world("roundtrip", &state);

    let loaded = disk.take("roundtrip").expect("load");
    assert_eq!(loaded.chunks_x, snap.chunks_x);
    assert_eq!(loaded.chunks_y, snap.chunks_y);
    assert_eq!(loaded.next_plant_id, snap.next_plant_id);
    assert_eq!(loaded.current_tick, snap.current_tick);
    assert_eq!(loaded.version, snap.version);
    assert_eq!(loaded.chunks.len(), 1);
    assert_eq!(loaded.chunks[0].cells[0].organic, 123);
    match &loaded.chunks[0].cells[5].occupant {
        Occupant::Sprout { plant, energy, current_gene, genome, .. } => {
            assert_eq!(*plant, 7);
            assert_eq!(*energy, 250);
            assert_eq!(*current_gene, 4);
            assert_eq!(genome.genes.len(), GENOME_LEN);
        }
        other => panic!("expected sprout, got {other:?}"),
    }
}

#[test]
fn save_rotates_existing_world_into_bak() {
    let mut state = build_state(make_snapshot());
    let mut disk = Disk { files: vec![] };
    disk.save_world("rotate", &state);
    // Mutate tick to make the second save distinguishable.
    state.current_tick = 101;
    disk.save_world("rotate", &state);

    let (_, bak) = side_files("rotate");
    let live = disk.take("rotate").expect("load live");
    assert_eq!(live.current_tick, 101);
    let backup = disk.take(&bak).expect("load bak");
    assert_eq!(backup.current_tick, 99);
    assert!(disk.files.is_empty());
}

#[test]
fn load_or_build_returns_default_when_path_missing() {
    let sized = |chunks_x, chunks_y| WorldGenParams {
        chunks_x,
        chunks_y,
        ..WorldGenParams::default()
    };
    let snap = fresh_snapshot(&sized(2, 2));
    assert_eq!(snap.chunks_x, 2);
    assert_eq!(snap.chunks_y, 2);
    assert_eq!(snap.next_plant_id, 1);
    assert_eq!(snap.current_tick, 0);

    let snap = fresh_snapshot(&sized(1, 1));
    assert_eq!(snap.chunks_x, 1);
    assert_eq!(snap.next_plant_id, 1);
}

#[test]
fn saves_write_aside_and_rotate() {
    assert_eq!(
        save_steps(true),
        [SaveStep::WriteTmp, SaveStep::Rotate, SaveStep::Publish]
    );
    assert_eq!(save_steps(false), [SaveStep::WriteTmp, SaveStep::Publish]);
    let (tmp, bak) = side_files("/tmp/world.bin");
    assert_eq!(tmp, "/tmp/world.bin.tmp");
    assert_eq!(bak, "/tmp/world.bin.bak");
}

#[test]
fn trials_with_the_same_seed_agree_at_every_tick() {
    let mut a = Trial::start(&small(), &flat(), 42);
    let mut b = Trial::start(&small(), &flat(), 42);
    let mut c = Trial::start(&small(), &flat(), 43);
    assert_eq!(a.hash(), b.hash());
    assert_ne!(a.hash(), c.hash());
    for tick in 1..=30 {
        let row = a.step();
        assert_eq!(row, b.step());
        assert_eq!(row.tick, tick);
        assert_eq!(row.hash, a.hash());
        assert_eq!(row.after, count_occupants(&a.chunks));
        assert_ne!(row.hash, c.step().hash);
    }
    assert_eq!(a.next_plant_id, b.next_plant_id);
}

#[test]
fn ticks_keep_light_clans_and_genome_bounds() {
    let mut state = started(11);
    let lights = |state: &SimState| -> Vec<bool> {
        state.world.iter().flat_map(|c| c.cells.iter().map(|cell| cell.sunlit)).collect()
    };
    let before = lights(&state);
    assert!(before.contains(&true) && before.contains(&false));
    for _ in 0..40 {
        state.advance();
        let cells = state.world.iter().flat_map(|c| c.cells.iter());
        for cell in cells {
            let (clan, genome) = match &cell.occupant {
                Occupant::Empty => continue,
                Occupant::Sprout { clan, genome, .. } => (*clan, Some(genome)),
                Occupant::Seed { clan, genome, .. } => (*clan, Some(genome)),
                Occupant::Leaf { clan, .. } => (*clan, None),
                Occupant::Root { clan, .. } => (*clan, None),
                Occupant::Stem { clan, .. } => (*clan, None),
                Occupant::Antenna { clan, .. } => (*clan, None),
            };
            assert_eq!(clan, 0, "the only box founds the only clan");
            if let Some(genome) = genome {
                assert!(genome.genes.len() >= GENOME_MIN && genome.genes.len() <= GENOME_MAX);
                assert!(genome.mutation_rate >= MUTATION_RATE_MIN);
                assert!(genome.mutation_rate <= MUTATION_RATE_MAX);
            }
        }
    }
    assert_eq!(lights(&state), before);
}

#[test]
fn digests_tell_every_field_apart() {
    let mut state = started(1);
    let before = digest(&state);
    state.world[0].cells[0].organic += 1;
    let organic = digest(&state);
    assert_ne!(before, organic);
    state.world[0].cells[0].organic -= 1;
    assert_eq!(digest(&state), before);
    state.world[0].cells[0].occupant = Occupant::Seed {
        plant: 1,
        clan: 0,
        energy: 1,
        facing: Direction::North,
        genome: Box::new(Genome::default_vine()),
        parent: None,
    };
    assert_ne!(digest(&state), before);
}
