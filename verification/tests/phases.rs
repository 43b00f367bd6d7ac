//! Whole ticks of small worlds.
use simulife::protocol::{
    Cell, Chunk, ChunkCoord, Direction, Energy, Genome, Occupant, SimParams, CHUNK_AREA,
    CHUNK_EDGE, STEM_CONNECT_NORTH, STEM_CONNECT_SOUTH,
};
use simulife::rng::SimRng;
use simulife::sim::tick::mutate_world;

const UPKEEP_DEFAULT: Energy = 2;
const SOIL_ENERGY_REST: u16 = 100;
const SOIL_ENERGY_REGULATION: u16 = 1;
const SEED_DROPOFF_THRESHOLD: Energy = 180;
const SOIL_ORGANIC_POISON: u16 = 400;
const SOIL_ENERGY_POISON: u16 = 1000;
const DEATH_DEPOSIT_KERNEL: [[u16; 3]; 3] = [[1, 2, 1], [2, 4, 2], [1, 2, 1]];

fn test_params() -> SimParams {
    SimParams { world_wrap: false, ..SimParams::default() }
}

fn det_rng() -> SimRng {
    SimRng::seed_from_u64(0)
}

fn empty_world(chunks_x: u32, chunks_y: u32) -> Vec<Chunk> {
    let mut v = Vec::with_capacity((chunks_x * chunks_y) as usize);
    for cy in 0..chunks_y as i32 {
        for cx in 0..chunks_x as i32 {
            let cells = (0..CHUNK_AREA)
                .map(|_| Cell {
                    organic: 0,
                    soil_energy: 0,
                    sunlit: false,
                    lineage_mutation_rate: 0,
                    occupant: Occupant::Empty,
                })
                .collect();
            v.push(Chunk {
                coord: ChunkCoord { x: cx, y: cy },
                cells,
            });
        }
    }
    v
}

fn cell_at<'a>(chunks: &'a [Chunk], chunks_x: u32, x: i32, y: i32) -> &'a Cell {
    let edge = CHUNK_EDGE as i32;
    let chunk_idx = (y / edge) as usize * chunks_x as usize + (x / edge) as usize;
    let cell_idx = (y % edge) as usize * (CHUNK_EDGE as usize) + (x % edge) as usize;
    &chunks[chunk_idx].cells[cell_idx]
}

fn place(chunks: &mut [Chunk], chunks_x: u32, x: i32, y: i32, occ: Occupant) {
    let edge = CHUNK_EDGE as i32;
    let chunk_idx = (y / edge) as usize * chunks_x as usize + (x / edge) as usize;
    let cell_idx = (y % edge) as usize * (CHUNK_EDGE as usize) + (x % edge) as usize;
    chunks[chunk_idx].cells[cell_idx].occupant = occ;
}

fn fill_organic(chunks: &mut [Chunk], v: u16) {
    for chunk in chunks.iter_mut() {
        for cell in chunk.cells.iter_mut() {
            cell.organic = v;
        }
    }
}

fn fill_soil_energy(chunks: &mut [Chunk], v: u16) {
    for chunk in chunks.iter_mut() {
        for cell in chunk.cells.iter_mut() {
            cell.soil_energy = v;
        }
    }
}

#[test]
fn phase_photosynthesis_credits_sunlit_leaves() {
    // Leaf (sunlit, e=10) → sprout sink (e=0). One tick should funnel
    // photo+pre-existing energy into the sprout.
    //   photo:  leaf 10→20  (LEAF_PHOTOSYNTHESIS = 10)
    //   upkeep: leaf 20→18, sprout 0→0  (UPKEEP_DEFAULT=2, SPROUT=4)
    //   push:   leaf surplus 16 → sprout
    //   final:  leaf 2, sprout 16
    let chunks_x = 1u32;
    let mut chunks = empty_world(chunks_x, 1);
    let edge = CHUNK_EDGE as i32;
    let leaf_idx = 10 * (CHUNK_EDGE as usize) + 10;
    chunks[0].cells[leaf_idx].sunlit = true;
    place(
        &mut chunks,
        chunks_x,
        10,
        10,
        Occupant::Leaf {
            plant: 1,
            clan: 0,
            energy: 10,
            facing: Direction::North,
            parent: Some(Direction::South),
        },
    );
    place(
        &mut chunks,
        chunks_x,
        10,
        11,
        Occupant::Sprout {
            plant: 1,
            clan: 0,
            energy: 0,
            facing: Direction::South,
            genome: Box::new(Genome::default_vine()),
            parent: Some(Direction::North),
            current_gene: 0,
        },
    );

    mutate_world(&mut chunks, 1, 1, &test_params(), &mut 1, &mut det_rng());
    let _ = edge;

    match cell_at(&chunks, chunks_x, 10, 10).occupant {
        Occupant::Leaf { energy, .. } => assert_eq!(energy, 2),
        ref other => panic!("leaf gone: {other:?}"),
    }
    match &cell_at(&chunks, chunks_x, 10, 11).occupant {
        Occupant::Sprout { energy, .. } => assert_eq!(*energy, 16),
        other => panic!("sprout gone: {other:?}"),
    }
}

#[test]
fn phase_soil_pulls_organic_around_root() {
    // Root → stem → sprout chain. One tick should subtract per the
    // ROOT_PULL_KERNEL ([[1,2,1],[2,4,2],[1,2,1]]) from the soil cells
    // around the root.
    let chunks_x = 1u32;
    let mut chunks = empty_world(chunks_x, 1);
    fill_organic(&mut chunks, 100);
    place(
        &mut chunks,
        chunks_x,
        10,
        10,
        Occupant::Root {
            plant: 1,
            clan: 0,
            energy: 0,
            parent: Some(Direction::North),
        },
    );
    place(
        &mut chunks,
        chunks_x,
        10,
        9,
        Occupant::Stem {
            plant: 1,
            clan: 0,
            energy: 50,
            connections: STEM_CONNECT_NORTH | STEM_CONNECT_SOUTH,
            parent: None,
            children: STEM_CONNECT_NORTH,
        },
    );
    place(
        &mut chunks,
        chunks_x,
        10,
        8,
        Occupant::Sprout {
            plant: 1,
            clan: 0,
            energy: 0,
            facing: Direction::North,
            genome: Box::new(Genome::default_vine()),
            parent: Some(Direction::South),
            current_gene: 0,
        },
    );

    mutate_world(&mut chunks, 1, 1, &test_params(), &mut 1, &mut det_rng());

    // Center weight 4.
    assert_eq!(cell_at(&chunks, chunks_x, 10, 10).organic, 96);
    // Cardinals weight 2.
    assert_eq!(cell_at(&chunks, chunks_x, 9, 10).organic, 98);
    assert_eq!(cell_at(&chunks, chunks_x, 11, 10).organic, 98);
    assert_eq!(cell_at(&chunks, chunks_x, 10, 9).organic, 98);
    assert_eq!(cell_at(&chunks, chunks_x, 10, 11).organic, 98);
    // Corners weight 1.
    assert_eq!(cell_at(&chunks, chunks_x, 9, 9).organic, 99);
    assert_eq!(cell_at(&chunks, chunks_x, 11, 11).organic, 99);
}

#[test]
fn phase_soil_pulls_energy_around_antenna() {
    // A resting level below 100, so that the soil drifts down before it is pulled.
    let params = SimParams { soil_energy_rest: 10, ..test_params() };
    // Same kernel, but for soil_energy via antenna.
    let chunks_x = 1u32;
    let mut chunks = empty_world(chunks_x, 1);
    fill_soil_energy(&mut chunks, 100);
    place(
        &mut chunks,
        chunks_x,
        10,
        10,
        Occupant::Antenna {
            plant: 1,
            clan: 0,
            energy: 0,
            parent: Some(Direction::North),
        },
    );
    place(
        &mut chunks,
        chunks_x,
        10,
        9,
        Occupant::Stem {
            plant: 1,
            clan: 0,
            energy: 50,
            connections: STEM_CONNECT_NORTH | STEM_CONNECT_SOUTH,
            parent: None,
            children: STEM_CONNECT_NORTH,
        },
    );
    place(
        &mut chunks,
        chunks_x,
        10,
        8,
        Occupant::Sprout {
            plant: 1,
            clan: 0,
            energy: 0,
            facing: Direction::North,
            genome: Box::new(Genome::default_vine()),
            parent: Some(Direction::South),
            current_gene: 0,
        },
    );

    mutate_world(&mut chunks, 1, 1, &params, &mut 1, &mut det_rng());

    // Phase 1.5 regulation drifts each cell by SOIL_ENERGY_REGULATION
    // (100 is above SOIL_ENERGY_REST so it drifts down by 1 first).
    // Then antenna pull subtracts the full 3x3 kernel: center 4,
    // cardinals 2, corners 1.
    let pre = 100 - SOIL_ENERGY_REGULATION;
    assert_eq!(cell_at(&chunks, chunks_x, 10, 10).soil_energy, pre - 4);
    assert_eq!(cell_at(&chunks, chunks_x, 9, 10).soil_energy, pre - 2);
    assert_eq!(cell_at(&chunks, chunks_x, 11, 10).soil_energy, pre - 2);
    assert_eq!(cell_at(&chunks, chunks_x, 10, 9).soil_energy, pre - 2);
    assert_eq!(cell_at(&chunks, chunks_x, 10, 11).soil_energy, pre - 2);
    assert_eq!(cell_at(&chunks, chunks_x, 9, 9).soil_energy, pre - 1);
}

#[test]
fn phase_soil_pulls_split_fairly_under_contention() {
    // Two roots at (10, 10) and (12, 10) both want 2 organic from the cell at
    // (11, 10), which holds 1. Each gets its floored share 2 * 1 / 4 = 0, and the
    // cell loses its unit. The setup is a mirror image, so nothing but the soil
    // pull could tell the two roots apart.
    let chunks_x = 1u32;
    let mut chunks = empty_world(chunks_x, 1);
    chunks[0].cells[10 * (CHUNK_EDGE as usize) + 11].organic = 1;
    // Stems above each root so the roots have alive parents during
    // phase 2. (The stems orphan-die later in the tick, but that's
    // symmetric so it doesn't perturb the left-vs-right comparison.)
    place(
        &mut chunks,
        chunks_x,
        10,
        9,
        Occupant::Stem {
            plant: 1,
            clan: 0,
            energy: 100,
            connections: STEM_CONNECT_SOUTH,
            parent: None,
            children: 0,
        },
    );
    place(
        &mut chunks,
        chunks_x,
        12,
        9,
        Occupant::Stem {
            plant: 2,
            clan: 0,
            energy: 100,
            connections: STEM_CONNECT_SOUTH,
            parent: None,
            children: 0,
        },
    );
    place(
        &mut chunks,
        chunks_x,
        10,
        10,
        Occupant::Root {
            plant: 1,
            clan: 0,
            energy: 100,
            parent: Some(Direction::North),
        },
    );
    place(
        &mut chunks,
        chunks_x,
        12,
        10,
        Occupant::Root {
            plant: 2,
            clan: 0,
            energy: 100,
            parent: Some(Direction::North),
        },
    );

    mutate_world(&mut chunks, 1, 1, &test_params(), &mut 1, &mut det_rng());

    // Two symmetric roots end with equal energy.
    let left = match cell_at(&chunks, chunks_x, 10, 10).occupant {
        Occupant::Root { energy, .. } => energy,
        ref other => panic!("expected root at (10,10), got {other:?}"),
    };
    let right = match cell_at(&chunks, chunks_x, 12, 10).occupant {
        Occupant::Root { energy, .. } => energy,
        ref other => panic!("expected root at (12,10), got {other:?}"),
    };
    assert_eq!(
        left, right,
        "fair-share split: symmetric roots must end with equal energy"
    );
}

#[test]
fn phase_upkeep_decreases_total_system_energy() {
    let params = SimParams { upkeep_sprout: 4, ..test_params() };
    // Leaf (not sunlit) → sprout sink. No photo, no soil.
    // Pre: leaf=4, sprout=10. Total 14.
    // upkeep: leaf -2, sprout -4. leaf=2, sprout=6. Total 8.
    // push: leaf cur=2, buffer=2 → no push.
    // Post: leaf=2, sprout=6. Total 8.
    let chunks_x = 1u32;
    let mut chunks = empty_world(chunks_x, 1);
    place(
        &mut chunks,
        chunks_x,
        10,
        10,
        Occupant::Leaf {
            plant: 1,
            clan: 0,
            energy: 4,
            facing: Direction::North,
            parent: Some(Direction::South),
        },
    );
    place(
        &mut chunks,
        chunks_x,
        10,
        11,
        Occupant::Sprout {
            plant: 1,
            clan: 0,
            energy: 10,
            facing: Direction::South,
            genome: Box::new(Genome::default_vine()),
            parent: Some(Direction::North),
            current_gene: 0,
        },
    );

    mutate_world(&mut chunks, 1, 1, &params, &mut 1, &mut det_rng());

    match cell_at(&chunks, chunks_x, 10, 10).occupant {
        Occupant::Leaf { energy, .. } => assert_eq!(energy, 2),
        ref other => panic!("leaf gone: {other:?}"),
    }
    match &cell_at(&chunks, chunks_x, 10, 11).occupant {
        Occupant::Sprout { energy, .. } => assert_eq!(*energy, 6),
        other => panic!("sprout gone: {other:?}"),
    }
}

#[test]
fn phase_prune_clears_invalid_child_bits() {
    // Stem with children = N | S.
    //   N points at Empty → invalid, drops.
    //   S points at sprout → valid, keeps.
    // After tick: stem.children == S only. Stem still alive (has child).
    let chunks_x = 1u32;
    let mut chunks = empty_world(chunks_x, 1);
    place(
        &mut chunks,
        chunks_x,
        10,
        10,
        Occupant::Stem {
            plant: 1,
            clan: 0,
            energy: 50,
            connections: STEM_CONNECT_NORTH | STEM_CONNECT_SOUTH,
            parent: None,
            children: STEM_CONNECT_NORTH | STEM_CONNECT_SOUTH,
        },
    );
    place(
        &mut chunks,
        chunks_x,
        10,
        11,
        Occupant::Sprout {
            plant: 1,
            clan: 0,
            energy: 0,
            facing: Direction::West, // grows W/S/N — corners of single sprout
            genome: Box::new(Genome::default_vine()),
            parent: Some(Direction::North),
            current_gene: 0,
        },
    );

    mutate_world(&mut chunks, 1, 1, &test_params(), &mut 1, &mut det_rng());

    match &cell_at(&chunks, chunks_x, 10, 10).occupant {
        Occupant::Stem { children, .. } => {
            assert_eq!(*children, STEM_CONNECT_SOUTH, "N child should be pruned");
        }
        other => panic!("expected stem, got {other:?}"),
    }
}

#[test]
fn phase_push_moves_energy_from_leaf_to_parent_stem() {
    // Leaf (e=10, not sunlit) → stem (children=S → sprout).
    // upkeep: leaf 10→8, stem 0→0 (sat), sprout 0→0 (sat)
    // push:   leaf surplus 6 → stem; stem cur=0 ≤ buffer → no push
    // post:   leaf=2, stem=6, sprout=0
    let chunks_x = 1u32;
    let mut chunks = empty_world(chunks_x, 1);
    place(
        &mut chunks,
        chunks_x,
        10,
        10,
        Occupant::Leaf {
            plant: 1,
            clan: 0,
            energy: 10,
            facing: Direction::North,
            parent: Some(Direction::South),
        },
    );
    place(
        &mut chunks,
        chunks_x,
        10,
        11,
        Occupant::Stem {
            plant: 1,
            clan: 0,
            energy: 0,
            connections: STEM_CONNECT_NORTH | STEM_CONNECT_SOUTH,
            parent: Some(Direction::North),
            children: STEM_CONNECT_SOUTH,
        },
    );
    place(
        &mut chunks,
        chunks_x,
        10,
        12,
        Occupant::Sprout {
            plant: 1,
            clan: 0,
            energy: 0,
            facing: Direction::South,
            genome: Box::new(Genome::default_vine()),
            parent: Some(Direction::North),
            current_gene: 0,
        },
    );

    mutate_world(&mut chunks, 1, 1, &test_params(), &mut 1, &mut det_rng());

    match cell_at(&chunks, chunks_x, 10, 10).occupant {
        Occupant::Leaf { energy, .. } => assert_eq!(energy, 2),
        ref other => panic!("leaf gone: {other:?}"),
    }
    match &cell_at(&chunks, chunks_x, 10, 11).occupant {
        Occupant::Stem { energy, .. } => assert_eq!(*energy, 6),
        other => panic!("stem gone: {other:?}"),
    }
}

#[test]
fn phase_death_orphan_leaf_dies_and_deposits_organic() {
    // Lone leaf with parent=None has no push target. Phase 7 turns it
    // into Empty and deposits organic per DEATH_DEPOSIT_KERNEL.
    let chunks_x = 1u32;
    let mut chunks = empty_world(chunks_x, 1);
    place(
        &mut chunks,
        chunks_x,
        10,
        10,
        Occupant::Leaf {
            plant: 1,
            clan: 0,
            energy: 50,
            facing: Direction::North,
            parent: None,
        },
    );

    mutate_world(&mut chunks, 1, 1, &test_params(), &mut 1, &mut det_rng());

    assert!(matches!(
        cell_at(&chunks, chunks_x, 10, 10).occupant,
        Occupant::Empty
    ));
    // DEATH_DEPOSIT_KERNEL center weight = 4.
    assert!(cell_at(&chunks, chunks_x, 10, 10).organic >= 4);
    // Cardinals weight 2.
    assert!(cell_at(&chunks, chunks_x, 9, 10).organic >= 2);
    assert!(cell_at(&chunks, chunks_x, 11, 10).organic >= 2);
    // Corners weight 1.
    assert!(cell_at(&chunks, chunks_x, 9, 9).organic >= 1);
}

#[test]
fn phase_death_zero_energy_cell_clears() {
    // Stem with energy=0 and parent (still has push target so doesn't
    // orphan-die). After upkeep the energy stays at 0 and Phase 7
    // catches it via the energy_dead path.
    let chunks_x = 1u32;
    let mut chunks = empty_world(chunks_x, 1);
    place(
        &mut chunks,
        chunks_x,
        10,
        10,
        Occupant::Stem {
            plant: 1,
            clan: 0,
            energy: 0,
            connections: STEM_CONNECT_SOUTH,
            parent: Some(Direction::South),
            children: STEM_CONNECT_NORTH,
        },
    );
    // Sprout to keep stem from being orphan-dead via children.
    place(
        &mut chunks,
        chunks_x,
        10,
        9,
        Occupant::Sprout {
            plant: 1,
            clan: 0,
            energy: 0,
            facing: Direction::North,
            genome: Box::new(Genome::default_vine()),
            parent: Some(Direction::South),
            current_gene: 0,
        },
    );

    mutate_world(&mut chunks, 1, 1, &test_params(), &mut 1, &mut det_rng());

    assert!(matches!(
        cell_at(&chunks, chunks_x, 10, 10).occupant,
        Occupant::Empty
    ));
}

#[test]
fn phase_soil_regulation_drifts_toward_rest() {
    let chunks_x = 1u32;
    let mut chunks = empty_world(chunks_x, 1);
    let edge = CHUNK_EDGE as usize;
    // Three sample cells: below, at, above the rest level.
    let below = SOIL_ENERGY_REST.saturating_sub(5);
    let above = SOIL_ENERGY_REST + 50;
    chunks[0].cells[0].soil_energy = below;
    chunks[0].cells[1].soil_energy = SOIL_ENERGY_REST;
    chunks[0].cells[2].soil_energy = above;
    // No occupants, so other phases are no-ops.

    mutate_world(&mut chunks, 1, 1, &test_params(), &mut 1, &mut det_rng());

    assert_eq!(
        chunks[0].cells[0].soil_energy,
        below + SOIL_ENERGY_REGULATION
    );
    assert_eq!(chunks[0].cells[1].soil_energy, SOIL_ENERGY_REST);
    assert_eq!(
        chunks[0].cells[2].soil_energy,
        above - SOIL_ENERGY_REGULATION
    );
    let _ = edge;
}

#[test]
fn phase_soil_regulation_clamps_at_rest() {
    let chunks_x = 1u32;
    let mut chunks = empty_world(chunks_x, 1);
    // Just-below and just-above cases — must not overshoot rest.
    chunks[0].cells[0].soil_energy = SOIL_ENERGY_REST - 1;
    chunks[0].cells[1].soil_energy = SOIL_ENERGY_REST + 1;

    mutate_world(&mut chunks, 1, 1, &test_params(), &mut 1, &mut det_rng());

    assert_eq!(chunks[0].cells[0].soil_energy, SOIL_ENERGY_REST);
    assert_eq!(chunks[0].cells[1].soil_energy, SOIL_ENERGY_REST);
}

/// Build trunk-stem + middle-stem-pointing-at-seed + seed setup so the
/// middle stem doesn't orphan-die after dropoff clears its child bit.
fn place_seed_dropoff_fixture(chunks: &mut [Chunk], seed_energy: Energy) {
    place(
        chunks,
        1,
        10,
        12,
        Occupant::Stem {
            plant: 1,
            clan: 0,
            energy: 50,
            connections: STEM_CONNECT_NORTH,
            parent: None,
            children: STEM_CONNECT_NORTH,
        },
    );
    place(
        chunks,
        1,
        10,
        11,
        Occupant::Stem {
            plant: 1,
            clan: 0,
            energy: 50,
            connections: STEM_CONNECT_NORTH | STEM_CONNECT_SOUTH,
            parent: Some(Direction::South),
            children: STEM_CONNECT_NORTH,
        },
    );
    place(
        chunks,
        1,
        10,
        10,
        Occupant::Seed {
            plant: 1,
            clan: 0,
            energy: seed_energy,
            facing: Direction::North,
            genome: Box::new(Genome::default_vine()),
            parent: Some(Direction::South),
        },
    );
}

#[test]
fn phase_seed_germinates_at_threshold() {
    let chunks_x = 1u32;
    let mut chunks = empty_world(chunks_x, 1);
    place_seed_dropoff_fixture(&mut chunks, SEED_DROPOFF_THRESHOLD);

    mutate_world(&mut chunks, 1, 1, &test_params(), &mut 1, &mut det_rng());

    // Cell where the seed was is no longer a Seed — it germinated into
    // a Sprout, which then ran phase 6 growth in the same tick. With
    // ~150 energy and clear surroundings, the default vine grows
    // successfully so the cell ends up as a Stem (with a new Sprout
    // in front + side leaves).
    let occ = &cell_at(&chunks, chunks_x, 10, 10).occupant;
    assert!(
        !matches!(occ, Occupant::Seed { .. }),
        "expected germinated cell (not Seed), got {occ:?}"
    );
    // Parent stem's children-bit pointing at the (former) seed cleared.
    match &cell_at(&chunks, chunks_x, 10, 11).occupant {
        Occupant::Stem { children, .. } => {
            assert_eq!(
                *children & STEM_CONNECT_NORTH,
                0,
                "north (seed) bit should be cleared"
            );
        }
        other => panic!("expected stem, got {other:?}"),
    }
}

#[test]
fn phase_seed_below_threshold_with_alive_parent_stays_seed() {
    let chunks_x = 1u32;
    let mut chunks = empty_world(chunks_x, 1);
    // Low enough that even after upkeep + push from the trunk chain,
    // it stays under the dropoff threshold.
    place_seed_dropoff_fixture(&mut chunks, 30);

    mutate_world(&mut chunks, 1, 1, &test_params(), &mut 1, &mut det_rng());

    match &cell_at(&chunks, chunks_x, 10, 10).occupant {
        Occupant::Seed { parent, .. } => assert_eq!(*parent, Some(Direction::South)),
        other => panic!("expected seed, got {other:?}"),
    }
    match &cell_at(&chunks, chunks_x, 10, 11).occupant {
        Occupant::Stem { children, .. } => {
            assert_eq!(*children & STEM_CONNECT_NORTH, STEM_CONNECT_NORTH);
        }
        other => panic!("expected stem, got {other:?}"),
    }
}

#[test]
fn phase_death_distributes_dying_cell_energy() {
    // Lone leaf with parent=None — orphan-dies on tick 1. Its 50 units
    // of energy should be sprinkled across the 3x3 death kernel into
    // surrounding soil_energy. With kernel_sum=16 and energy=50, each
    // unit weight gets 50/16 = 3 units.
    let chunks_x = 1u32;
    let mut chunks = empty_world(chunks_x, 1);
    place(
        &mut chunks,
        chunks_x,
        10,
        10,
        Occupant::Leaf {
            plant: 1,
            clan: 0,
            energy: 50,
            facing: Direction::North,
            parent: None,
        },
    );

    // Snapshot soil_energy beforehand so we can compute deltas without
    // worrying about phase 1.5 regulation.
    let before: Vec<u16> = chunks[0].cells.iter().map(|c| c.soil_energy).collect();

    mutate_world(&mut chunks, 1, 1, &test_params(), &mut 1, &mut det_rng());

    // Leaf pays UPKEEP_DEFAULT first → dies with the remainder.
    // The death kernel splits that energy across the 3x3 in
    // proportion to its weights. The expected center,
    // cardinal and corner contributions follow from the kernel.
    let kernel = DEATH_DEPOSIT_KERNEL;
    let kernel_sum: u32 = kernel.iter().flatten().map(|&w| w as u32).sum();
    let dying_energy = (50u32).saturating_sub(UPKEEP_DEFAULT as u32);
    let per_unit = dying_energy / kernel_sum.max(1);
    let center_w = kernel[1][1] as u32;
    let card_w = kernel[1][0] as u32;
    let corner_w = kernel[0][0] as u32;
    let cell_at_idx =
        |x: i32, y: i32| -> usize { (y as usize) * (CHUNK_EDGE as usize) + x as usize };
    let center_idx = cell_at_idx(10, 10);
    let north_idx = cell_at_idx(10, 9);
    let nw_idx = cell_at_idx(9, 9);
    let drift = SOIL_ENERGY_REGULATION as u32;
    assert_eq!(
        chunks[0].cells[center_idx].soil_energy as u32,
        before[center_idx] as u32 + drift + per_unit * center_w
    );
    assert_eq!(
        chunks[0].cells[north_idx].soil_energy as u32,
        before[north_idx] as u32 + drift + per_unit * card_w
    );
    assert_eq!(
        chunks[0].cells[nw_idx].soil_energy as u32,
        before[nw_idx] as u32 + drift + per_unit * corner_w
    );
}

#[test]
fn phase_death_organic_poison_kills_leaf_but_not_root() {
    let chunks_x = 1u32;
    let mut chunks = empty_world(chunks_x, 1);
    // Two cells with high organic. One holds a leaf, one a root. Both
    // also need parents/structure that wouldn't kill them on their own.
    // Easiest: give them both Some(direction) parents pointing at each
    // other so neither orphan-dies — root.parent=East (at leaf),
    // leaf.parent=West (at root). Same plant.
    let high_organic = SOIL_ORGANIC_POISON + 10;
    let leaf_idx = 10 * (CHUNK_EDGE as usize) + 11;
    let root_idx = 10 * (CHUNK_EDGE as usize) + 10;
    chunks[0].cells[leaf_idx].organic = high_organic;
    chunks[0].cells[root_idx].organic = high_organic;
    place(
        &mut chunks,
        chunks_x,
        10,
        10,
        Occupant::Root {
            plant: 1,
            clan: 0,
            energy: 50,
            parent: Some(Direction::East),
        },
    );
    place(
        &mut chunks,
        chunks_x,
        11,
        10,
        Occupant::Leaf {
            plant: 1,
            clan: 0,
            energy: 50,
            facing: Direction::North,
            parent: Some(Direction::West),
        },
    );

    mutate_world(&mut chunks, 1, 1, &test_params(), &mut 1, &mut det_rng());

    // Leaf died from organic poisoning.
    assert!(matches!(
        cell_at(&chunks, chunks_x, 11, 10).occupant,
        Occupant::Empty
    ));
    // Root survived — immune to organic poison.
    assert!(matches!(
        cell_at(&chunks, chunks_x, 10, 10).occupant,
        Occupant::Root { .. }
    ));
}

#[test]
fn phase_death_energy_poison_kills_leaf_but_not_antenna() {
    let chunks_x = 1u32;
    let mut chunks = empty_world(chunks_x, 1);
    let high_energy = SOIL_ENERGY_POISON + 10;
    let leaf_idx = 10 * (CHUNK_EDGE as usize) + 11;
    let antenna_idx = 10 * (CHUNK_EDGE as usize) + 10;
    chunks[0].cells[leaf_idx].soil_energy = high_energy;
    chunks[0].cells[antenna_idx].soil_energy = high_energy;
    place(
        &mut chunks,
        chunks_x,
        10,
        10,
        Occupant::Antenna {
            plant: 1,
            clan: 0,
            energy: 50,
            parent: Some(Direction::East),
        },
    );
    place(
        &mut chunks,
        chunks_x,
        11,
        10,
        Occupant::Leaf {
            plant: 1,
            clan: 0,
            energy: 50,
            facing: Direction::North,
            parent: Some(Direction::West),
        },
    );

    mutate_world(&mut chunks, 1, 1, &test_params(), &mut 1, &mut det_rng());

    // Leaf died from energy poisoning.
    assert!(matches!(
        cell_at(&chunks, chunks_x, 11, 10).occupant,
        Occupant::Empty
    ));
    // Antenna survived — immune to energy poison.
    assert!(matches!(
        cell_at(&chunks, chunks_x, 10, 10).occupant,
        Occupant::Antenna { .. }
    ));
}

#[test]
fn phase_prune_cascades_one_link_per_tick() {
    // Chain A → B → C with a sprout at the tip that already died (cell
    // at sprout position is Empty). Prune drops C's tip-bit when it
    // sees Empty; phase_drainage then drains C's energy back into B
    // and drops B's bit pointing at C — all in tick 1. C dies via
    // energy_dead at end of tick 1. Then tick 2 collapses B → A.
    let chunks_x = 1u32;
    let mut chunks = empty_world(chunks_x, 1);
    // Head A (parent=None, points north at B).
    place(
        &mut chunks,
        chunks_x,
        10,
        10,
        Occupant::Stem {
            plant: 1,
            clan: 0,
            energy: 100,
            connections: STEM_CONNECT_NORTH,
            parent: None,
            children: STEM_CONNECT_NORTH,
        },
    );
    // Middle B (points north at C).
    place(
        &mut chunks,
        chunks_x,
        10,
        9,
        Occupant::Stem {
            plant: 1,
            clan: 0,
            energy: 100,
            connections: STEM_CONNECT_NORTH | STEM_CONNECT_SOUTH,
            parent: Some(Direction::South),
            children: STEM_CONNECT_NORTH,
        },
    );
    // Tail C (points north at where the sprout used to be — now
    // Empty).
    place(
        &mut chunks,
        chunks_x,
        10,
        8,
        Occupant::Stem {
            plant: 1,
            clan: 0,
            energy: 100,
            connections: STEM_CONNECT_NORTH | STEM_CONNECT_SOUTH,
            parent: Some(Direction::South),
            children: STEM_CONNECT_NORTH,
        },
    );

    // Helper: snapshot just the (alive?, children) of A/B/C.
    let snap = |chunks: &[Chunk]| -> [(bool, u8); 3] {
        let cells = [(10, 10), (10, 9), (10, 8)];
        let mut out = [(false, 0u8); 3];
        for (i, (x, y)) in cells.iter().enumerate() {
            match &cell_at(chunks, chunks_x, *x, *y).occupant {
                Occupant::Stem { children, .. } => out[i] = (true, *children),
                Occupant::Empty => out[i] = (false, 0),
                other => panic!("unexpected occupant: {other:?}"),
            }
        }
        out
    };

    // Tick 1: tip C sees Empty north → drops its N bit. Drainage
    // sees C as a kin dead-end and drains it to 0; B drops its bit
    // pointing at C in the same step. C dies via energy_dead. B
    // still has its parent ref to A (A is alive kin), so B
    // survives this tick as a parent-only stem.
    mutate_world(&mut chunks, 1, 1, &test_params(), &mut 1, &mut det_rng());
    assert_eq!(
        snap(&chunks),
        [(true, STEM_CONNECT_NORTH), (true, 0), (false, 0)],
        "after tick 1 C should be drained + dead, B's child bit cleared"
    );
}

#[test]
fn phase_death_clears_parent_on_neighbors_pointing_at_dying() {
    // A leaf at (10, 10) with parent=South pointing at a stem at
    // (10, 11). The stem dies (orphan + zero energy). After the
    // tick the leaf's parent should be None — so even if a foreign
    // cell later repopulates (10, 11), the leaf can't silently
    // re-attach.
    let chunks_x = 1u32;
    let mut chunks = empty_world(chunks_x, 1);
    place(
        &mut chunks,
        chunks_x,
        10,
        10,
        Occupant::Leaf {
            plant: 1,
            clan: 0,
            energy: 50,
            facing: Direction::North,
            parent: Some(Direction::South),
        },
    );
    // Stem about to die: zero energy and no children.
    place(
        &mut chunks,
        chunks_x,
        10,
        11,
        Occupant::Stem {
            plant: 1,
            clan: 0,
            energy: 0,
            connections: 0,
            parent: None,
            children: 0,
        },
    );

    mutate_world(&mut chunks, 1, 1, &test_params(), &mut 1, &mut det_rng());

    // Stem died.
    assert!(matches!(
        cell_at(&chunks, chunks_x, 10, 11).occupant,
        Occupant::Empty
    ));
    // Leaf's parent has been cleared (it was Some(South), pointing
    // at the now-dead stem). It will orphan-die next tick — we
    // don't need to assert the leaf's still alive here, only that
    // its parent is gone.
    match &cell_at(&chunks, chunks_x, 10, 10).occupant {
        Occupant::Leaf { parent, .. } => assert_eq!(*parent, None),
        // Acceptable if it already orphan-died — that's the
        // immediate consequence of clearing parent + push lossage.
        Occupant::Empty => {}
        other => panic!("unexpected: {other:?}"),
    }
}

#[test]
fn phase_seed_germinates_when_parent_dies() {
    // Seed with parent direction pointing at an empty cell. Should
    // germinate even though energy is well below threshold.
    let chunks_x = 1u32;
    let mut chunks = empty_world(chunks_x, 1);
    place(
        &mut chunks,
        chunks_x,
        10,
        10,
        Occupant::Seed {
            plant: 7,
            clan: 0,
            energy: 25, // far below SEED_DROPOFF_THRESHOLD
            facing: Direction::East,
            genome: Box::new(Genome::default_vine()),
            parent: Some(Direction::South),
        },
    );
    // (10, 11) is left Empty — simulating a parent stem that died last
    // tick (decomposed into Empty by phase 7).

    // Counter starts at 100 so we can distinguish the fresh id from
    // the seed's previous plant id (7).
    mutate_world(&mut chunks, 1, 1, &test_params(), &mut 100, &mut det_rng());

    match &cell_at(&chunks, chunks_x, 10, 10).occupant {
        Occupant::Sprout {
            plant,
            facing,
            parent,
            current_gene,
            ..
        } => {
            assert_eq!(
                *plant, 100,
                "germinated sprout becomes its own plant — fresh id"
            );
            assert_eq!(*facing, Direction::East, "facing preserved");
            assert_eq!(*parent, None);
            assert_eq!(*current_gene, 0);
        }
        other => panic!("expected sprout, got {other:?}"),
    }
}
