//! Growth of sprouts.
use simulife::grid::Grid;
use simulife::protocol::{
    Cell, Chunk, ChunkCoord, Direction, Energy, Gene, Genome, Occupant, SimParams, SlotProduct,
    CHUNK_AREA, CHUNK_EDGE, DEFAULT_MUTATION_RATE, GENOME_LEN, STEM_CONNECT_EAST,
    STEM_CONNECT_SOUTH, STEM_CONNECT_WEST,
};
use simulife::rng::SimRng;
use simulife::sim::growth::phase_growth_pull;
use simulife::sim::occupant::occupant_energy;
use simulife::sim::stem::{phase_drainage, phase_prune_pull};

const COST_SEED: Energy = 90;
const DEATH_DEPOSIT_KERNEL: [[u16; 3]; 3] = [[1, 2, 1], [2, 4, 2], [1, 2, 1]];
const HARD_EDGED: Grid = Grid { chunks_x: 1, chunks_y: 1, wrap: false };
const WRAPPING: Grid = Grid { chunks_x: 1, chunks_y: 1, wrap: true };

fn test_params() -> SimParams {
    SimParams { world_wrap: false, ..SimParams::default() }
}

fn det_rng() -> SimRng {
    SimRng::seed_from_u64(0)
}

fn empty_world(chunks_x: u32, chunks_y: u32) -> Vec<Chunk> {
    let mut v = Vec::with_capacity((chunks_x * chunks_y) as usize);
    for cy in 0..chunks_y as i32 {
        for cx in 0..chunks_x as i32 {
            let cells = (0..CHUNK_AREA)
                .map(|_| Cell {
                    organic: 0,
                    soil_energy: 0,
                    sunlit: false,
                    lineage_mutation_rate: 0,
                    occupant: Occupant::Empty,
                })
                .collect();
            v.push(Chunk {
                coord: ChunkCoord { x: cx, y: cy },
                cells,
            });
        }
    }
    v
}

fn cell_at<'a>(chunks: &'a [Chunk], chunks_x: u32, x: i32, y: i32) -> &'a Cell {
    let edge = CHUNK_EDGE as i32;
    let chunk_idx = (y / edge) as usize * chunks_x as usize + (x / edge) as usize;
    let cell_idx = (y % edge) as usize * (CHUNK_EDGE as usize) + (x % edge) as usize;
    &chunks[chunk_idx].cells[cell_idx]
}

fn place(chunks: &mut [Chunk], chunks_x: u32, x: i32, y: i32, occ: Occupant) {
    let edge = CHUNK_EDGE as i32;
    let chunk_idx = (y / edge) as usize * chunks_x as usize + (x / edge) as usize;
    let cell_idx = (y % edge) as usize * (CHUNK_EDGE as usize) + (x % edge) as usize;
    chunks[chunk_idx].cells[cell_idx].occupant = occ;
}

fn vine_sprout(energy: Energy) -> (Occupant, Genome) {
    let genome = Genome::default_vine();
    let occ = Occupant::Sprout {
        plant: 1,
        clan: 0,
        energy,
        facing: Direction::North,
        genome: Box::new(genome.clone()),
        parent: None,
        current_gene: 0,
    };
    (occ, genome)
}

/// Sprout whose first gene plants a Seed straight ahead.
fn seed_front_sprout(energy: Energy) -> (Occupant, Genome) {
    let mut genes = vec![Gene {
        front: SlotProduct::Seed,
        left: SlotProduct::Nothing,
        right: SlotProduct::Nothing,
        next: 0,
    }];
    while genes.len() < GENOME_LEN {
        genes.push(Gene::default());
    }
    let genome = Genome {
        genes,
        mutation_rate: DEFAULT_MUTATION_RATE,
    };
    let occ = Occupant::Sprout {
        plant: 1,
        clan: 0,
        energy,
        facing: Direction::North,
        genome: Box::new(genome.clone()),
        parent: None,
        current_gene: 0,
    };
    (occ, genome)
}

#[test]
fn growth_with_clear_sides_spawns_sprout_and_two_leaves() {
    // A sprout ahead and two leaves cost 20 + 5 + 5 here.
    let params = SimParams { cost_sprout: 20, cost_leaf: 5, ..test_params() };
    let chunks_x = 1u32;
    let mut chunks = empty_world(chunks_x, 1);
    let (sprout, _) = vine_sprout(100);
    place(&mut chunks, chunks_x, 10, 10, sprout);

    phase_growth_pull(
        &mut chunks,
        HARD_EDGED,
        &params,
        &DEATH_DEPOSIT_KERNEL,
        &mut det_rng(),
    );

    assert!(matches!(
        cell_at(&chunks, chunks_x, 10, 10).occupant,
        Occupant::Stem { .. }
    ));
    assert!(matches!(
        cell_at(&chunks, chunks_x, 10, 9).occupant,
        Occupant::Sprout { .. }
    ));
    assert!(matches!(
        cell_at(&chunks, chunks_x, 9, 10).occupant,
        Occupant::Leaf { .. }
    ));
    assert!(matches!(
        cell_at(&chunks, chunks_x, 11, 10).occupant,
        Occupant::Leaf { .. }
    ));
}

#[test]
fn growth_at_world_edge_skips_oob_front() {
    // World has hard edges (no wrap). A sprout at y=0 facing North
    // has its front target at (10, -1) — out of bounds → skipped.
    // Sides are still in-bounds and grow leaves; the cell becomes a
    // children-less stem.
    let chunks_x = 1u32;
    let mut chunks = empty_world(chunks_x, 1);
    let (sprout, _) = vine_sprout(100);
    place(&mut chunks, chunks_x, 10, 0, sprout);

    phase_growth_pull(
        &mut chunks,
        HARD_EDGED,
        &test_params(),
        &DEATH_DEPOSIT_KERNEL,
        &mut det_rng(),
    );

    // Center cell: stem with no children (front was OOB).
    match &cell_at(&chunks, chunks_x, 10, 0).occupant {
        Occupant::Stem { children, .. } => assert_eq!(*children, 0),
        other => panic!("expected children-less stem, got {other:?}"),
    }
    // Sides grew leaves as usual.
    assert!(matches!(
        cell_at(&chunks, chunks_x, 9, 0).occupant,
        Occupant::Leaf { .. }
    ));
    assert!(matches!(
        cell_at(&chunks, chunks_x, 11, 0).occupant,
        Occupant::Leaf { .. }
    ));
}

#[test]
fn growth_dies_when_all_targets_blocked() {
    let chunks_x = 1u32;
    let mut chunks = empty_world(chunks_x, 1);
    // Stems are inedible — they actually block. (Leaves and the like
    // would just get eaten and turn into food.)
    let blocker = || Occupant::Stem {
        plant: 99,
        clan: 0,
        energy: 50,
        connections: 0,
        parent: None,
        children: 0,
    };
    place(&mut chunks, chunks_x, 10, 9, blocker());
    place(&mut chunks, chunks_x, 9, 10, blocker());
    place(&mut chunks, chunks_x, 11, 10, blocker());

    let (sprout, _) = vine_sprout(100);
    place(&mut chunks, chunks_x, 10, 10, sprout);

    phase_growth_pull(
        &mut chunks,
        HARD_EDGED,
        &test_params(),
        &DEATH_DEPOSIT_KERNEL,
        &mut det_rng(),
    );

    assert!(matches!(
        cell_at(&chunks, chunks_x, 10, 10).occupant,
        Occupant::Empty
    ));
    // Some organic was deposited at the center (DEATH_DEPOSIT_KERNEL
    // center weight is non-zero).
    assert!(cell_at(&chunks, chunks_x, 10, 10).organic > 0);
}

#[test]
fn growth_seed_slot_eats_foreign_leaf_and_pools_its_energy() {
    // A sprout whose front gene is Seed: the seed lands on a foreign
    // leaf, harvesting its energy. The side slots are Nothing — they
    // don't try to grow at all.
    let chunks_x = 1u32;
    let mut chunks = empty_world(chunks_x, 1);

    place(
        &mut chunks,
        chunks_x,
        10,
        9,
        Occupant::Leaf {
            plant: 99,
            clan: 0,
            energy: 50,
            facing: Direction::North,
            parent: None,
        },
    );

    let (sprout, _) = seed_front_sprout(40);
    place(&mut chunks, chunks_x, 10, 10, sprout);

    phase_growth_pull(
        &mut chunks,
        HARD_EDGED,
        &test_params(),
        &DEATH_DEPOSIT_KERNEL,
        &mut det_rng(),
    );

    // Pool: 40 own + 50 harvested = 90. Subtract COST_SEED.
    let expected = 90u32.saturating_sub(COST_SEED as u32) as Energy;
    match cell_at(&chunks, chunks_x, 10, 10).occupant {
        Occupant::Stem { plant, energy, .. } => {
            assert_eq!(plant, 1, "stem belongs to eater plant");
            assert_eq!(energy, expected, "pool minus cost");
        }
        ref other => panic!("expected stem, got {other:?}"),
    }
    // Eaten cell is now our Seed.
    match cell_at(&chunks, chunks_x, 10, 9).occupant {
        Occupant::Seed { plant, .. } => assert_eq!(plant, 1),
        ref other => panic!("expected eater seed in front, got {other:?}"),
    }
}

#[test]
fn growth_static_slot_cannot_eat_foreign_leaf() {
    // A genome whose front gene is a Leaf can't eat — only Sprout or
    // Seed slots have that power. Foreign leaf in front survives
    // untouched; the sprout has no other viable slot, so it dies in
    // place.
    let chunks_x = 1u32;
    let mut chunks = empty_world(chunks_x, 1);

    place(
        &mut chunks,
        chunks_x,
        10,
        9,
        Occupant::Leaf {
            plant: 99,
            clan: 0,
            energy: 50,
            facing: Direction::North,
            parent: None,
        },
    );

    let mut genes = vec![Gene {
        front: SlotProduct::Leaf,
        left: SlotProduct::Nothing,
        right: SlotProduct::Nothing,
        next: 0,
    }];
    while genes.len() < GENOME_LEN {
        genes.push(Gene::default());
    }
    let genome = Genome {
        genes,
        mutation_rate: DEFAULT_MUTATION_RATE,
    };
    place(
        &mut chunks,
        chunks_x,
        10,
        10,
        Occupant::Sprout {
            plant: 1,
            clan: 0,
            energy: 100,
            facing: Direction::North,
            genome: Box::new(genome.clone()),
            parent: None,
            current_gene: 0,
        },
    );

    phase_growth_pull(
        &mut chunks,
        HARD_EDGED,
        &test_params(),
        &DEATH_DEPOSIT_KERNEL,
        &mut det_rng(),
    );

    // Foreign leaf intact.
    match cell_at(&chunks, chunks_x, 10, 9).occupant {
        Occupant::Leaf { plant, energy, .. } => {
            assert_eq!(plant, 99, "foreign leaf survives — Leaf slot can't eat");
            assert_eq!(energy, 50);
        }
        ref other => panic!("expected foreign leaf untouched, got {other:?}"),
    }
}

#[test]
fn growth_seed_slot_skips_own_plant_cells() {
    // Same-plant cells are protected from eating — even Seed slots
    // refuse to consume an own-plant Leaf. The sprout's only
    // viable target is its front (the leaf), and since that's
    // blocked, no slots are viable: the sprout dies in place.
    let chunks_x = 1u32;
    let mut chunks = empty_world(chunks_x, 1);

    place(
        &mut chunks,
        chunks_x,
        10,
        9,
        Occupant::Leaf {
            plant: 1,
            clan: 0,
            energy: 50,
            facing: Direction::North,
            parent: None,
        },
    );

    let (sprout, _) = seed_front_sprout(40);
    place(&mut chunks, chunks_x, 10, 10, sprout);

    phase_growth_pull(
        &mut chunks,
        HARD_EDGED,
        &test_params(),
        &DEATH_DEPOSIT_KERNEL,
        &mut det_rng(),
    );

    // Front cell still the own-plant leaf, energy intact.
    match cell_at(&chunks, chunks_x, 10, 9).occupant {
        Occupant::Leaf { plant, energy, .. } => {
            assert_eq!(plant, 1, "own-plant leaf preserved");
            assert_eq!(energy, 50);
        }
        ref other => panic!("expected own leaf untouched, got {other:?}"),
    }
    // No viable slots: the sprout died in place.
    assert!(matches!(
        cell_at(&chunks, chunks_x, 10, 10).occupant,
        Occupant::Empty
    ));
}

#[test]
fn growth_severs_eaten_cell_from_foreign_parent_stem() {
    // Plant 2 has a Stem at (10, 8) with a child Leaf to its south at
    // (10, 9). Plant 1's sprout at (10, 10) faces north and eats that
    // leaf. The foreign stem must drop its South children/connections
    // bit — otherwise it would keep treating the now-foreign cell as
    // its child (silently merging the two plants and pumping energy
    // across).
    let chunks_x = 1u32;
    let mut chunks = empty_world(chunks_x, 1);

    // Foreign stem at (10, 8): South child bit set.
    place(
        &mut chunks,
        chunks_x,
        10,
        8,
        Occupant::Stem {
            plant: 2,
            clan: 1,
            energy: 30,
            connections: STEM_CONNECT_SOUTH,
            parent: None,
            children: STEM_CONNECT_SOUTH,
        },
    );
    // Foreign leaf at (10, 9), parent: North (back to (10, 8)).
    place(
        &mut chunks,
        chunks_x,
        10,
        9,
        Occupant::Leaf {
            plant: 2,
            clan: 1,
            energy: 50,
            facing: Direction::North,
            parent: Some(Direction::North),
        },
    );

    // Plant 1's sprout (front=Seed) eats (10, 9).
    let (sprout, _) = seed_front_sprout(40);
    place(&mut chunks, chunks_x, 10, 10, sprout);

    // Growth leaves the foreign stem alone; pruning notices the foreign cell and
    // drops the stem's child and connection bits.
    phase_growth_pull(
        &mut chunks,
        HARD_EDGED,
        &test_params(),
        &DEATH_DEPOSIT_KERNEL,
        &mut det_rng(),
    );
    phase_prune_pull(&mut chunks, WRAPPING);

    // (10, 9) replaced with our Seed (plant 1).
    match &cell_at(&chunks, chunks_x, 10, 9).occupant {
        Occupant::Seed { plant, .. } => assert_eq!(*plant, 1),
        other => panic!("expected own-plant Seed, got {other:?}"),
    }
    // Foreign stem at (10, 8) lost its South child + connection bit.
    match &cell_at(&chunks, chunks_x, 10, 8).occupant {
        Occupant::Stem {
            plant,
            connections,
            children,
            ..
        } => {
            assert_eq!(*plant, 2, "foreign stem still belongs to plant 2");
            assert_eq!(
                *children & STEM_CONNECT_SOUTH,
                0,
                "foreign stem's South child bit should be cleared"
            );
            assert_eq!(
                *connections & STEM_CONNECT_SOUTH,
                0,
                "foreign stem's South connection bit should be cleared"
            );
        }
        other => panic!("expected foreign Stem at (10,8), got {other:?}"),
    }
}

#[test]
fn growth_waits_when_energy_below_cost() {
    let chunks_x = 1u32;
    let mut chunks = empty_world(chunks_x, 1);
    // 5 is well below the cost of a sprout and two leaves.
    let (sprout, _) = vine_sprout(5);
    place(&mut chunks, chunks_x, 10, 10, sprout);

    phase_growth_pull(
        &mut chunks,
        HARD_EDGED,
        &test_params(),
        &DEATH_DEPOSIT_KERNEL,
        &mut det_rng(),
    );

    assert!(matches!(
        cell_at(&chunks, chunks_x, 10, 10).occupant,
        Occupant::Sprout { .. }
    ));
    assert!(matches!(
        cell_at(&chunks, chunks_x, 10, 9).occupant,
        Occupant::Empty
    ));
    assert!(matches!(
        cell_at(&chunks, chunks_x, 9, 10).occupant,
        Occupant::Empty
    ));
    assert!(matches!(
        cell_at(&chunks, chunks_x, 11, 10).occupant,
        Occupant::Empty
    ));
}

#[test]
fn drainage_loses_only_what_a_full_stem_cannot_hold() {
    let stem = |energy: Energy, children: u8| Occupant::Stem {
        plant: 1,
        clan: 0,
        energy,
        connections: children,
        parent: None,
        children,
    };
    // Two stems lead to the same dead end: the first of them gets all of it.
    for (first, after) in [(7, 40), (65_530, 65_535)] {
        let mut chunks = empty_world(1, 1);
        place(&mut chunks, 1, 5, 5, stem(first, STEM_CONNECT_EAST));
        place(&mut chunks, 1, 6, 5, stem(33, 0));
        place(&mut chunks, 1, 7, 5, stem(11, STEM_CONNECT_WEST));
        phase_drainage(&mut chunks, HARD_EDGED);
        let left = |x: i32| occupant_energy(&cell_at(&chunks, 1, x, 5).occupant);
        assert_eq!([left(5), left(6), left(7)], [Some(after), Some(0), Some(11)]);
    }
}
