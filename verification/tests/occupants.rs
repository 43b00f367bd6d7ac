//! What the phases ask of single occupants.
use simulife::grid::Grid;
use simulife::protocol::{
    Cell, Chunk, ChunkCoord, Direction, Energy, Genome, Occupant, SimParams, SlotProduct,
    CHUNK_AREA, CHUNK_EDGE, STEM_CONNECT_EAST, STEM_CONNECT_NORTH,
};
use simulife::rng::SimRng;
use simulife::sim::death::cell_has_no_push_target;
use simulife::sim::growth::make_slot_occupant;
use simulife::sim::occupant::{
    is_kin_descendable, is_poisoned, occupant_energy, push_targets, set_occupant_energy, slot_cost,
    upkeep_for,
};

const COST_SPROUT: Energy = 60;
const COST_LEAF: Energy = 30;
const COST_ROOT: Energy = 30;
const COST_ANTENNA: Energy = 30;
const COST_SEED: Energy = 90;
const UPKEEP_DEFAULT: Energy = 2;
const UPKEEP_SEED: Energy = 1;
const UPKEEP_SPROUT: Energy = 5;
const WRAPPING: Grid = Grid { chunks_x: 1, chunks_y: 1, wrap: true };

fn test_params() -> SimParams {
    SimParams { world_wrap: false, ..SimParams::default() }
}

fn det_rng() -> SimRng {
    SimRng::seed_from_u64(0)
}

fn empty_world(chunks_x: u32, chunks_y: u32) -> Vec<Chunk> {
    let mut v = Vec::with_capacity((chunks_x * chunks_y) as usize);
    for cy in 0..chunks_y as i32 {
        for cx in 0..chunks_x as i32 {
            let cells = (0..CHUNK_AREA)
                .map(|_| Cell {
                    organic: 0,
                    soil_energy: 0,
                    sunlit: false,
                    lineage_mutation_rate: 0,
                    occupant: Occupant::Empty,
                })
                .collect();
            v.push(Chunk {
                coord: ChunkCoord { x: cx, y: cy },
                cells,
            });
        }
    }
    v
}

fn place(chunks: &mut [Chunk], chunks_x: u32, x: i32, y: i32, occ: Occupant) {
    let edge = CHUNK_EDGE as i32;
    let chunk_idx = (y / edge) as usize * chunks_x as usize + (x / edge) as usize;
    let cell_idx = (y % edge) as usize * (CHUNK_EDGE as usize) + (x % edge) as usize;
    chunks[chunk_idx].cells[cell_idx].occupant = occ;
}

#[test]
fn is_kin_descendable_keeps_kin_sprouts_seeds_stems() {
    let sprout = Occupant::Sprout {
        plant: 1,
        clan: 0,
        energy: 10,
        facing: Direction::North,
        genome: Box::new(Genome::default_vine()),
        parent: None,
        current_gene: 0,
    };
    let stem_with_kids = Occupant::Stem {
        plant: 1,
        clan: 0,
        energy: 10,
        connections: STEM_CONNECT_NORTH,
        parent: None,
        children: STEM_CONNECT_NORTH,
    };
    let stem_no_kids = Occupant::Stem {
        plant: 1,
        clan: 0,
        energy: 10,
        connections: 0,
        parent: None,
        children: 0,
    };
    let leaf = Occupant::Leaf {
        plant: 1,
        clan: 0,
        energy: 10,
        facing: Direction::North,
        parent: None,
    };
    let seed = Occupant::Seed {
        plant: 1,
        clan: 0,
        energy: 10,
        facing: Direction::North,
        genome: Box::new(Genome::default_vine()),
        parent: None,
    };
    // Kin sprouts/seeds/stems are descendable; dead-end stems are
    // also kept here (phase_drainage handles those separately).
    assert!(is_kin_descendable(&sprout, 1));
    assert!(is_kin_descendable(&seed, 1));
    assert!(is_kin_descendable(&stem_with_kids, 1));
    assert!(is_kin_descendable(&stem_no_kids, 1));
    // Producers and Empty are not children-bit targets.
    assert!(!is_kin_descendable(&leaf, 1));
    assert!(!is_kin_descendable(&Occupant::Empty, 1));
    // Different-plant: blocked even for sinks.
    assert!(!is_kin_descendable(&sprout, 2));
    assert!(!is_kin_descendable(&stem_with_kids, 2));
}

#[test]
fn push_targets_match_role() {
    let leaf = Occupant::Leaf {
        plant: 1,
        clan: 0,
        energy: 0,
        facing: Direction::North,
        parent: Some(Direction::South),
    };
    assert_eq!(push_targets(&leaf), vec![Direction::South]);

    let leaf_orphan = Occupant::Leaf {
        plant: 1,
        clan: 0,
        energy: 0,
        facing: Direction::North,
        parent: None,
    };
    assert!(push_targets(&leaf_orphan).is_empty());

    let stem_kids = Occupant::Stem {
        plant: 1,
        clan: 0,
        energy: 0,
        connections: 0,
        parent: Some(Direction::South),
        children: STEM_CONNECT_NORTH | STEM_CONNECT_EAST,
    };
    assert_eq!(
        push_targets(&stem_kids),
        vec![Direction::North, Direction::East]
    );

    let stem_no_kids = Occupant::Stem {
        plant: 1,
        clan: 0,
        energy: 0,
        connections: 0,
        parent: Some(Direction::South),
        children: 0,
    };
    assert!(
        push_targets(&stem_no_kids).is_empty(),
        "dead-end stems don't push up — phase_drainage handles them"
    );

    let sprout = Occupant::Sprout {
        plant: 1,
        clan: 0,
        energy: 0,
        facing: Direction::North,
        genome: Box::new(Genome::default_vine()),
        parent: Some(Direction::South),
        current_gene: 0,
    };
    assert!(push_targets(&sprout).is_empty(), "sprouts are sinks");

    assert!(push_targets(&Occupant::Empty).is_empty());
}

#[test]
fn cell_has_no_push_target_for_orphans_and_oob() {
    let chunks_x = 1u32;
    let mut chunks = empty_world(chunks_x, 1);

    // Stem with children=0 and parent=None → orphan.
    let stem_orphan = Occupant::Stem {
        plant: 1,
        clan: 0,
        energy: 0,
        connections: 0,
        parent: None,
        children: 0,
    };
    assert!(cell_has_no_push_target(&stem_orphan, &chunks, WRAPPING, 5 * 32 + 5));

    // Stem with children present → not orphan.
    let stem_kid = Occupant::Stem {
        plant: 1,
        clan: 0,
        energy: 0,
        connections: 0,
        parent: None,
        children: STEM_CONNECT_NORTH,
    };
    assert!(!cell_has_no_push_target(&stem_kid, &chunks, WRAPPING, 5 * 32 + 5));

    // Leaf whose parent direction points at an Empty cell → orphan.
    let leaf = Occupant::Leaf {
        plant: 1,
        clan: 0,
        energy: 0,
        facing: Direction::North,
        parent: Some(Direction::South),
    };
    assert!(cell_has_no_push_target(&leaf, &chunks, WRAPPING, 5 * 32 + 5));

    // Same leaf, but place a stem in the parent direction → not orphan.
    place(
        &mut chunks,
        chunks_x,
        5,
        6,
        Occupant::Stem {
            plant: 1,
            clan: 0,
            energy: 0,
            connections: 0,
            parent: None,
            children: STEM_CONNECT_NORTH,
        },
    );
    assert!(!cell_has_no_push_target(&leaf, &chunks, WRAPPING, 5 * 32 + 5));

    // Leaf at top edge with parent=North → OOB, orphan.
    let leaf_top = Occupant::Leaf {
        plant: 1,
        clan: 0,
        energy: 0,
        facing: Direction::South,
        parent: Some(Direction::North),
    };
    assert!(cell_has_no_push_target(&leaf_top, &chunks, WRAPPING, 0 * 32 + 5));

    // Sprout / seed / empty are not subject to orphan death.
    assert!(!cell_has_no_push_target(&Occupant::Empty, &chunks, WRAPPING, 0 * 32 + 0));
}

#[test]
fn slot_cost_per_product() {
    assert_eq!(slot_cost(&test_params(), SlotProduct::Nothing), 0);
    assert_eq!(slot_cost(&test_params(), SlotProduct::Leaf), COST_LEAF);
    assert_eq!(slot_cost(&test_params(), SlotProduct::Root), COST_ROOT);
    assert_eq!(
        slot_cost(&test_params(), SlotProduct::Antenna),
        COST_ANTENNA
    );
    assert_eq!(slot_cost(&test_params(), SlotProduct::Seed), COST_SEED);
    assert_eq!(slot_cost(&test_params(), SlotProduct::Sprout), COST_SPROUT);
}

#[test]
fn make_slot_occupant_sets_parent_back_toward_creator() {
    // The parent direction passed to make_slot_occupant is the spawn
    // direction; the new cell's `parent` field should point the OPPOSITE
    // way (back at the producing sprout).
    let parent_genome = Genome::default_vine();
    let leaf = make_slot_occupant(
        &test_params(),
        SlotProduct::Leaf,
        7,
        0,
        Direction::East,
        Direction::East,
        &parent_genome,
        0,
        &mut det_rng(),
    )
    .unwrap();
    match leaf {
        Occupant::Leaf {
            plant,
            clan: _,
            facing,
            parent,
            energy,
        } => {
            assert_eq!(plant, 7);
            assert_eq!(facing, Direction::East);
            assert_eq!(parent, Some(Direction::West));
            assert_eq!(energy, COST_LEAF);
        }
        _ => panic!("expected leaf"),
    }

    let nothing = make_slot_occupant(
        &test_params(),
        SlotProduct::Nothing,
        1,
        0,
        Direction::North,
        Direction::North,
        &parent_genome,
        0,
        &mut det_rng(),
    );
    assert!(nothing.is_none());

    let sprout = make_slot_occupant(
        &test_params(),
        SlotProduct::Sprout,
        5,
        0,
        Direction::North,
        Direction::North,
        &parent_genome,
        3,
        &mut det_rng(),
    )
    .unwrap();
    match sprout {
        Occupant::Sprout {
            current_gene,
            parent,
            ..
        } => {
            assert_eq!(current_gene, 3);
            assert_eq!(parent, Some(Direction::South));
        }
        _ => panic!("expected sprout"),
    }
}

#[test]
fn occupant_energy_get_set_round_trip() {
    let mut occ = Occupant::Stem {
        plant: 1,
        clan: 0,
        energy: 50,
        connections: 0,
        parent: None,
        children: STEM_CONNECT_NORTH,
    };
    assert_eq!(occupant_energy(&occ), Some(50));
    set_occupant_energy(&mut occ, 99);
    assert_eq!(occupant_energy(&occ), Some(99));

    let empty = Occupant::Empty;
    assert_eq!(occupant_energy(&empty), None);
}

#[test]
fn upkeep_for_each_occupant() {
    let leaf = Occupant::Leaf {
        plant: 1,
        clan: 0,
        energy: 0,
        facing: Direction::North,
        parent: None,
    };
    let sprout = Occupant::Sprout {
        plant: 1,
        clan: 0,
        energy: 0,
        facing: Direction::North,
        genome: Box::new(Genome::default_vine()),
        parent: None,
        current_gene: 0,
    };
    let seed = Occupant::Seed {
        plant: 1,
        clan: 0,
        energy: 0,
        facing: Direction::North,
        genome: Box::new(Genome::default_vine()),
        parent: None,
    };
    assert_eq!(upkeep_for(&test_params(), &leaf), UPKEEP_DEFAULT);
    assert_eq!(upkeep_for(&test_params(), &sprout), UPKEEP_SPROUT);
    assert_eq!(upkeep_for(&test_params(), &seed), UPKEEP_SEED);
    assert_eq!(upkeep_for(&test_params(), &Occupant::Empty), 0);
}

#[test]
fn default_soil_poisons_all_but_roots_or_antennae() {
    let params = SimParams::default();
    assert_eq!(params.soil_organic_poison, 300);
    assert_eq!(params.soil_energy_poison, 200);
    let (plant, clan, energy) = (1, 0, 50);
    let (facing, parent) = (Direction::North, None);
    let leaf = Occupant::Leaf { plant, clan, energy, facing, parent };
    let root = Occupant::Root { plant, clan, energy, parent };
    let antenna = Occupant::Antenna { plant, clan, energy, parent };
    for (organic, soil_energy, dies) in [
        (300, 200, [false, false, false]),
        (301, 0, [true, false, true]),
        (0, 201, [true, true, false]),
        (301, 201, [true, true, true]),
    ] {
        assert_eq!(is_poisoned(&params, &leaf, organic, soil_energy), dies[0]);
        assert_eq!(is_poisoned(&params, &root, organic, soil_energy), dies[1]);
        assert_eq!(is_poisoned(&params, &antenna, organic, soil_energy), dies[2]);
        assert!(!is_poisoned(&params, &Occupant::Empty, organic, soil_energy));
    }
}
