//! Building and planting worlds.
use simulife::digest::hash_chunks;
use simulife::grid::Grid;
use simulife::protocol::{
    Cell, Chunk, ChunkCoord, Direction, Occupant, WorldGenParams, CHUNK_AREA, CHUNK_EDGE,
    DEFAULT_MUTATION_RATE, MUTATION_RATE_MAX, MUTATION_RATE_MIN,
};
use simulife::rng::SimRng;
use simulife::world::{
    box_edges, build_world, cell_at, enough_ids, is_plantable, place_at, place_random_sprout_grid,
    RateSpread,
};

const BOXES_X: u32 = 3;
const BOXES_Y: u32 = 2;
const TOXIC_BORDER_THICKNESS: u32 = 2;
const TOXIC_BORDER_ORGANIC: u16 = 1000;
const DEFAULT_ORGANIC: u16 = 40;
const SUNLIT_MARGIN_FRAC: f32 = 0.10;

fn with_margins(params: WorldGenParams, frac: f32) -> WorldGenParams {
    let (box_w, box_h) = box_edges(&params);
    WorldGenParams {
        sunlit_margin_x: (box_w as f32 * frac) as u32,
        sunlit_margin_y: (box_h as f32 * frac) as u32,
        ..params
    }
}

fn params(chunks_x: u32, chunks_y: u32) -> WorldGenParams {
    with_margins(
        WorldGenParams {
            chunks_x,
            chunks_y,
            boxes_x: BOXES_X,
            boxes_y: BOXES_Y,
            sunlit_margin_x: 0,
            sunlit_margin_y: 0,
            sprout_grid_spacing: 6,
            toxic_border_thickness: TOXIC_BORDER_THICKNESS,
            toxic_border_organic: TOXIC_BORDER_ORGANIC,
            default_organic: DEFAULT_ORGANIC,
            default_soil_energy: 100,
        },
        SUNLIT_MARGIN_FRAC,
    )
}

/// The rates of a log-uniform spread over so many octaves to either side of the
/// default: the `n`-th threshold is the least draw that yields a rate above the
/// lowest by more than `n`.
fn octaves(octaves: f32) -> RateSpread {
    let mut steps: Vec<u32> = Vec::new();
    for rate in MUTATION_RATE_MIN + 1..=MUTATION_RATE_MAX {
        let oct = ((rate as f32 - 0.5) / DEFAULT_MUTATION_RATE as f32).log2();
        let k = (oct + octaves) / (2.0 * octaves) * 8_388_608.0;
        if k < 8_388_608.0 {
            steps.push(if k <= 0.0 { 0 } else { k.ceil() as u32 });
        }
    }
    RateSpread { steps: Some(steps) }
}

fn cell_at_test(chunks: &[Chunk], chunks_x: u32, x: i32, y: i32) -> &Cell {
    let edge = CHUNK_EDGE as i32;
    let chunk_idx = (y / edge) as usize * chunks_x as usize + (x / edge) as usize;
    let cell_idx = (y % edge) as usize * (CHUNK_EDGE as usize) + (x % edge) as usize;
    &chunks[chunk_idx].cells[cell_idx]
}

#[test]
fn build_world_lays_out_chunks_in_row_major_order() {
    let chunks = build_world(&params(3, 2));
    assert_eq!(chunks.len(), 6);
    // Row-major: idx = cy * chunks_x + cx.
    assert_eq!(chunks[0].coord, ChunkCoord { x: 0, y: 0 });
    assert_eq!(chunks[1].coord, ChunkCoord { x: 1, y: 0 });
    assert_eq!(chunks[2].coord, ChunkCoord { x: 2, y: 0 });
    assert_eq!(chunks[3].coord, ChunkCoord { x: 0, y: 1 });
    assert_eq!(chunks[5].coord, ChunkCoord { x: 2, y: 1 });
    for chunk in &chunks {
        assert_eq!(chunk.cells.len(), CHUNK_AREA);
    }
}

#[test]
fn build_world_initializes_per_cell_fields() {
    // 6x4 chunk world = 192×128. With BOXES_X=3, BOXES_Y=2, each box
    // is 64×64. We want a cell well inside box (0,0)'s interior.
    let chunks = build_world(&params(6, 4));
    for chunk in &chunks {
        for cell in &chunk.cells {
            assert_eq!(cell.soil_energy, 100);
            assert!(matches!(cell.occupant, Occupant::Empty));
        }
    }
    // Box (0,0) corner → in toxic border.
    assert_eq!(cell_at_test(&chunks, 6, 0, 0).organic, TOXIC_BORDER_ORGANIC);
    // Center of box (0,0) at (32, 32) → default soil organic.
    assert_eq!(cell_at_test(&chunks, 6, 32, 32).organic, DEFAULT_ORGANIC);
}

#[test]
fn build_world_toxic_border_rings_each_box() {
    // 6x4 chunks = 192×128. With BOXES_X=3, BOXES_Y=2 → each box 64×64.
    let chunks = build_world(&params(6, 4));
    let box_w = 6 * CHUNK_EDGE as i32 / BOXES_X as i32;
    let box_h = 4 * CHUNK_EDGE as i32 / BOXES_Y as i32;
    let t = TOXIC_BORDER_THICKNESS as i32;
    // Box (0,0): all four sides have a toxic border.
    assert_eq!(
        cell_at_test(&chunks, 6, 0, box_h / 2).organic,
        TOXIC_BORDER_ORGANIC,
        "box (0,0) left edge"
    );
    assert_eq!(
        cell_at_test(&chunks, 6, box_w - 1, box_h / 2).organic,
        TOXIC_BORDER_ORGANIC,
        "box (0,0) right edge (interior wall)"
    );
    assert_eq!(
        cell_at_test(&chunks, 6, box_w / 2, 0).organic,
        TOXIC_BORDER_ORGANIC,
        "box (0,0) top edge"
    );
    assert_eq!(
        cell_at_test(&chunks, 6, box_w / 2, box_h - 1).organic,
        TOXIC_BORDER_ORGANIC,
        "box (0,0) bottom edge (interior wall)"
    );
    // Just inside box (0,0)'s left border.
    assert_eq!(
        cell_at_test(&chunks, 6, t, box_h / 2).organic,
        DEFAULT_ORGANIC
    );
    // Last toxic cell on box (0,0)'s left border.
    assert_eq!(
        cell_at_test(&chunks, 6, t - 1, box_h / 2).organic,
        TOXIC_BORDER_ORGANIC
    );
    // Box (2,1) (bottom-right) has its own border — local (0,0) of
    // that box is at world (2*box_w, box_h).
    assert_eq!(
        cell_at_test(&chunks, 6, 2 * box_w, box_h).organic,
        TOXIC_BORDER_ORGANIC
    );
    // Center of box (2,1).
    assert_eq!(
        cell_at_test(&chunks, 6, 2 * box_w + box_w / 2, box_h + box_h / 2).organic,
        DEFAULT_ORGANIC
    );
}

#[test]
fn build_world_sunlit_is_central_rectangle_per_box() {
    // 6x4 chunks = 192×128. Each box 64×64.
    let chunks = build_world(&params(6, 4));
    let box_w = 6 * CHUNK_EDGE as i32 / BOXES_X as i32;
    let box_h = 4 * CHUNK_EDGE as i32 / BOXES_Y as i32;
    let margin_x = (box_w as f32 * SUNLIT_MARGIN_FRAC) as i32;
    // Inside box (0,0)'s lit center.
    assert!(cell_at_test(&chunks, 6, box_w / 2, box_h / 2).sunlit);
    // Just inside the per-box margin.
    assert!(cell_at_test(&chunks, 6, margin_x, box_h / 2).sunlit);
    // Just outside the per-box margin → dark.
    assert!(!cell_at_test(&chunks, 6, margin_x - 1, box_h / 2).sunlit);
    // Box (0,0) corner → dark.
    assert!(!cell_at_test(&chunks, 6, 0, 0).sunlit);
    // The cell at the boundary between box (0,0) and box (1,0) is in
    // box (0,0)'s right border → dark.
    assert!(!cell_at_test(&chunks, 6, box_w - 1, box_h / 2).sunlit);
    // Box (2,1) (bottom-right) also has its own lit center.
    assert!(cell_at_test(&chunks, 6, 2 * box_w + box_w / 2, box_h + box_h / 2).sunlit);
}

#[test]
fn place_random_sprout_grid_places_sprouts_only_in_lit_region() {
    let mut chunks = build_world(&params(6, 4));
    let mut rng = SimRng::seed_from_u64(123);
    let count = place_random_sprout_grid(&mut chunks, &params(6, 4), &octaves(3.0), &mut rng);
    assert!(count > 0, "expected at least one sprout in the lit region");
    // Every placed sprout sits on a sunlit cell.
    for chunk in &chunks {
        for cell in &chunk.cells {
            if matches!(cell.occupant, Occupant::Sprout { .. }) {
                assert!(cell.sunlit, "sprout placed on dark cell");
            }
        }
    }
}

#[test]
fn place_at_silently_ignores_negative_and_oob() {
    let mut chunks = build_world(&params(1, 1));
    // Negative — must not panic.
    place_at(&mut chunks, 1, -1, 5, Occupant::Empty);
    place_at(&mut chunks, 1, 5, -1, Occupant::Empty);
    // Beyond chunks — must not panic.
    let beyond = (CHUNK_EDGE as i32) * 2;
    place_at(
        &mut chunks,
        1,
        beyond,
        0,
        Occupant::Leaf {
            plant: 1,
            clan: 0,
            energy: 0,
            facing: Direction::North,
            parent: None,
        },
    );
    // No cells modified.
    for chunk in &chunks {
        for cell in &chunk.cells {
            assert!(matches!(cell.occupant, Occupant::Empty));
        }
    }
}

#[test]
fn place_at_writes_into_correct_chunk_and_cell() {
    // 2x1 chunk world. Place at world (CHUNK_EDGE, 0) → chunk (1, 0),
    // local cell (0, 0).
    let mut chunks = build_world(&params(2, 1));
    let edge = CHUNK_EDGE as i32;
    place_at(
        &mut chunks,
        2,
        edge,
        0,
        Occupant::Leaf {
            plant: 7,
            clan: 0,
            energy: 0,
            facing: Direction::East,
            parent: None,
        },
    );
    let target = &chunks[1].cells[0];
    match &target.occupant {
        Occupant::Leaf { plant, .. } => assert_eq!(*plant, 7),
        other => panic!("expected leaf, got {other:?}"),
    }
    // Other chunks untouched.
    for cell in &chunks[0].cells {
        assert!(matches!(cell.occupant, Occupant::Empty));
    }
}

#[test]
fn determinism_same_seed_produces_identical_worlds() {
    let params = with_margins(
        WorldGenParams {
            chunks_x: 4,
            chunks_y: 3,
            boxes_x: 2,
            boxes_y: 2,
            sunlit_margin_x: 0,
            sunlit_margin_y: 0,
            sprout_grid_spacing: 4,
            toxic_border_thickness: 1,
            toxic_border_organic: 1000,
            default_organic: 0,
            default_soil_energy: 10,
        },
        0.10,
    );
    let grid = Grid { chunks_x: 4, chunks_y: 3, wrap: false };
    let spread = octaves(2.0);

    // Build twice with same seed
    let mut chunks1 = build_world(&params);
    let mut rng1 = SimRng::seed_from_u64(42);
    let count1 = place_random_sprout_grid(&mut chunks1, &params, &spread, &mut rng1);
    let hash1 = hash_chunks(&chunks1, grid);

    let mut chunks2 = build_world(&params);
    let mut rng2 = SimRng::seed_from_u64(42);
    let count2 = place_random_sprout_grid(&mut chunks2, &params, &spread, &mut rng2);
    let hash2 = hash_chunks(&chunks2, grid);

    // Build with different seed
    let mut chunks3 = build_world(&params);
    let mut rng3 = SimRng::seed_from_u64(99);
    let _count3 = place_random_sprout_grid(&mut chunks3, &params, &spread, &mut rng3);
    let hash3 = hash_chunks(&chunks3, grid);

    // Same seed → identical results
    assert_eq!(
        count1, count2,
        "sprout count should be identical for same seed"
    );
    assert_eq!(hash1, hash2, "world hash should be identical for same seed");

    // Different seed → different results (with high probability)
    assert_ne!(hash1, hash3, "world hash should differ for different seed");
}

#[test]
fn determinism_multiple_runs_produce_same_state() {
    let params = WorldGenParams::default();
    let grid = Grid { chunks_x: params.chunks_x, chunks_y: params.chunks_y, wrap: false };
    let seed = 123456;

    // Run world generation 5 times with the same seed
    let mut hashes = Vec::new();
    for _ in 0..5 {
        let mut chunks = build_world(&params);
        let mut rng = SimRng::seed_from_u64(seed);
        place_random_sprout_grid(&mut chunks, &params, &octaves(3.0), &mut rng);
        hashes.push(hash_chunks(&chunks, grid));
    }

    // All runs should produce identical state
    for (i, hash) in hashes.iter().enumerate().skip(1) {
        assert_eq!(
            *hash, hashes[0],
            "run {} produced different world state than run 0",
            i
        );
    }
}

#[test]
fn planting_numbers_plants_from_one_and_stamps_their_rates() {
    let p = params(6, 4);
    let mut chunks = build_world(&p);
    let mut rng = SimRng::seed_from_u64(5);
    let spread = RateSpread { steps: None };
    let count = place_random_sprout_grid(&mut chunks, &p, &spread, &mut rng);
    let mut ids = Vec::new();
    for chunk in &chunks {
        for cell in &chunk.cells {
            if let Occupant::Sprout { plant, energy, genome, parent, current_gene, .. } = &cell.occupant {
                ids.push(*plant);
                assert_eq!(*energy, 100);
                assert_eq!(*parent, None);
                assert_eq!(*current_gene, 0);
                assert_eq!(genome.mutation_rate, DEFAULT_MUTATION_RATE);
                assert_eq!(cell.lineage_mutation_rate, DEFAULT_MUTATION_RATE);
            }
        }
    }
    ids.sort();
    let expected: Vec<u32> = (1..=count).collect();
    assert_eq!(ids, expected);
}

#[test]
fn planting_marks_clans_by_box() {
    let p = params(6, 4);
    let mut chunks = build_world(&p);
    let mut rng = SimRng::seed_from_u64(5);
    place_random_sprout_grid(&mut chunks, &p, &octaves(3.0), &mut rng);
    for y in 0..128 {
        for x in 0..192 {
            let cell = cell_at(&chunks, 6, x, y).expect("inside");
            if let Occupant::Sprout { clan, .. } = &cell.occupant {
                assert_eq!(i32::from(*clan), (y / 64) * 3 + x / 64);
            }
        }
    }
}

#[test]
fn a_wide_spread_reaches_many_rates_inside_the_band() {
    let p = params(6, 4);
    let mut chunks = build_world(&p);
    let mut rng = SimRng::seed_from_u64(7);
    place_random_sprout_grid(&mut chunks, &p, &octaves(3.0), &mut rng);
    let mut rates = Vec::new();
    for chunk in &chunks {
        for cell in &chunk.cells {
            if let Occupant::Sprout { genome, .. } = &cell.occupant {
                assert!(genome.mutation_rate >= MUTATION_RATE_MIN);
                assert!(genome.mutation_rate <= MUTATION_RATE_MAX);
                rates.push(genome.mutation_rate);
            }
        }
    }
    rates.sort();
    rates.dedup();
    assert!(rates.len() > 10);
}

#[test]
fn worlds_that_do_not_fit_their_types_are_not_plantable() {
    assert!(is_plantable(&params(6, 4)));
    assert!(is_plantable(&params(0, 0)));
    assert!(!is_plantable(&params(0x0400_0000, 1)));
    assert!(!is_plantable(&params(0x1_0000, 0x1_0000)));
    assert!(!is_plantable(&WorldGenParams { sprout_grid_spacing: u32::MAX, ..params(1, 1) }));
}

#[test]
fn every_planting_point_in_the_sun_gets_a_sprout() {
    let mut chunks = build_world(&params(6, 4));
    assert!(enough_ids(&chunks, &params(6, 4)));
    let mut lit = 0;
    for y in (6..122).step_by(6) {
        for x in (6..186).step_by(6) {
            if cell_at_test(&chunks, 6, x, y).sunlit {
                lit += 1;
            }
        }
    }
    for seed in [1, 2] {
        let mut rng = SimRng::seed_from_u64(seed);
        let count = place_random_sprout_grid(&mut chunks, &params(6, 4), &octaves(3.0), &mut rng);
        assert_eq!(count, lit);
    }
}
