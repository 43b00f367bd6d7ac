//! How the viewer finds, draws and describes cells.
use simulife::protocol::{
    ChunkCoord, Direction, WireCell, WireChunk, WireOccupant, CHUNK_AREA, CHUNK_EDGE,
    STEM_CONNECT_EAST, STEM_CONNECT_NORTH, STEM_CONNECT_SOUTH, STEM_CONNECT_WEST,
};
use simulife::viewer::details::{cell_details, rate_text, soil_details};
use simulife::viewer::gpu::{
    effective_stem_connections, facing_to_u32, find_cell, gpu_cells, neighbor_present, to_gpu_cell,
    ChunkLookup, GPU_KIND_EMPTY, GPU_KIND_LEAF, GPU_KIND_STEM,
};
use simulife::viewer::labels::{connections_label, occupant_kind_label, parent_label};

fn empty_chunk(cx: i32, cy: i32) -> WireChunk {
    let cells = (0..CHUNK_AREA)
        .map(|_| WireCell {
            organic: 0,
            soil_energy: 0,
            sunlit: false,
            lineage_mutation_rate: 0,
            occupant: WireOccupant::Empty,
        })
        .collect();
    WireChunk {
        coord: ChunkCoord { x: cx, y: cy },
        cells,
    }
}

fn leaf() -> WireOccupant {
    WireOccupant::Leaf {
        plant: 1,
        clan: 0,
        energy: 0,
        facing: Direction::North,
        parent: None,
    }
}

#[test]
fn facing_to_u32_enumerates_directions() {
    assert_eq!(facing_to_u32(Direction::North), 0);
    assert_eq!(facing_to_u32(Direction::East), 1);
    assert_eq!(facing_to_u32(Direction::South), 2);
    assert_eq!(facing_to_u32(Direction::West), 3);
}

#[test]
fn parent_label_handles_none_and_each_direction() {
    assert_eq!(parent_label(None), "—");
    assert_eq!(parent_label(Some(Direction::North)), "North");
    assert_eq!(parent_label(Some(Direction::West)), "West");
}

#[test]
fn connections_label_lists_only_set_bits() {
    assert_eq!(connections_label(0), "—");
    assert_eq!(connections_label(STEM_CONNECT_NORTH), "N");
    assert_eq!(
        connections_label(STEM_CONNECT_NORTH | STEM_CONNECT_SOUTH),
        "N|S"
    );
    assert_eq!(
        connections_label(
            STEM_CONNECT_NORTH | STEM_CONNECT_EAST | STEM_CONNECT_SOUTH | STEM_CONNECT_WEST
        ),
        "N|E|S|W"
    );
}

#[test]
fn occupant_kind_label_per_variant() {
    assert_eq!(occupant_kind_label(&WireOccupant::Empty), "empty");
    assert_eq!(
        occupant_kind_label(&WireOccupant::Leaf {
            plant: 1,
            clan: 0,
            energy: 50,
            facing: Direction::North,
            parent: Some(Direction::South),
        }),
        "leaf"
    );
    assert_eq!(
        occupant_kind_label(&WireOccupant::Stem {
            plant: 1,
            clan: 0,
            energy: 0,
            connections: STEM_CONNECT_NORTH,
            parent: None,
            children: STEM_CONNECT_SOUTH,
        }),
        "stem"
    );
    assert_eq!(
        occupant_kind_label(&WireOccupant::Sprout {
            plant: 1,
            clan: 0,
            energy: 0,
            facing: Direction::North,
            parent: None,
            current_gene: 7,
        }),
        "sprout"
    );
}

#[test]
fn find_cell_returns_cell_at_world_coord() {
    let mut chunks = vec![empty_chunk(0, 0), empty_chunk(1, 0)];
    // Mark a cell in chunk (1, 0) so we can identify it.
    chunks[1].cells[0].organic = 99;

    // World (CHUNK_EDGE, 0) → chunk (1, 0), local (0, 0).
    let edge = CHUNK_EDGE as i32;
    let (coord, cell) = find_cell(&chunks, edge, 0).expect("hit");
    assert_eq!(coord, ChunkCoord { x: 1, y: 0 });
    assert_eq!(cell.organic, 99);

    // OOB returns None.
    assert!(find_cell(&chunks, -1, 0).is_none());
    assert!(find_cell(&chunks, edge * 5, 0).is_none());
}

#[test]
fn neighbor_present_distinguishes_empty_from_occupied() {
    let mut chunks = vec![empty_chunk(0, 0)];
    chunks[0].cells[1].occupant = leaf();
    let lookup = ChunkLookup::of(&chunks);

    // (1, 0) holds the leaf.
    assert!(neighbor_present(&chunks, &lookup, 1, 0));
    // (0, 0) is empty.
    assert!(!neighbor_present(&chunks, &lookup, 0, 0));
    // Outside any known chunk → false.
    assert!(!neighbor_present(&chunks, &lookup, -1, -1));
}

#[test]
fn effective_stem_connections_masks_out_empty_neighbors() {
    let mut chunks = vec![empty_chunk(0, 0)];
    // Place a leaf to the North of (5, 5) — i.e. at (5, 4).
    chunks[0].cells[4 * (CHUNK_EDGE as usize) + 5].occupant = leaf();
    let lookup = ChunkLookup::of(&chunks);

    let raw = STEM_CONNECT_NORTH | STEM_CONNECT_EAST;
    let eff = effective_stem_connections(raw, &chunks, &lookup, 5, 5);
    // North neighbor exists → bit kept. East neighbor empty → bit dropped.
    assert_eq!(eff, STEM_CONNECT_NORTH as u32);
}

#[test]
fn links_reach_across_chunks_with_negative_coordinates() {
    let mut chunks = vec![empty_chunk(-1, -1), empty_chunk(0, -1)];
    // World (0, -1) is the bottom left cell of chunk (0, -1).
    chunks[1].cells[31 * 32].occupant = leaf();
    let lookup = ChunkLookup::of(&chunks);
    assert!(neighbor_present(&chunks, &lookup, 0, -1));
    let all = STEM_CONNECT_NORTH | STEM_CONNECT_EAST | STEM_CONNECT_SOUTH | STEM_CONNECT_WEST;
    assert_eq!(
        effective_stem_connections(all, &chunks, &lookup, -1, -1),
        STEM_CONNECT_EAST as u32
    );
    let (coord, _) = find_cell(&chunks, -1, -1).expect("hit");
    assert_eq!(coord, ChunkCoord { x: -1, y: -1 });
}

#[test]
fn gpu_cells_carry_the_fields_of_their_occupants() {
    let cell = WireCell {
        organic: 7,
        soil_energy: 9,
        sunlit: true,
        lineage_mutation_rate: 500,
        occupant: WireOccupant::Leaf {
            plant: 3,
            clan: 2,
            energy: 40,
            facing: Direction::South,
            parent: None,
        },
    };
    let gpu = to_gpu_cell(&cell);
    assert_eq!(gpu.organic, 7);
    assert_eq!(gpu.soil_energy, 9);
    assert_eq!(gpu.sunlit, 1);
    assert_eq!(gpu.kind, GPU_KIND_LEAF);
    assert_eq!(gpu.plant, 3);
    assert_eq!(gpu.clan, 2);
    assert_eq!(gpu.energy, 40);
    assert_eq!(gpu.facing, 2);
    assert_eq!(gpu.connections, 0);
    assert_eq!(gpu.mutation_rate, 500);
}

#[test]
fn gpu_cells_of_all_chunks_follow_one_another() {
    let mut chunks = vec![empty_chunk(0, 0), empty_chunk(1, 0)];
    // A stem at the right edge of the first chunk, linked to a leaf in the second
    // and to an empty cell above.
    chunks[0].cells[5 * 32 + 31].occupant = WireOccupant::Stem {
        plant: 1,
        clan: 0,
        energy: 0,
        connections: STEM_CONNECT_NORTH | STEM_CONNECT_EAST,
        parent: None,
        children: 0,
    };
    chunks[1].cells[5 * 32].occupant = leaf();
    let cells = gpu_cells(&chunks);
    assert_eq!(cells.len(), 2 * CHUNK_AREA);
    assert_eq!(cells[5 * 32 + 31].kind, GPU_KIND_STEM);
    assert_eq!(cells[5 * 32 + 31].connections, STEM_CONNECT_EAST as u32);
    assert_eq!(cells[CHUNK_AREA + 5 * 32].kind, GPU_KIND_LEAF);
    assert_eq!(cells[0].kind, GPU_KIND_EMPTY);
}

#[test]
fn details_describe_a_stem() {
    let cell = WireCell {
        organic: 12,
        soil_energy: 100,
        sunlit: true,
        lineage_mutation_rate: 513,
        occupant: WireOccupant::Stem {
            plant: 1234567,
            clan: 5,
            energy: 65535,
            connections: STEM_CONNECT_NORTH | STEM_CONNECT_WEST,
            parent: Some(Direction::South),
            children: 0,
        },
    };
    assert_eq!(
        soil_details(&cell),
        ["organic: 12", "soil_energy: 100", "sunlit: true"]
    );
    assert_eq!(
        cell_details(&cell),
        [
            "occupant: stem",
            "  plant: 1234567",
            "  clan: 5",
            "  energy: 65535",
            "  parent: South",
            "  children: —",
            "  connections: N|W",
            "  mutation rate: 0.05130",
        ]
    );
}

#[test]
fn details_describe_sprouts_and_empty_cells() {
    let mut cell = WireCell {
        organic: 0,
        soil_energy: 0,
        sunlit: false,
        lineage_mutation_rate: 2000,
        occupant: WireOccupant::Sprout {
            plant: 1,
            clan: 0,
            energy: 10,
            facing: Direction::East,
            parent: None,
            current_gene: 7,
        },
    };
    assert_eq!(
        cell_details(&cell),
        [
            "occupant: sprout",
            "  plant: 1",
            "  clan: 0",
            "  energy: 10",
            "  facing: East",
            "  parent: —",
            "  current_gene: 7",
            "  mutation rate: 0.20000",
        ]
    );
    cell.occupant = WireOccupant::Empty;
    assert_eq!(cell_details(&cell), ["occupant: empty"]);
    assert_eq!(soil_details(&cell)[2], "sunlit: false");
    assert_eq!(rate_text(12345), "1.23450");
}
