//! The types that the server and the viewer share.
use simulife::protocol::{
    wire_chunks, Cell, Chunk, ChunkCoord, Direction, Gene, Genome, Occupant, SimParams,
    SlotProduct, WireCell, WireChunk, WireOccupant, WorldGenParams, CHUNK_AREA, GENOME_LEN,
};

#[test]
fn default_vine_genome_has_active_first_gene_and_dormant_rest() {
    let g = Genome::default_vine();
    assert_eq!(g.genes.len(), GENOME_LEN);

    // Gene 0: active vine — front sprout, two leaf side branches.
    assert_eq!(g.genes[0].front, SlotProduct::Sprout);
    assert_eq!(g.genes[0].left, SlotProduct::Leaf);
    assert_eq!(g.genes[0].right, SlotProduct::Leaf);
    assert_eq!(g.genes[0].next, 0);

    // The rest are dormant.
    for gene in &g.genes[1..] {
        assert_eq!(gene.front, SlotProduct::Nothing);
        assert_eq!(gene.left, SlotProduct::Nothing);
        assert_eq!(gene.right, SlotProduct::Nothing);
    }
}

#[test]
fn gene_default_is_all_nothing() {
    let gene = Gene::default();
    assert_eq!(gene.front, SlotProduct::Nothing);
    assert_eq!(gene.left, SlotProduct::Nothing);
    assert_eq!(gene.right, SlotProduct::Nothing);
    assert_eq!(gene.next, 0);
}

fn sprout_cell(genome: Genome) -> Cell {
    Cell {
        organic: 12,
        soil_energy: 7,
        sunlit: true,
        lineage_mutation_rate: 500,
        occupant: Occupant::Sprout {
            plant: 3,
            clan: 1,
            energy: 100,
            facing: Direction::East,
            genome: Box::new(genome),
            parent: Some(Direction::West),
            current_gene: 4,
        },
    }
}

#[test]
fn viewers_see_everything_but_the_genome() {
    let mut other = Genome::default_vine();
    other.mutation_rate = 1999;
    other.genes[0].front = SlotProduct::Root;
    let a = WireCell::from(&sprout_cell(Genome::default_vine()));
    let b = WireCell::from(&sprout_cell(other));
    for wire in [a, b] {
        assert_eq!(wire.organic, 12);
        assert_eq!(wire.soil_energy, 7);
        assert!(wire.sunlit);
        assert_eq!(wire.lineage_mutation_rate, 500);
        match wire.occupant {
            WireOccupant::Sprout { plant, clan, energy, facing, parent, current_gene } => {
                assert_eq!((plant, clan, energy, current_gene), (3, 1, 100, 4));
                assert_eq!(facing, Direction::East);
                assert_eq!(parent, Some(Direction::West));
            }
            other => panic!("expected sprout, got {other:?}"),
        }
    }
}

#[test]
fn wire_chunks_keep_coordinates_and_order() {
    let mut cells: Vec<Cell> = Vec::new();
    for k in 0..CHUNK_AREA {
        cells.push(Cell {
            organic: k as u16,
            soil_energy: 0,
            sunlit: false,
            lineage_mutation_rate: 0,
            occupant: Occupant::Empty,
        });
    }
    let chunks = vec![Chunk { coord: ChunkCoord { x: -3, y: 7 }, cells }];
    let wire: Vec<WireChunk> = wire_chunks(&chunks);
    assert_eq!(wire.len(), 1);
    assert_eq!(wire[0].coord, ChunkCoord { x: -3, y: 7 });
    assert_eq!(wire[0].cells.len(), CHUNK_AREA);
    assert_eq!(wire[0].cells[1023].organic, 1023);
    assert!(matches!(wire[0].cells[0].occupant, WireOccupant::Empty));
}

#[test]
fn defaults_are_those_of_the_live_server() {
    let p = SimParams::default();
    assert_eq!(p.leaf_photosynthesis, 10);
    assert_eq!((p.upkeep_default, p.upkeep_seed, p.upkeep_sprout), (2, 1, 5));
    assert_eq!((p.cost_sprout, p.cost_leaf, p.cost_seed), (60, 30, 90));
    assert_eq!(p.death_deposit_kernel, [[1, 2, 1], [2, 4, 2], [1, 2, 1]]);
    assert!(p.world_wrap);
    let g = WorldGenParams::default();
    assert_eq!((g.chunks_x, g.chunks_y, g.boxes_x, g.boxes_y), (36, 24, 3, 2));
}
