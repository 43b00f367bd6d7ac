//! The data that the simulation, its server and its viewers share.
//!
//! Every executable type that owns heap data has a view: a plain mathematical
//! value in which a genome is a sequence of genes. All contracts of the crate
//! are stated over these views.
use vstd::prelude::*;

verus! {

/// Cells per chunk edge.
pub const CHUNK_EDGE: u16 = 32;

/// Cells per chunk.
pub const CHUNK_AREA: usize = 1024;

pub type PlantId = u32;

pub type Energy = u16;

/// Inherited lineage identifier: the box in which the first ancestor started.
pub type ClanId = u8;

/// A 3x3 weight table; row 0 is the row above the centre.
pub type Kernel = [[u16; 3]; 3];

/// The bit of north in a stem's masks.
pub const STEM_CONNECT_NORTH: u8 = 1;

pub const STEM_CONNECT_EAST: u8 = 2;

pub const STEM_CONNECT_SOUTH: u8 = 4;

pub const STEM_CONNECT_WEST: u8 = 8;

/// Genes in a fresh genome.
pub const GENOME_LEN: usize = 32;

/// Fewest genes a copied genome may have.
pub const GENOME_MIN: usize = 1;

/// Most genes that insertions may bring a copied genome to.
pub const GENOME_MAX: usize = 128;

/// Mutation rates are fixed-point numbers: a stored rate `r` stands for the
/// probability `r / RATE_SCALE`.
pub const RATE_SCALE: u32 = 10000;

/// The rate of the starter genome.
pub const DEFAULT_MUTATION_RATE: u32 = 500;

/// The highest rate that a copy may have.
pub const MUTATION_RATE_MAX: u32 = 2000;

/// The lowest rate that a copy may have, so that no lineage stops changing for good.
pub const MUTATION_RATE_MIN: u32 = 100;

/// Column and row of a chunk.
#[derive(Clone, Copy, Debug, PartialEq, Eq, Hash, Structural)]
pub struct ChunkCoord {
    pub x: i32,
    pub y: i32,
}

/// The four directions; north is up.
#[derive(Clone, Copy, Debug, PartialEq, Eq, Hash, Structural)]
pub enum Direction {
    North,
    East,
    South,
    West,
}

/// What a gene puts into one of its three slots.
#[derive(Clone, Copy, Debug, PartialEq, Eq, Hash, Structural)]
pub enum SlotProduct {
    Nothing,
    Leaf,
    Root,
    Antenna,
    Seed,
    Sprout,
}

/// One step of a plant's program.
#[derive(Clone, Copy, Debug, PartialEq, Eq, Hash, Structural)]
pub struct Gene {
    pub front: SlotProduct,
    pub left: SlotProduct,
    pub right: SlotProduct,
    /// Next-gene index, read modulo the length of the genome.
    pub next: u8,
}

/// The dormant gene: it grows nothing and points at gene 0.
pub open spec fn default_gene() -> Gene {
    Gene {
        front: SlotProduct::Nothing,
        left: SlotProduct::Nothing,
        right: SlotProduct::Nothing,
        next: 0,
    }
}

impl Default for Gene {
    fn default() -> (gene: Self)
        ensures
            gene == default_gene(),
    {
        Gene {
            front: SlotProduct::Nothing,
            left: SlotProduct::Nothing,
            right: SlotProduct::Nothing,
            next: 0,
        }
    }
}

/// A program of genes with the rate at which its copies mutate.
#[derive(Debug)]
pub struct Genome {
    pub genes: Vec<Gene>,
    pub mutation_rate: u32,
}

/// A genome as a mathematical value.
#[verifier::ext_equal]
pub struct GenomeView {
    pub genes: Seq<Gene>,
    pub mutation_rate: u32,
}

impl View for Genome {
    type V = GenomeView;

    open spec fn view(&self) -> GenomeView {
        GenomeView { genes: self.genes@, mutation_rate: self.mutation_rate }
    }
}

impl Clone for Genome {
    fn clone(&self) -> (copy: Self)
        ensures
            copy@ == self@,
    {
        let genes = self.genes.clone();
        assert(genes@ =~= self.genes@);
        Genome { genes, mutation_rate: self.mutation_rate }
    }
}

/// The gene that starts a vine: a sprout ahead and a leaf on either side.
pub open spec fn vine_gene() -> Gene {
    Gene {
        front: SlotProduct::Sprout,
        left: SlotProduct::Leaf,
        right: SlotProduct::Leaf,
        next: 0,
    }
}

/// The starter genome: one vine gene, then dormant genes.
pub open spec fn default_vine_view() -> GenomeView {
    GenomeView {
        genes: Seq::new(
            GENOME_LEN as nat,
            |i: int|
                if i == 0 {
                    vine_gene()
                } else {
                    default_gene()
                },
        ),
        mutation_rate: DEFAULT_MUTATION_RATE,
    }
}

impl Genome {
    /// The starter genome that fresh sprouts carry.
    pub fn default_vine() -> (genome: Self)
        ensures
            genome@ == default_vine_view(),
    {
        let mut genes: Vec<Gene> = Vec::with_capacity(GENOME_LEN);
        genes.push(
            Gene {
                front: SlotProduct::Sprout,
                left: SlotProduct::Leaf,
                right: SlotProduct::Leaf,
                next: 0,
            },
        );
        while genes.len() < GENOME_LEN
            invariant
                1 <= genes.len() <= GENOME_LEN,
                forall|i: int|
                    0 <= i < genes.len() ==> genes@[i] == default_vine_view().genes[i],
            decreases GENOME_LEN - genes.len(),
        {
            genes.push(Gene::default());
        }
        assert(genes@ =~= default_vine_view().genes);
        Genome { genes, mutation_rate: DEFAULT_MUTATION_RATE }
    }
}

/// What stands in a cell.
#[derive(Debug)]
pub enum Occupant {
    Empty,
    Leaf {
        plant: PlantId,
        clan: ClanId,
        energy: Energy,
        facing: Direction,
        parent: Option<Direction>,
    },
    Root { plant: PlantId, clan: ClanId, energy: Energy, parent: Option<Direction> },
    Stem {
        plant: PlantId,
        clan: ClanId,
        energy: Energy,
        connections: u8,
        parent: Option<Direction>,
        children: u8,
    },
    Antenna { plant: PlantId, clan: ClanId, energy: Energy, parent: Option<Direction> },
    Sprout {
        plant: PlantId,
        clan: ClanId,
        energy: Energy,
        facing: Direction,
        genome: Box<Genome>,
        parent: Option<Direction>,
        current_gene: u8,
    },
    Seed {
        plant: PlantId,
        clan: ClanId,
        energy: Energy,
        facing: Direction,
        genome: Box<Genome>,
        parent: Option<Direction>,
    },
}

/// An occupant as a mathematical value.
#[verifier::ext_equal]
pub enum OccupantView {
    Empty,
    Leaf {
        plant: PlantId,
        clan: ClanId,
        energy: Energy,
        facing: Direction,
        parent: Option<Direction>,
    },
    Root { plant: PlantId, clan: ClanId, energy: Energy, parent: Option<Direction> },
    Stem {
        plant: PlantId,
        clan: ClanId,
        energy: Energy,
        connections: u8,
        parent: Option<Direction>,
        children: u8,
    },
    Antenna { plant: PlantId, clan: ClanId, energy: Energy, parent: Option<Direction> },
    Sprout {
        plant: PlantId,
        clan: ClanId,
        energy: Energy,
        facing: Direction,
        genome: GenomeView,
        parent: Option<Direction>,
        current_gene: u8,
    },
    Seed {
        plant: PlantId,
        clan: ClanId,
        energy: Energy,
        facing: Direction,
        genome: GenomeView,
        parent: Option<Direction>,
    },
}

impl View for Occupant {
    type V = OccupantView;

    open spec fn view(&self) -> OccupantView {
        match *self {
            Occupant::Empty => OccupantView::Empty,
            Occupant::Leaf { plant, clan, energy, facing, parent } => OccupantView::Leaf {
                plant,
                clan,
                energy,
                facing,
                parent,
            },
            Occupant::Root { plant, clan, energy, parent } => OccupantView::Root {
                plant,
                clan,
                energy,
                parent,
            },
            Occupant::Stem { plant, clan, energy, connections, parent, children } => OccupantView::Stem {
                plant,
                clan,
                energy,
                connections,
                parent,
                children,
            },
            Occupant::Antenna { plant, clan, energy, parent } => OccupantView::Antenna {
                plant,
                clan,
                energy,
                parent,
            },
            Occupant::Sprout { plant, clan, energy, facing, genome, parent, current_gene } => OccupantView::Sprout {
                plant,
                clan,
                energy,
                facing,
                genome: (*genome)@,
                parent,
                current_gene,
            },
            Occupant::Seed { plant, clan, energy, facing, genome, parent } => OccupantView::Seed {
                plant,
                clan,
                energy,
                facing,
                genome: (*genome)@,
                parent,
            },
        }
    }
}

impl Clone for Occupant {
    fn clone(&self) -> (copy: Self)
        ensures
            copy@ == self@,
    {
        match self {
            Occupant::Empty => Occupant::Empty,
            Occupant::Leaf { plant, clan, energy, facing, parent } => Occupant::Leaf {
                plant: *plant,
                clan: *clan,
                energy: *energy,
                facing: *facing,
                parent: *parent,
            },
            Occupant::Root { plant, clan, energy, parent } => Occupant::Root {
                plant: *plant,
                clan: *clan,
                energy: *energy,
                parent: *parent,
            },
            Occupant::Stem { plant, clan, energy, connections, parent, children } => Occupant::Stem {
                plant: *plant,
                clan: *clan,
                energy: *energy,
                connections: *connections,
                parent: *parent,
                children: *children,
            },
            Occupant::Antenna { plant, clan, energy, parent } => Occupant::Antenna {
                plant: *plant,
                clan: *clan,
                energy: *energy,
                parent: *parent,
            },
            Occupant::Sprout { plant, clan, energy, facing, genome, parent, current_gene } => Occupant::Sprout {
                plant: *plant,
                clan: *clan,
                energy: *energy,
                facing: *facing,
                genome: Box::new((**genome).clone()),
                parent: *parent,
                current_gene: *current_gene,
            },
            Occupant::Seed { plant, clan, energy, facing, genome, parent } => Occupant::Seed {
                plant: *plant,
                clan: *clan,
                energy: *energy,
                facing: *facing,
                genome: Box::new((**genome).clone()),
                parent: *parent,
            },
        }
    }
}

/// One square of the world: its soil, its light and what stands on it.
#[derive(Debug)]
pub struct Cell {
    pub organic: u16,
    pub soil_energy: u16,
    pub sunlit: bool,
    /// Fixed-point mutation rate of the lineage that last grew into this cell.
    /// Meaningful only while the cell is occupied.
    pub lineage_mutation_rate: u32,
    pub occupant: Occupant,
}

/// A cell as a mathematical value.
#[verifier::ext_equal]
pub struct CellView {
    pub organic: u16,
    pub soil_energy: u16,
    pub sunlit: bool,
    pub lineage_mutation_rate: u32,
    pub occupant: OccupantView,
}

impl View for Cell {
    type V = CellView;

    open spec fn view(&self) -> CellView {
        CellView {
            organic: self.organic,
            soil_energy: self.soil_energy,
            sunlit: self.sunlit,
            lineage_mutation_rate: self.lineage_mutation_rate,
            occupant: self.occupant@,
        }
    }
}

impl Clone for Cell {
    fn clone(&self) -> (copy: Self)
        ensures
            copy@ == self@,
    {
        Cell {
            organic: self.organic,
            soil_energy: self.soil_energy,
            sunlit: self.sunlit,
            lineage_mutation_rate: self.lineage_mutation_rate,
            occupant: self.occupant.clone(),
        }
    }
}

/// A square of `CHUNK_EDGE` by `CHUNK_EDGE` cells, row by row.
#[derive(Debug)]
pub struct Chunk {
    pub coord: ChunkCoord,
    pub cells: Vec<Cell>,
}

/// Whether two chunks hold the same cells at the same place.
pub open spec fn same_chunk(a: Chunk, b: Chunk) -> bool {
    &&& a.coord == b.coord
    &&& a.cells.len() == b.cells.len()
    &&& forall|k: int| 0 <= k < a.cells.len() ==> (#[trigger] a.cells@[k])@ == b.cells@[k]@
}

impl Clone for Chunk {
    fn clone(&self) -> (copy: Self)
        ensures
            same_chunk(copy, *self),
    {
        let mut cells: Vec<Cell> = Vec::with_capacity(self.cells.len());
        let mut k: usize = 0;
        while k < self.cells.len()
            invariant
                k <= self.cells.len(),
                cells.len() == k,
                forall|t: int| 0 <= t < k ==> (#[trigger] cells@[t])@ == self.cells@[t]@,
            decreases self.cells.len() - k,
        {
            cells.push(self.cells[k].clone());
            k = k + 1;
        }
        Chunk { coord: self.coord, cells }
    }
}

/// The bell-shaped weights that soil pulls and death deposits scale.
pub const BASE_BELL_KERNEL: Kernel = [[1, 2, 1], [2, 4, 2], [1, 2, 1]];

/// Live-tunable simulation scalars.
#[derive(Clone, Copy, Debug, PartialEq)]
pub struct SimParams {
    pub leaf_photosynthesis: u16,
    pub upkeep_default: u16,
    pub upkeep_seed: u16,
    pub upkeep_sprout: u16,
    pub soil_energy_rest: u16,
    pub soil_energy_regulation: u16,
    pub seed_dropoff_threshold: u16,
    pub soil_organic_poison: u16,
    pub soil_energy_poison: u16,
    pub cost_leaf: u16,
    pub cost_root: u16,
    pub cost_antenna: u16,
    pub cost_sprout: u16,
    pub cost_seed: u16,
    /// Organic that a root wants from the soil around it.
    pub root_pull_kernel: Kernel,
    /// Soil energy that an antenna wants from the soil around it.
    pub antenna_pull_kernel: Kernel,
    /// Organic that a dying cell leaves around it.
    pub death_deposit_kernel: Kernel,
    /// When true, opposite edges of the world are neighbours; when false, edges
    /// are hard walls.
    pub world_wrap: bool,
}

/// The stock scalars.
pub open spec fn default_sim_params() -> SimParams {
    SimParams {
        leaf_photosynthesis: 10,
        upkeep_default: 2,
        upkeep_seed: 1,
        upkeep_sprout: 5,
        soil_energy_rest: 100,
        soil_energy_regulation: 1,
        seed_dropoff_threshold: 180,
        soil_organic_poison: 300,
        soil_energy_poison: 200,
        cost_leaf: 30,
        cost_root: 30,
        cost_antenna: 30,
        cost_sprout: 60,
        cost_seed: 90,
        root_pull_kernel: BASE_BELL_KERNEL,
        antenna_pull_kernel: BASE_BELL_KERNEL,
        death_deposit_kernel: BASE_BELL_KERNEL,
        world_wrap: true,
    }
}

impl Default for SimParams {
    fn default() -> (params: Self)
        ensures
            params == default_sim_params(),
    {
        SimParams {
            leaf_photosynthesis: 10,
            upkeep_default: 2,
            upkeep_seed: 1,
            upkeep_sprout: 5,
            soil_energy_rest: 100,
            soil_energy_regulation: 1,
            seed_dropoff_threshold: 180,
            soil_organic_poison: 300,
            soil_energy_poison: 200,
            cost_leaf: 30,
            cost_root: 30,
            cost_antenna: 30,
            cost_sprout: 60,
            cost_seed: 90,
            root_pull_kernel: BASE_BELL_KERNEL,
            antenna_pull_kernel: BASE_BELL_KERNEL,
            death_deposit_kernel: BASE_BELL_KERNEL,
            world_wrap: true,
        }
    }
}

/// World-generation knobs, applied when a world is built.
#[derive(Clone, Copy, Debug, PartialEq)]
pub struct WorldGenParams {
    /// World size in chunks.
    pub chunks_x: u32,
    pub chunks_y: u32,
    /// Boxes laid out in a `boxes_x` by `boxes_y` grid. Each box has its own toxic
    /// border and sunlit interior, and founds a clan.
    pub boxes_x: u32,
    pub boxes_y: u32,
    /// Inset of the sunlit rectangle from the left and right edge of its box, in
    /// cells.
    pub sunlit_margin_x: u32,
    /// Inset of the sunlit rectangle from the top and bottom edge of its box.
    pub sunlit_margin_y: u32,
    /// Spacing between initial sprouts.
    pub sprout_grid_spacing: u32,
    /// Thickness of the toxic border in cells; 0 means no border.
    pub toxic_border_thickness: u32,
    /// Organic in the cells of toxic borders.
    pub toxic_border_organic: u16,
    /// Organic in all other cells.
    pub default_organic: u16,
    /// Soil energy in every cell.
    pub default_soil_energy: u16,
}

/// The stock world: 3 by 2 boxes of 384 cells, lit up to a tenth of their edge.
pub open spec fn default_world_gen() -> WorldGenParams {
    WorldGenParams {
        chunks_x: 36,
        chunks_y: 24,
        boxes_x: 3,
        boxes_y: 2,
        sunlit_margin_x: 38,
        sunlit_margin_y: 38,
        sprout_grid_spacing: 6,
        toxic_border_thickness: 2,
        toxic_border_organic: 1000,
        default_organic: 0,
        default_soil_energy: 10,
    }
}

impl Default for WorldGenParams {
    fn default() -> (params: Self)
        ensures
            params == default_world_gen(),
    {
        WorldGenParams {
            chunks_x: 36,
            chunks_y: 24,
            boxes_x: 3,
            boxes_y: 2,
            sunlit_margin_x: 38,
            sunlit_margin_y: 38,
            sprout_grid_spacing: 6,
            toxic_border_thickness: 2,
            toxic_border_organic: 1000,
            default_organic: 0,
            default_soil_energy: 10,
        }
    }
}

// ---------------------------------------------------------------------------
// What travels to viewers
// ---------------------------------------------------------------------------
/// An occupant as viewers see it: everything but the genome.
#[derive(Clone, Debug, PartialEq, Eq, Structural)]
pub enum WireOccupant {
    Empty,
    Leaf {
        plant: PlantId,
        clan: ClanId,
        energy: Energy,
        facing: Direction,
        parent: Option<Direction>,
    },
    Root { plant: PlantId, clan: ClanId, energy: Energy, parent: Option<Direction> },
    Stem {
        plant: PlantId,
        clan: ClanId,
        energy: Energy,
        connections: u8,
        parent: Option<Direction>,
        children: u8,
    },
    Antenna { plant: PlantId, clan: ClanId, energy: Energy, parent: Option<Direction> },
    Sprout {
        plant: PlantId,
        clan: ClanId,
        energy: Energy,
        facing: Direction,
        parent: Option<Direction>,
        current_gene: u8,
    },
    Seed {
        plant: PlantId,
        clan: ClanId,
        energy: Energy,
        facing: Direction,
        parent: Option<Direction>,
    },
}

/// A cell as viewers see it.
#[derive(Clone, Debug, PartialEq, Eq, Structural)]
pub struct WireCell {
    pub organic: u16,
    pub soil_energy: u16,
    pub sunlit: bool,
    pub lineage_mutation_rate: u32,
    pub occupant: WireOccupant,
}

/// A chunk as viewers see it.
#[derive(Clone, Debug)]
pub struct WireChunk {
    pub coord: ChunkCoord,
    pub cells: Vec<WireCell>,
}

/// The occupant that viewers see: the genome is left out, nothing else changes.
pub open spec fn wire_occupant(occ: OccupantView) -> WireOccupant {
    match occ {
        OccupantView::Empty => WireOccupant::Empty,
        OccupantView::Leaf { plant, clan, energy, facing, parent } => WireOccupant::Leaf {
            plant,
            clan,
            energy,
            facing,
            parent,
        },
        OccupantView::Root { plant, clan, energy, parent } => WireOccupant::Root {
            plant,
            clan,
            energy,
            parent,
        },
        OccupantView::Stem { plant, clan, energy, connections, parent, children } => WireOccupant::Stem {
            plant,
            clan,
            energy,
            connections,
            parent,
            children,
        },
        OccupantView::Antenna { plant, clan, energy, parent } => WireOccupant::Antenna {
            plant,
            clan,
            energy,
            parent,
        },
        OccupantView::Sprout { plant, clan, energy, facing, genome: _, parent, current_gene } => WireOccupant::Sprout {
            plant,
            clan,
            energy,
            facing,
            parent,
            current_gene,
        },
        OccupantView::Seed { plant, clan, energy, facing, genome: _, parent } => WireOccupant::Seed {
            plant,
            clan,
            energy,
            facing,
            parent,
        },
    }
}

/// The cell that viewers see.
pub open spec fn wire_cell(c: CellView) -> WireCell {
    WireCell {
        organic: c.organic,
        soil_energy: c.soil_energy,
        sunlit: c.sunlit,
        lineage_mutation_rate: c.lineage_mutation_rate,
        occupant: wire_occupant(c.occupant),
    }
}

/// Whether a wire chunk shows a chunk.
pub open spec fn shows(wire: WireChunk, chunk: Chunk) -> bool {
    &&& wire.coord == chunk.coord
    &&& wire.cells.len() == chunk.cells.len()
    &&& forall|k: int|
        0 <= k < chunk.cells.len() ==> #[trigger] wire.cells@[k] == wire_cell(chunk.cells@[k]@)
}

/// Whether wire chunks show some chunks one by one.
pub open spec fn shows_all(wire: Seq<WireChunk>, chunks: Seq<Chunk>) -> bool {
    &&& wire.len() == chunks.len()
    &&& forall|c: int| 0 <= c < chunks.len() ==> shows(#[trigger] wire[c], chunks[c])
}

/// An occupant without its genome.
pub open spec fn without_genome(occ: OccupantView) -> OccupantView {
    match occ {
        OccupantView::Sprout { plant, clan, energy, facing, parent, current_gene, .. } => {
            OccupantView::Sprout {
                plant,
                clan,
                energy,
                facing,
                genome: default_vine_view(),
                parent,
                current_gene,
            }
        },
        OccupantView::Seed { plant, clan, energy, facing, parent, .. } => OccupantView::Seed {
            plant,
            clan,
            energy,
            facing,
            genome: default_vine_view(),
            parent,
        },
        other => other,
    }
}

/// Viewers see everything of a cell but the genome.
pub proof fn lemma_wire_hides_only_genomes(a: CellView, b: CellView)
    ensures
        wire_cell(a) == wire_cell(b) <==> (CellView {
            occupant: without_genome(a.occupant),
            ..a
        }) == (CellView { occupant: without_genome(b.occupant), ..b }),
{
}

impl From<&Occupant> for WireOccupant {
    fn from(o: &Occupant) -> (wire: Self) {
        match o {
            Occupant::Empty => WireOccupant::Empty,
            Occupant::Leaf { plant, clan, energy, facing, parent } => WireOccupant::Leaf {
                plant: *plant,
                clan: *clan,
                energy: *energy,
                facing: *facing,
                parent: *parent,
            },
            Occupant::Root { plant, clan, energy, parent } => WireOccupant::Root {
                plant: *plant,
                clan: *clan,
                energy: *energy,
                parent: *parent,
            },
            Occupant::Stem { plant, clan, energy, connections, parent, children } => WireOccupant::Stem {
                plant: *plant,
                clan: *clan,
                energy: *energy,
                connections: *connections,
                parent: *parent,
                children: *children,
            },
            Occupant::Antenna { plant, clan, energy, parent } => WireOccupant::Antenna {
                plant: *plant,
                clan: *clan,
                energy: *energy,
                parent: *parent,
            },
            Occupant::Sprout { plant, clan, energy, facing, genome: _, parent, current_gene } => WireOccupant::Sprout {
                plant: *plant,
                clan: *clan,
                energy: *energy,
                facing: *facing,
                parent: *parent,
                current_gene: *current_gene,
            },
            Occupant::Seed { plant, clan, energy, facing, genome: _, parent } => WireOccupant::Seed {
                plant: *plant,
                clan: *clan,
                energy: *energy,
                facing: *facing,
                parent: *parent,
            },
        }
    }
}

impl vstd::std_specs::convert::FromSpecImpl<&Occupant> for WireOccupant {
    open spec fn obeys_from_spec() -> bool {
        true
    }

    open spec fn from_spec(o: &Occupant) -> WireOccupant {
        wire_occupant(o@)
    }
}

impl From<&Cell> for WireCell {
    fn from(c: &Cell) -> (wire: Self) {
        WireCell {
            organic: c.organic,
            soil_energy: c.soil_energy,
            sunlit: c.sunlit,
            lineage_mutation_rate: c.lineage_mutation_rate,
            occupant: WireOccupant::from(&c.occupant),
        }
    }
}

impl vstd::std_specs::convert::FromSpecImpl<&Cell> for WireCell {
    open spec fn obeys_from_spec() -> bool {
        true
    }

    open spec fn from_spec(c: &Cell) -> WireCell {
        wire_cell(c@)
    }
}

impl From<&Chunk> for WireChunk {
    fn from(c: &Chunk) -> (wire: Self)
        ensures
            shows(wire, *c),
    {
        let mut cells: Vec<WireCell> = Vec::with_capacity(c.cells.len());
        let mut k: usize = 0;
        while k < c.cells.len()
            invariant
                k <= c.cells.len(),
                cells.len() == k,
                forall|t: int|
                    0 <= t < k ==> #[trigger] cells@[t] == wire_cell(c.cells@[t]@),
            decreases c.cells.len() - k,
        {
            cells.push(WireCell::from(&c.cells[k]));
            k = k + 1;
        }
        WireChunk { coord: c.coord, cells }
    }
}

impl vstd::std_specs::convert::FromSpecImpl<&Chunk> for WireChunk {
    open spec fn obeys_from_spec() -> bool {
        false
    }

    open spec fn from_spec(c: &Chunk) -> WireChunk {
        arbitrary()
    }
}

/// Show all chunks of a world to viewers.
pub fn wire_chunks(chunks: &Vec<Chunk>) -> (wire: Vec<WireChunk>)
    ensures
        shows_all(wire@, chunks@),
{
    let mut wire: Vec<WireChunk> = Vec::with_capacity(chunks.len());
    let mut c: usize = 0;
    while c < chunks.len()
        invariant
            c <= chunks.len(),
            wire.len() == c,
            forall|t: int| 0 <= t < c ==> shows(#[trigger] wire@[t], chunks@[t]),
        decreases chunks.len() - c,
    {
        wire.push(WireChunk::from(&chunks[c]));
        c = c + 1;
    }
    wire
}

/// Whether chunk `i` of a world is as viewers were shown it last.
pub open spec fn unmodified(shown: Seq<WireChunk>, world: Seq<Chunk>, i: int) -> bool {
    i < shown.len() && shows(shown[i], world[i])
}

/// Which of the first `n` chunks of a world are not as viewers were shown them last.
pub open spec fn modified(shown: Seq<WireChunk>, world: Seq<Chunk>, n: nat) -> Seq<int>
    decreases n,
{
    if n == 0 {
        Seq::empty()
    } else {
        let before = modified(shown, world, (n - 1) as nat);
        if unmodified(shown, world, n - 1) {
            before
        } else {
            before.push(n - 1)
        }
    }
}

/// Whether wire chunks show exactly the modified chunks of a world, in order.
pub open spec fn shows_modified(
    chunks: Seq<WireChunk>,
    shown: Seq<WireChunk>,
    world: Seq<Chunk>,
) -> bool {
    let m = modified(shown, world, world.len());
    &&& chunks.len() == m.len()
    &&& forall|k: int| 0 <= k < m.len() ==> shows(#[trigger] chunks[k], world[m[k]])
}

/// The modified chunks are chunks of the world, in ascending order, and every other
/// chunk is as it was shown.
pub proof fn lemma_modified(shown: Seq<WireChunk>, world: Seq<Chunk>, n: nat)
    requires
        n <= world.len(),
    ensures
        forall|k: int| 0 <= k < modified(shown, world, n).len() ==> 0 <= #[trigger] modified(
            shown,
            world,
            n,
        )[k] < n,
        forall|j: int, k: int|
            0 <= j < k < modified(shown, world, n).len() ==> #[trigger] modified(shown, world, n)[j]
                < #[trigger] modified(shown, world, n)[k],
        forall|i: int|
            0 <= i < n ==> modified(shown, world, n).contains(i) == !#[trigger] unmodified(
                shown,
                world,
                i,
            ),
    decreases n,
{
    if n > 0 {
        lemma_modified(shown, world, (n - 1) as nat);
        let before = modified(shown, world, (n - 1) as nat);
        let m = modified(shown, world, n);
        assert forall|i: int| 0 <= i < n implies m.contains(i) == !#[trigger] unmodified(
            shown,
            world,
            i,
        ) by {
            if i < n - 1 {
                assert(before.contains(i) == !unmodified(shown, world, i));
                if before.contains(i) {
                    let k = choose|k: int| 0 <= k < before.len() && before[k] == i;
                    assert(m[k] == i);
                }
                if m.contains(i) {
                    let k = choose|k: int| 0 <= k < m.len() && m[k] == i;
                    assert(before[k] == i);
                }
            } else if m.len() > before.len() {
                assert(m[before.len() as int] == i);
            } else if m.contains(i) {
                let k = choose|k: int| 0 <= k < m.len() && m[k] == i;
                assert(before[k] < n - 1);
            }
        }
    }
}

fn is_shown(wire: &WireChunk, chunk: &Chunk) -> (yes: bool)
    ensures
        yes == shows(*wire, *chunk),
{
    if wire.coord != chunk.coord || wire.cells.len() != chunk.cells.len() {
        return false;
    }
    let mut k: usize = 0;
    while k < chunk.cells.len()
        invariant
            k <= chunk.cells.len(),
            wire.cells.len() == chunk.cells.len(),
            forall|t: int| 0 <= t < k ==> #[trigger] wire.cells@[t] == wire_cell(chunk.cells@[t]@),
        decreases chunk.cells.len() - k,
    {
        let now = WireCell::from(&chunk.cells[k]);
        if wire.cells[k] != now {
            return false;
        }
        k = k + 1;
    }
    true
}

/// The chunks of a world that are not as viewers were shown them last. From then on
/// the whole world counts as shown.
pub fn modified_chunks(shown: &mut Vec<WireChunk>, world: &Vec<Chunk>) -> (chunks: Vec<WireChunk>)
    ensures
        shows_modified(chunks@, old(shown)@, world@),
        shows_all(final(shown)@, world@),
{
    let mut chunks: Vec<WireChunk> = Vec::new();
    let mut c: usize = 0;
    while c < world.len()
        invariant
            c <= world.len(),
            c <= shown.len(),
            forall|t: int| 0 <= t < c ==> shows(#[trigger] shown@[t], world@[t]),
            c < old(shown).len() ==> shown.len() == old(shown).len(),
            c >= old(shown).len() ==> shown.len() == c,
            forall|t: int| c <= t < old(shown).len() ==> shown@[t] == old(shown)@[t],
            chunks.len() == modified(old(shown)@, world@, c as nat).len(),
            forall|k: int|
                0 <= k < chunks.len() ==> shows(
                    #[trigger] chunks@[k],
                    world@[modified(old(shown)@, world@, c as nat)[k]],
                ),
        decreases world.len() - c,
    {
        if c < shown.len() {
            if !is_shown(&shown[c], &world[c]) {
                chunks.push(WireChunk::from(&world[c]));
                shown.set(c, WireChunk::from(&world[c]));
            }
        } else {
            chunks.push(WireChunk::from(&world[c]));
            shown.push(WireChunk::from(&world[c]));
        }
        c = c + 1;
    }
    shown.truncate(world.len());
    chunks
}

/// Requests and commands of a viewer.
#[derive(Debug)]
pub enum ClientMessage {
    Hello,
    Subscribe,
    SpawnSprout { x: i32, y: i32, facing: Direction },
    SetPaused(bool),
    Step,
    SetTickHz(u32),
    /// Whether the server paces its ticks by the tick rate or runs freely.
    SetTickRateLimited(bool),
    /// Replace the live scalars wholesale.
    SetSimParams(SimParams),
    /// Rebuild the world from scratch.
    RegenerateWorld { seed: u64, params: WorldGenParams },
}

/// What the server tells viewers.
#[derive(Debug)]
pub enum ServerMessage {
    Welcome {
        world_chunks_x: u32,
        world_chunks_y: u32,
        paused: bool,
        tick_hz: u32,
        tick_rate_limited: bool,
        tick: u64,
        seed: u64,
        sim_params: SimParams,
        world_gen_params: WorldGenParams,
    },
    /// The whole world.
    ChunkBatch { tick: u64, chunks: Vec<WireChunk> },
    /// The chunks of the world that changed since viewers were last told of it.
    TickUpdate { tick: u64, chunks: Vec<WireChunk> },
}

/// The plant, clan and energy that viewers are told of an occupant.
pub open spec fn told_owner(wire: WireOccupant) -> Option<(PlantId, ClanId, Energy)> {
    match wire {
        WireOccupant::Empty => None,
        WireOccupant::Leaf { plant, clan, energy, .. } => Some((plant, clan, energy)),
        WireOccupant::Root { plant, clan, energy, .. } => Some((plant, clan, energy)),
        WireOccupant::Stem { plant, clan, energy, .. } => Some((plant, clan, energy)),
        WireOccupant::Antenna { plant, clan, energy, .. } => Some((plant, clan, energy)),
        WireOccupant::Sprout { plant, clan, energy, .. } => Some((plant, clan, energy)),
        WireOccupant::Seed { plant, clan, energy, .. } => Some((plant, clan, energy)),
    }
}

/// Viewers are told each field of a cell as it is, and of its occupant the kind and each
/// field but the genome.
pub proof fn lemma_viewers_are_told_the_truth(c: CellView)
    ensures
        wire_cell(c).organic == c.organic,
        wire_cell(c).soil_energy == c.soil_energy,
        wire_cell(c).sunlit == c.sunlit,
        wire_cell(c).lineage_mutation_rate == c.lineage_mutation_rate,
        match (c.occupant, wire_cell(c).occupant) {
            (OccupantView::Empty, WireOccupant::Empty) => true,
            (
                OccupantView::Leaf { plant: p, clan: k, energy: e, facing: f, parent: u },
                WireOccupant::Leaf { plant, clan, energy, facing, parent },
            ) => plant == p && clan == k && energy == e && facing == f && parent == u,
            (
                OccupantView::Root { plant: p, clan: k, energy: e, parent: u },
                WireOccupant::Root { plant, clan, energy, parent },
            ) => plant == p && clan == k && energy == e && parent == u,
            (
                OccupantView::Antenna { plant: p, clan: k, energy: e, parent: u },
                WireOccupant::Antenna { plant, clan, energy, parent },
            ) => plant == p && clan == k && energy == e && parent == u,
            (
                OccupantView::Stem { plant: p, clan: k, energy: e, connections: n, parent: u, children: h },
                WireOccupant::Stem { plant, clan, energy, connections, parent, children },
            ) => plant == p && clan == k && energy == e && connections == n && parent == u && children
                == h,
            (
                OccupantView::Sprout { plant: p, clan: k, energy: e, facing: f, parent: u, current_gene: a, .. },
                WireOccupant::Sprout { plant, clan, energy, facing, parent, current_gene },
            ) => plant == p && clan == k && energy == e && facing == f && parent == u && current_gene
                == a,
            (
                OccupantView::Seed { plant: p, clan: k, energy: e, facing: f, parent: u, .. },
                WireOccupant::Seed { plant, clan, energy, facing, parent },
            ) => plant == p && clan == k && energy == e && facing == f && parent == u,
            _ => false,
        },
{
}

/// An update holds a chunk exactly if viewers do not show it as it is: it was not shown to
/// them, or a cell of it looks different now.
pub proof fn lemma_updates_hold_what_changed(
    chunks: Seq<WireChunk>,
    shown: Seq<WireChunk>,
    world: Seq<Chunk>,
    i: int,
)
    requires
        shows_modified(chunks, shown, world),
        0 <= i < world.len(),
        i < shown.len() ==> shown[i].coord == world[i].coord && shown[i].cells.len()
            == world[i].cells.len(),
    ensures
        (i >= shown.len() || exists|k: int|
            0 <= k < world[i].cells.len() && shown[i].cells@[k] != #[trigger] wire_cell(
                world[i].cells@[k]@,
            )) ==> exists|c: int| 0 <= c < chunks.len() && shows(#[trigger] chunks[c], world[i]),
        chunks.len() <= world.len(),
{
    let m = modified(shown, world, world.len());
    lemma_modified(shown, world, world.len());
    lemma_modified_len(shown, world, world.len());
    if i >= shown.len() || exists|k: int|
        0 <= k < world[i].cells.len() && shown[i].cells@[k] != #[trigger] wire_cell(
            world[i].cells@[k]@,
        ) {
        if i < shown.len() {
            let k = choose|k: int|
                0 <= k < world[i].cells.len() && shown[i].cells@[k] != #[trigger] wire_cell(
                    world[i].cells@[k]@,
                );
            assert(!shows(shown[i], world[i]));
        }
        assert(!unmodified(shown, world, i));
        assert(m.contains(i));
        let c = choose|c: int| 0 <= c < m.len() && m[c] == i;
        assert(shows(chunks[c], world[m[c]]));
    }
}

proof fn lemma_modified_len(shown: Seq<WireChunk>, world: Seq<Chunk>, n: nat)
    ensures
        modified(shown, world, n).len() <= n,
    decreases n,
{
    if n > 0 {
        lemma_modified_len(shown, world, (n - 1) as nat);
    }
}

} // verus!
