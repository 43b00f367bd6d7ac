//! Digests of worlds: two worlds with the same cells have the same digest.
use vstd::prelude::*;
use vstd::std_specs::hash::DefaultHasherAdditionalSpecFns;
use std::collections::hash_map::DefaultHasher;
use std::hash::Hasher;
use crate::grid::{cell_ref, lemma_world_len, shaped, total_cells, world_of, Grid};
use crate::protocol::{Cell, CellView, Chunk, Direction, Gene, Genome, GenomeView, Occupant, OccupantView};
use crate::protocol::SlotProduct;
use crate::sim::occupant::{orphaned, parent_of};

verus! {

/// The `k` bytes of a number, the least significant first.
pub open spec fn le_bytes(n: nat, k: nat) -> Seq<u8>
    decreases k,
{
    if k == 0 {
        Seq::empty()
    } else {
        seq![(n % 256) as u8] + le_bytes(n / 256, (k - 1) as nat)
    }
}

/// The number of a direction.
pub open spec fn dir_number(d: Direction) -> nat {
    match d {
        Direction::North => 0,
        Direction::East => 1,
        Direction::South => 2,
        Direction::West => 3,
    }
}

/// The number of a slot product.
pub open spec fn slot_number(p: SlotProduct) -> nat {
    match p {
        SlotProduct::Nothing => 0,
        SlotProduct::Leaf => 1,
        SlotProduct::Root => 2,
        SlotProduct::Antenna => 3,
        SlotProduct::Seed => 4,
        SlotProduct::Sprout => 5,
    }
}

/// Whether there is a parent, as a number.
pub open spec fn parent_number(p: Option<Direction>) -> nat {
    match p {
        None => 0,
        Some(_) => 1,
    }
}

/// The bytes of a gene.
pub open spec fn gene_bytes(g: Gene) -> Seq<u8> {
    le_bytes(slot_number(g.front), 8) + le_bytes(slot_number(g.left), 8) + le_bytes(
        slot_number(g.right),
        8,
    ) + le_bytes(g.next as nat, 1)
}

/// The bytes of the first `n` genes.
pub open spec fn genes_bytes(genes: Seq<Gene>, n: nat) -> Seq<u8>
    decreases n,
{
    if n == 0 {
        Seq::empty()
    } else {
        genes_bytes(genes, (n - 1) as nat) + gene_bytes(genes[n - 1])
    }
}

/// The bytes of a genome.
pub open spec fn genome_bytes(g: GenomeView) -> Seq<u8> {
    genes_bytes(g.genes, g.genes.len()) + le_bytes(g.mutation_rate as nat, 4)
}

/// What is common to all occupants.
pub open spec fn owner_bytes(plant: u32, clan: u8, energy: u16) -> Seq<u8> {
    le_bytes(plant as nat, 4) + le_bytes(clan as nat, 1) + le_bytes(energy as nat, 2)
}

/// The bytes of an occupant; an empty cell has none.
pub open spec fn occupant_bytes(occ: OccupantView) -> Seq<u8> {
    match occ {
        OccupantView::Empty => Seq::empty(),
        OccupantView::Sprout { plant, clan, energy, facing, genome, parent, current_gene } => {
            owner_bytes(plant, clan, energy) + le_bytes(dir_number(facing), 8) + le_bytes(
                parent_number(parent),
                8,
            ) + le_bytes(current_gene as nat, 1) + genome_bytes(genome)
        },
        OccupantView::Seed { plant, clan, energy, facing, genome, parent } => {
            owner_bytes(plant, clan, energy) + le_bytes(dir_number(facing), 8) + le_bytes(
                parent_number(parent),
                8,
            ) + genome_bytes(genome)
        },
        OccupantView::Leaf { plant, clan, energy, facing, parent } => {
            owner_bytes(plant, clan, energy) + le_bytes(dir_number(facing), 8) + le_bytes(
                parent_number(parent),
                8,
            )
        },
        OccupantView::Root { plant, clan, energy, parent } => {
            owner_bytes(plant, clan, energy) + le_bytes(parent_number(parent), 8)
        },
        OccupantView::Antenna { plant, clan, energy, parent } => {
            owner_bytes(plant, clan, energy) + le_bytes(parent_number(parent), 8)
        },
        OccupantView::Stem { plant, clan, energy, connections, parent, children } => {
            owner_bytes(plant, clan, energy) + le_bytes(connections as nat, 1) + le_bytes(
                parent_number(parent),
                8,
            ) + le_bytes(children as nat, 1)
        },
    }
}

/// The bytes of a cell that enter the digest of its world.
pub open spec fn cell_bytes(c: CellView) -> Seq<u8> {
    le_bytes(c.organic as nat, 2) + le_bytes(c.soil_energy as nat, 2) + le_bytes(
        if c.sunlit {
            1
        } else {
            0
        },
        1,
    ) + le_bytes(c.lineage_mutation_rate as nat, 4) + occupant_bytes(c.occupant)
}

/// The digest of a world: what the standard hasher makes of its cells, written one
/// after the other.
pub open spec fn digest(w: Seq<CellView>) -> u64 {
    DefaultHasher::spec_finish(Seq::new(w.len(), |i: int| cell_bytes(w[i])))
}

fn put(bytes: &mut Vec<u8>, n: u64, k: u32)
    ensures
        final(bytes)@ == old(bytes)@ + le_bytes(n as nat, k as nat),
{
    let ghost start = bytes@;
    let mut rest: u64 = n;
    let mut left: u32 = k;
    assert(start + le_bytes(n as nat, k as nat) =~= bytes@ + le_bytes(rest as nat, left as nat));
    while left > 0
        invariant
            left <= k,
            start + le_bytes(n as nat, k as nat) == bytes@ + le_bytes(rest as nat, left as nat),
        decreases left,
    {
        let ghost before = bytes@;
        bytes.push((rest % 256) as u8);
        assert(before + le_bytes(rest as nat, left as nat) =~= bytes@ + le_bytes(
            (rest / 256) as nat,
            (left - 1) as nat,
        ));
        rest = rest / 256;
        left = left - 1;
    }
    assert(bytes@ + le_bytes(rest as nat, 0) =~= bytes@);
}

fn put_dir(bytes: &mut Vec<u8>, d: Direction)
    ensures
        final(bytes)@ == old(bytes)@ + le_bytes(dir_number(d), 8),
{
    let n: u64 = match d {
        Direction::North => 0,
        Direction::East => 1,
        Direction::South => 2,
        Direction::West => 3,
    };
    put(bytes, n, 8);
}

fn put_slot(bytes: &mut Vec<u8>, p: SlotProduct)
    ensures
        final(bytes)@ == old(bytes)@ + le_bytes(slot_number(p), 8),
{
    let n: u64 = match p {
        SlotProduct::Nothing => 0,
        SlotProduct::Leaf => 1,
        SlotProduct::Root => 2,
        SlotProduct::Antenna => 3,
        SlotProduct::Seed => 4,
        SlotProduct::Sprout => 5,
    };
    put(bytes, n, 8);
}

fn put_parent(bytes: &mut Vec<u8>, p: &Option<Direction>)
    ensures
        final(bytes)@ == old(bytes)@ + le_bytes(parent_number(*p), 8),
{
    let n: u64 = match p {
        None => 0,
        Some(_) => 1,
    };
    put(bytes, n, 8);
}

fn owner(plant: u32, clan: u8, energy: u16) -> (bytes: Vec<u8>)
    ensures
        bytes@ == owner_bytes(plant, clan, energy),
{
    let mut bytes: Vec<u8> = Vec::new();
    put(&mut bytes, plant as u64, 4);
    assert(bytes@ =~= le_bytes(plant as nat, 4));
    put(&mut bytes, clan as u64, 1);
    put(&mut bytes, energy as u64, 2);
    bytes
}

fn bytes_of_gene(gene: Gene) -> (bytes: Vec<u8>)
    ensures
        bytes@ == gene_bytes(gene),
{
    let mut bytes: Vec<u8> = Vec::new();
    put_slot(&mut bytes, gene.front);
    assert(bytes@ =~= le_bytes(slot_number(gene.front), 8));
    put_slot(&mut bytes, gene.left);
    put_slot(&mut bytes, gene.right);
    put(&mut bytes, gene.next as u64, 1);
    bytes
}

fn bytes_of_genome(genome: &Genome) -> (bytes: Vec<u8>)
    ensures
        bytes@ == genome_bytes(genome@),
{
    let mut bytes: Vec<u8> = Vec::new();
    let mut n: usize = 0;
    assert(bytes@ =~= genes_bytes(genome.genes@, 0));
    while n < genome.genes.len()
        invariant
            n <= genome.genes.len(),
            bytes@ == genes_bytes(genome.genes@, n as nat),
        decreases genome.genes.len() - n,
    {
        let mut gene = bytes_of_gene(genome.genes[n]);
        bytes.append(&mut gene);
        n = n + 1;
    }
    put(&mut bytes, genome.mutation_rate as u64, 4);
    bytes
}

fn bytes_of_occupant(occ: &Occupant) -> (bytes: Vec<u8>)
    ensures
        bytes@ == occupant_bytes(occ@),
{
    match occ {
        Occupant::Empty => Vec::new(),
        Occupant::Sprout { plant, clan, energy, facing, genome, parent, current_gene } => {
            let mut bytes = owner(*plant, *clan, *energy);
            put_dir(&mut bytes, *facing);
            put_parent(&mut bytes, parent);
            put(&mut bytes, *current_gene as u64, 1);
            let mut program = bytes_of_genome(genome);
            bytes.append(&mut program);
            bytes
        },
        Occupant::Seed { plant, clan, energy, facing, genome, parent } => {
            let mut bytes = owner(*plant, *clan, *energy);
            put_dir(&mut bytes, *facing);
            put_parent(&mut bytes, parent);
            let mut program = bytes_of_genome(genome);
            bytes.append(&mut program);
            bytes
        },
        Occupant::Leaf { plant, clan, energy, facing, parent } => {
            let mut bytes = owner(*plant, *clan, *energy);
            put_dir(&mut bytes, *facing);
            put_parent(&mut bytes, parent);
            bytes
        },
        Occupant::Root { plant, clan, energy, parent } => {
            let mut bytes = owner(*plant, *clan, *energy);
            put_parent(&mut bytes, parent);
            bytes
        },
        Occupant::Antenna { plant, clan, energy, parent } => {
            let mut bytes = owner(*plant, *clan, *energy);
            put_parent(&mut bytes, parent);
            bytes
        },
        Occupant::Stem { plant, clan, energy, connections, parent, children } => {
            let mut bytes = owner(*plant, *clan, *energy);
            put(&mut bytes, *connections as u64, 1);
            put_parent(&mut bytes, parent);
            put(&mut bytes, *children as u64, 1);
            bytes
        },
    }
}

fn bytes_of(cell: &Cell) -> (bytes: Vec<u8>)
    ensures
        bytes@ == cell_bytes(cell@),
{
    let mut bytes: Vec<u8> = Vec::new();
    put(&mut bytes, cell.organic as u64, 2);
    assert(bytes@ =~= le_bytes(cell.organic as nat, 2));
    put(&mut bytes, cell.soil_energy as u64, 2);
    put(
        &mut bytes,
        if cell.sunlit {
            1
        } else {
            0
        },
        1,
    );
    put(&mut bytes, cell.lineage_mutation_rate as u64, 4);
    let mut rest = bytes_of_occupant(&cell.occupant);
    bytes.append(&mut rest);
    bytes
}

/// The digest of a world.
pub fn hash_chunks(chunks: &Vec<Chunk>, g: Grid) -> (hash: u64)
    requires
        shaped(chunks@, g),
    ensures
        hash == digest(world_of(chunks@)),
{
    let n: usize = total_cells(g);
    let ghost w = world_of(chunks@);
    let ghost all = Seq::new(w.len(), |i: int| cell_bytes(w[i]));
    proof {
        lemma_world_len(chunks@, g);
    }
    let mut hasher = DefaultHasher::new();
    let mut i: usize = 0;
    assert(hasher@ =~= all.take(0));
    while i < n
        invariant
            i <= n,
            n == g.cells(),
            shaped(chunks@, g),
            w == world_of(chunks@),
            w.len() == n,
            all == Seq::new(w.len(), |i: int| cell_bytes(w[i])),
            hasher@ == all.take(i as int),
        decreases n - i,
    {
        let bytes = bytes_of(cell_ref(chunks, g, i));
        hasher.write(bytes.as_slice());
        assert(hasher@ =~= all.take(i + 1));
        i = i + 1;
    }
    assert(all.take(n as int) =~= all);
    hasher.finish()
}

// ---------------------------------------------------------------------------
// What the bytes tell
// ---------------------------------------------------------------------------
/// Whether two occupants are the same but for the side on which their parents stand.
pub open spec fn alike(a: OccupantView, b: OccupantView) -> bool {
    orphaned(a) == orphaned(b) && (parent_of(a) is Some) == (parent_of(b) is Some)
}

/// Whether two occupants are of the same kind.
pub open spec fn same_kind(a: OccupantView, b: OccupantView) -> bool {
    &&& (a is Empty) == (b is Empty)
    &&& (a is Leaf) == (b is Leaf)
    &&& (a is Root) == (b is Root)
    &&& (a is Stem) == (b is Stem)
    &&& (a is Antenna) == (b is Antenna)
    &&& (a is Sprout) == (b is Sprout)
    &&& (a is Seed) == (b is Seed)
}

/// Cells with occupants of the same kind have the same bytes only if they are the same cell,
/// but for the side on which a parent stands.
pub proof fn lemma_bytes_tell_cells_apart(a: CellView, b: CellView)
    requires
        cell_bytes(a) == cell_bytes(b),
        same_kind(a.occupant, b.occupant),
    ensures
        a.organic == b.organic,
        a.soil_energy == b.soil_energy,
        a.sunlit == b.sunlit,
        a.lineage_mutation_rate == b.lineage_mutation_rate,
        alike(a.occupant, b.occupant),
{
    let (la, lb): (nat, nat) = (
        if a.sunlit {
            1
        } else {
            0
        },
        if b.sunlit {
            1
        } else {
            0
        },
    );
    let (oa, ob) = (le_bytes(a.organic as nat, 2), le_bytes(b.organic as nat, 2));
    let (ea, eb) = (le_bytes(a.soil_energy as nat, 2), le_bytes(b.soil_energy as nat, 2));
    let (sa, sb) = (le_bytes(la, 1), le_bytes(lb, 1));
    let (ra, rb) = (
        le_bytes(a.lineage_mutation_rate as nat, 4),
        le_bytes(b.lineage_mutation_rate as nat, 4),
    );
    let (ta, tb) = (occupant_bytes(a.occupant), occupant_bytes(b.occupant));
    lemma_numbers(a.organic as nat, b.organic as nat, 2);
    lemma_numbers(a.soil_energy as nat, b.soil_energy as nat, 2);
    lemma_numbers(la, lb, 1);
    lemma_numbers(a.lineage_mutation_rate as nat, b.lineage_mutation_rate as nat, 4);
    lemma_split(oa + ea + sa + ra, ta, ob + eb + sb + rb, tb);
    lemma_split(oa + ea + sa, ra, ob + eb + sb, rb);
    lemma_split(oa + ea, sa, ob + eb, sb);
    lemma_split(oa, ea, ob, eb);
    lemma_limits();
    lemma_bytes_tell_occupants(a.occupant, b.occupant);
}

proof fn lemma_bytes_tell_occupants(a: OccupantView, b: OccupantView)
    requires
        occupant_bytes(a) == occupant_bytes(b),
        same_kind(a, b),
    ensures
        alike(a, b),
{
    lemma_limits();
    match (a, b) {
        (
            OccupantView::Sprout { plant, clan, energy, facing, genome, parent, current_gene },
            OccupantView::Sprout {
                plant: p,
                clan: c,
                energy: e,
                facing: f,
                genome: g,
                parent: u,
                current_gene: k,
            },
        ) => {
            let (wa, wb) = (owner_bytes(plant, clan, energy), owner_bytes(p, c, e));
            let (fa, fb) = (le_bytes(dir_number(facing), 8), le_bytes(dir_number(f), 8));
            let (ua, ub) = (le_bytes(parent_number(parent), 8), le_bytes(parent_number(u), 8));
            let (ka, kb) = (le_bytes(current_gene as nat, 1), le_bytes(k as nat, 1));
            lemma_owners(plant, clan, energy, p, c, e);
            lemma_numbers(dir_number(facing), dir_number(f), 8);
            lemma_numbers(parent_number(parent), parent_number(u), 8);
            lemma_numbers(current_gene as nat, k as nat, 1);
            lemma_split(wa + fa + ua + ka, genome_bytes(genome), wb + fb + ub + kb, genome_bytes(g));
            lemma_split(wa + fa + ua, ka, wb + fb + ub, kb);
            lemma_split(wa + fa, ua, wb + fb, ub);
            lemma_split(wa, fa, wb, fb);
            lemma_genomes(genome, g);
        },
        (
            OccupantView::Seed { plant, clan, energy, facing, genome, parent },
            OccupantView::Seed { plant: p, clan: c, energy: e, facing: f, genome: g, parent: u },
        ) => {
            let (wa, wb) = (owner_bytes(plant, clan, energy), owner_bytes(p, c, e));
            let (fa, fb) = (le_bytes(dir_number(facing), 8), le_bytes(dir_number(f), 8));
            let (ua, ub) = (le_bytes(parent_number(parent), 8), le_bytes(parent_number(u), 8));
            lemma_owners(plant, clan, energy, p, c, e);
            lemma_numbers(dir_number(facing), dir_number(f), 8);
            lemma_numbers(parent_number(parent), parent_number(u), 8);
            lemma_split(wa + fa + ua, genome_bytes(genome), wb + fb + ub, genome_bytes(g));
            lemma_split(wa + fa, ua, wb + fb, ub);
            lemma_split(wa, fa, wb, fb);
            lemma_genomes(genome, g);
        },
        (
            OccupantView::Leaf { plant, clan, energy, facing, parent },
            OccupantView::Leaf { plant: p, clan: c, energy: e, facing: f, parent: u },
        ) => {
            let (wa, wb) = (owner_bytes(plant, clan, energy), owner_bytes(p, c, e));
            let (fa, fb) = (le_bytes(dir_number(facing), 8), le_bytes(dir_number(f), 8));
            let (ua, ub) = (le_bytes(parent_number(parent), 8), le_bytes(parent_number(u), 8));
            lemma_owners(plant, clan, energy, p, c, e);
            lemma_numbers(dir_number(facing), dir_number(f), 8);
            lemma_numbers(parent_number(parent), parent_number(u), 8);
            lemma_split(wa + fa, ua, wb + fb, ub);
            lemma_split(wa, fa, wb, fb);
        },
        (
            OccupantView::Root { plant, clan, energy, parent },
            OccupantView::Root { plant: p, clan: c, energy: e, parent: u },
        ) => {
            let (wa, wb) = (owner_bytes(plant, clan, energy), owner_bytes(p, c, e));
            let (ua, ub) = (le_bytes(parent_number(parent), 8), le_bytes(parent_number(u), 8));
            lemma_owners(plant, clan, energy, p, c, e);
            lemma_numbers(parent_number(parent), parent_number(u), 8);
            lemma_split(wa, ua, wb, ub);
        },
        (
            OccupantView::Antenna { plant, clan, energy, parent },
            OccupantView::Antenna { plant: p, clan: c, energy: e, parent: u },
        ) => {
            let (wa, wb) = (owner_bytes(plant, clan, energy), owner_bytes(p, c, e));
            let (ua, ub) = (le_bytes(parent_number(parent), 8), le_bytes(parent_number(u), 8));
            lemma_owners(plant, clan, energy, p, c, e);
            lemma_numbers(parent_number(parent), parent_number(u), 8);
            lemma_split(wa, ua, wb, ub);
        },
        (
            OccupantView::Stem { plant, clan, energy, connections, parent, children },
            OccupantView::Stem { plant: p, clan: c, energy: e, connections: n, parent: u, children: h },
        ) => {
            let (wa, wb) = (owner_bytes(plant, clan, energy), owner_bytes(p, c, e));
            let (na, nb) = (le_bytes(connections as nat, 1), le_bytes(n as nat, 1));
            let (ua, ub) = (le_bytes(parent_number(parent), 8), le_bytes(parent_number(u), 8));
            let (ha, hb) = (le_bytes(children as nat, 1), le_bytes(h as nat, 1));
            lemma_owners(plant, clan, energy, p, c, e);
            lemma_numbers(connections as nat, n as nat, 1);
            lemma_numbers(parent_number(parent), parent_number(u), 8);
            lemma_numbers(children as nat, h as nat, 1);
            lemma_split(wa + na + ua, ha, wb + nb + ub, hb);
            lemma_split(wa + na, ua, wb + nb, ub);
            lemma_split(wa, na, wb, nb);
        },
        _ => {},
    }
}

proof fn lemma_owners(plant: u32, clan: u8, energy: u16, p: u32, c: u8, e: u16)
    ensures
        owner_bytes(plant, clan, energy).len() == 7,
        owner_bytes(p, c, e).len() == 7,
        owner_bytes(plant, clan, energy) == owner_bytes(p, c, e) ==> plant == p && clan == c && energy
            == e,
{
    let (pa, pb) = (le_bytes(plant as nat, 4), le_bytes(p as nat, 4));
    let (ca, cb) = (le_bytes(clan as nat, 1), le_bytes(c as nat, 1));
    let (ea, eb) = (le_bytes(energy as nat, 2), le_bytes(e as nat, 2));
    lemma_limits();
    lemma_numbers(plant as nat, p as nat, 4);
    lemma_numbers(clan as nat, c as nat, 1);
    lemma_numbers(energy as nat, e as nat, 2);
    if owner_bytes(plant, clan, energy) == owner_bytes(p, c, e) {
        lemma_split(pa + ca, ea, pb + cb, eb);
        lemma_split(pa, ca, pb, cb);
    }
}

proof fn lemma_genomes(a: GenomeView, b: GenomeView)
    requires
        genome_bytes(a) == genome_bytes(b),
    ensures
        a == b,
{
    let (ga, gb) = (genes_bytes(a.genes, a.genes.len()), genes_bytes(b.genes, b.genes.len()));
    let (ra, rb) = (le_bytes(a.mutation_rate as nat, 4), le_bytes(b.mutation_rate as nat, 4));
    lemma_limits();
    lemma_numbers(a.mutation_rate as nat, b.mutation_rate as nat, 4);
    lemma_genes_len(a.genes, a.genes.len());
    lemma_genes_len(b.genes, b.genes.len());
    assert((ga + ra).len() == (gb + rb).len());
    lemma_split(ga, ra, gb, rb);
    lemma_genes(a.genes, b.genes, a.genes.len());
    assert(a.genes =~= b.genes);
}

proof fn lemma_gene_len(g: Gene)
    ensures
        gene_bytes(g).len() == 25,
{
    lemma_numbers(slot_number(g.front), slot_number(g.front), 8);
    lemma_numbers(slot_number(g.left), slot_number(g.left), 8);
    lemma_numbers(slot_number(g.right), slot_number(g.right), 8);
    lemma_numbers(g.next as nat, g.next as nat, 1);
}

proof fn lemma_genes_len(genes: Seq<Gene>, n: nat)
    ensures
        genes_bytes(genes, n).len() == 25 * n,
    decreases n,
{
    if n > 0 {
        lemma_genes_len(genes, (n - 1) as nat);
        lemma_gene_len(genes[n - 1]);
    }
}

proof fn lemma_genes(a: Seq<Gene>, b: Seq<Gene>, n: nat)
    requires
        genes_bytes(a, n) == genes_bytes(b, n),
    ensures
        forall|k: int| 0 <= k < n ==> a[k] == b[k],
    decreases n,
{
    if n > 0 {
        let m = (n - 1) as nat;
        lemma_genes_len(a, m);
        lemma_genes_len(b, m);
        lemma_split(genes_bytes(a, m), gene_bytes(a[n - 1]), genes_bytes(b, m), gene_bytes(b[n - 1]));
        lemma_one_gene(a[n - 1], b[n - 1]);
        lemma_genes(a, b, m);
    }
}

proof fn lemma_one_gene(a: Gene, b: Gene)
    requires
        gene_bytes(a) == gene_bytes(b),
    ensures
        a == b,
{
    let (fa, fb) = (le_bytes(slot_number(a.front), 8), le_bytes(slot_number(b.front), 8));
    let (la, lb) = (le_bytes(slot_number(a.left), 8), le_bytes(slot_number(b.left), 8));
    let (ra, rb) = (le_bytes(slot_number(a.right), 8), le_bytes(slot_number(b.right), 8));
    let (na, nb) = (le_bytes(a.next as nat, 1), le_bytes(b.next as nat, 1));
    lemma_limits();
    lemma_numbers(slot_number(a.front), slot_number(b.front), 8);
    lemma_numbers(slot_number(a.left), slot_number(b.left), 8);
    lemma_numbers(slot_number(a.right), slot_number(b.right), 8);
    lemma_numbers(a.next as nat, b.next as nat, 1);
    lemma_split(fa + la + ra, na, fb + lb + rb, nb);
    lemma_split(fa + la, ra, fb + lb, rb);
    lemma_split(fa, la, fb, lb);
}

proof fn lemma_split(a: Seq<u8>, b: Seq<u8>, c: Seq<u8>, d: Seq<u8>)
    requires
        a + b == c + d,
        a.len() == c.len(),
    ensures
        a == c,
        b == d,
{
    assert(a =~= (a + b).take(a.len() as int));
    assert(c =~= (c + d).take(c.len() as int));
    assert(b =~= (a + b).skip(a.len() as int));
    assert(d =~= (c + d).skip(c.len() as int));
}

/// One more than the largest number that `k` bytes hold.
spec fn limit(k: nat) -> nat
    decreases k,
{
    if k == 0 {
        1
    } else {
        256 * limit((k - 1) as nat)
    }
}

proof fn lemma_limits()
    ensures
        limit(1) == 0x100,
        limit(2) == 0x1_0000,
        limit(4) == 0x1_0000_0000,
        limit(8) == 0x1_0000_0000_0000_0000,
{
    reveal_with_fuel(limit, 9);
}

proof fn lemma_numbers(a: nat, b: nat, k: nat)
    ensures
        le_bytes(a, k).len() == k,
        le_bytes(b, k).len() == k,
        le_bytes(a, k) == le_bytes(b, k) && a < limit(k) && b < limit(k) ==> a == b,
    decreases k,
{
    if k > 0 {
        let j = (k - 1) as nat;
        lemma_numbers(a / 256, b / 256, j);
        if le_bytes(a, k) == le_bytes(b, k) && a < limit(k) && b < limit(k) {
            lemma_split(
                seq![(a % 256) as u8],
                le_bytes(a / 256, j),
                seq![(b % 256) as u8],
                le_bytes(b / 256, j),
            );
            assert(seq![(a % 256) as u8][0] == seq![(b % 256) as u8][0]);
        }
    }
}

} // verus!
