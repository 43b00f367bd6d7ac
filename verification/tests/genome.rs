//! Copying genomes.
use simulife::genome::mutate_genome;
use simulife::protocol::{
    Gene, Genome, SlotProduct, GENOME_MAX, GENOME_MIN, MUTATION_RATE_MAX, MUTATION_RATE_MIN,
};
use simulife::rng::SimRng;

fn det_rng() -> SimRng {
    SimRng::seed_from_u64(0)
}

#[test]
fn mutate_genome_clamps_rate_above_min() {
    // Rates below MUTATION_RATE_MIN should be lifted to MIN on the
    // next copy, so no lineage gets stuck at the absorbing zero.
    let mut g = Genome::default_vine();
    g.mutation_rate = 0;
    let copied = mutate_genome(&g, &mut det_rng());
    assert!(
        copied.mutation_rate >= MUTATION_RATE_MIN,
        "rate {} fell below floor",
        copied.mutation_rate
    );
    assert_eq!(copied.genes.len(), g.genes.len());
}

#[test]
fn mutate_genome_with_same_seed_is_deterministic() {
    let mut g = Genome::default_vine();
    g.mutation_rate = 5000;
    let a = mutate_genome(&g, &mut SimRng::seed_from_u64(42));
    let b = mutate_genome(&g, &mut SimRng::seed_from_u64(42));
    assert_eq!(
        a.genes, b.genes,
        "same seed should produce identical mutations"
    );
    let c = mutate_genome(&g, &mut SimRng::seed_from_u64(43));
    assert_ne!(a.genes, c.genes, "different seed should diverge");
}

#[test]
fn mutate_genome_size_clamps_to_min_max() {
    // A high rate, so that insertions and deletions are frequent, over many
    // generations.
    let mut g = Genome {
        genes: vec![Gene::default()],
        mutation_rate: 5000,
    };
    let mut rng = det_rng();
    for _ in 0..200 {
        g = mutate_genome(&g, &mut rng);
        assert!(
            g.genes.len() >= GENOME_MIN && g.genes.len() <= GENOME_MAX,
            "genome size {} out of bounds",
            g.genes.len()
        );
        assert!(
            g.mutation_rate >= MUTATION_RATE_MIN && g.mutation_rate <= MUTATION_RATE_MAX,
            "rate {} out of bounds",
            g.mutation_rate
        );
    }
}

#[test]
fn mutate_genome_topology_preserves_pathways() {
    // A chain of three genes 0 -> 1 -> 2 -> 0 with distinctive products.
    let g = Genome {
        genes: vec![
            Gene {
                front: SlotProduct::Sprout,
                left: SlotProduct::Nothing,
                right: SlotProduct::Nothing,
                next: 1,
            },
            Gene {
                front: SlotProduct::Leaf,
                left: SlotProduct::Nothing,
                right: SlotProduct::Nothing,
                next: 2,
            },
            Gene {
                front: SlotProduct::Root,
                left: SlotProduct::Nothing,
                right: SlotProduct::Nothing,
                next: 0,
            },
        ],
        mutation_rate: 0,
    };
    // At the lowest rate this generator rolls no mutation.
    let copy = mutate_genome(&g, &mut det_rng());
    assert_eq!(copy.genes, g.genes);
}

fn ring(fronts: [SlotProduct; 3]) -> Genome {
    let genes = (0..3)
        .map(|i| Gene {
            front: fronts[i],
            left: SlotProduct::Nothing,
            right: SlotProduct::Nothing,
            next: ((i + 1) % 3) as u8,
        })
        .collect();
    Genome { genes, mutation_rate: MUTATION_RATE_MIN }
}

#[test]
fn pathways_skip_deleted_genes() {
    // A ring of three genes. Copies that lost the middle one and nothing else lead
    // from the first straight to the last.
    let g = ring([SlotProduct::Sprout, SlotProduct::Leaf, SlotProduct::Root]);
    let (first, last) = (g.genes[0], g.genes[2]);
    let shortened = (0..20_000)
        .map(|seed| mutate_genome(&g, &mut SimRng::seed_from_u64(seed)))
        .find(|copy| {
            copy.genes.len() == 2
                && copy.genes[0].front == first.front
                && copy.genes[1].front == last.front
                && copy.genes[0].left == SlotProduct::Nothing
                && copy.genes[0].right == SlotProduct::Nothing
                && copy.genes[1].left == SlotProduct::Nothing
                && copy.genes[1].right == SlotProduct::Nothing
        })
        .expect("some copy loses its middle gene");
    assert_eq!(shortened.genes[0].next, 1);
    assert_eq!(shortened.genes[1].next, 0);
}
