//! Copying genomes with mutations.
//!
//! A copy may jitter the mutation rate, delete genes, insert random genes and
//! replace single fields. Deletions and insertions preserve the topology of the
//! program: the `next` of a surviving gene follows its target to the target's new
//! position, or to the next surviving gene when the target was deleted.
use vstd::prelude::*;
use crate::protocol::{default_gene, Gene, Genome, GenomeView, SlotProduct, GENOME_MAX, GENOME_MIN};
use crate::protocol::{MUTATION_RATE_MAX, MUTATION_RATE_MIN, RATE_SCALE};
use crate::rng::{lemma_ahead, RngView, SimRng};

verus! {

/// Whether a random word falls below the probability `rate / scale`. The upper 24
/// bits of the word are the numerator of a fraction of 2^24.
pub open spec fn hit(word: u32, rate: int, scale: int) -> bool {
    (word / 256) * scale < rate * 0x100_0000
}

/// A rate kept inside the permitted band.
pub open spec fn clamped_rate(rate: int) -> u32 {
    if rate < MUTATION_RATE_MIN {
        MUTATION_RATE_MIN
    } else if rate > MUTATION_RATE_MAX {
        MUTATION_RATE_MAX
    } else {
        rate as u32
    }
}

/// A rate multiplied by the factor in `[0.5, 1.5)` that the upper 23 bits of a
/// word stand for, rounded to the nearest integer.
pub open spec fn jittered(rate: u32, word: u32) -> int {
    (rate * (word / 512 + 0x40_0000) + 0x40_0000) / 0x80_0000
}

/// The mutation rate of the copy, and the generator afterwards.
pub open spec fn copied_rate(rate: u32, v: RngView) -> (u32, RngView) {
    if hit(v.word(0), rate as int, RATE_SCALE as int) {
        (clamped_rate(jittered(rate, v.word(1))), v.ahead(2))
    } else {
        (clamped_rate(rate as int), v.ahead(1))
    }
}

/// Genes are inserted and deleted at a tenth of the mutation rate.
pub open spec fn indel_scale() -> int {
    10 * RATE_SCALE as int
}

/// Which of `n` genes are rolled for deletion.
pub open spec fn rolled_deletions(rate: u32, n: nat, v: RngView) -> Seq<bool> {
    Seq::new(n, |i: int| hit(v.word(i), rate as int, indel_scale()))
}

/// How many of the flags are unset.
pub open spec fn unset_count(flags: Seq<bool>) -> nat
    decreases flags.len(),
{
    if flags.len() == 0 {
        0
    } else {
        unset_count(flags.drop_last()) + if flags.last() {
            0nat
        } else {
            1
        }
    }
}

/// Which genes are deleted: those rolled, except that the first gene stays when
/// all were rolled.
pub open spec fn deletions(rate: u32, n: nat, v: RngView) -> Seq<bool> {
    let rolled = rolled_deletions(rate, n, v);
    if n > 0 && unset_count(rolled) == 0 {
        rolled.update(0, false)
    } else {
        rolled
    }
}

/// Insertion rolls for the first `i` genes: where a gene is inserted, the size
/// reached, and the generator. Rolling stops at the greatest permitted size.
pub open spec fn insertions(rate: u32, alive: nat, v: RngView, i: nat) -> (Seq<bool>, nat, RngView)
    decreases i,
{
    if i == 0 {
        (Seq::empty(), alive, v)
    } else {
        let (flags, size, r) = insertions(rate, alive, v, (i - 1) as nat);
        if size >= GENOME_MAX {
            (flags.push(false), size, r)
        } else if hit(r.word(0), rate as int, indel_scale()) {
            (flags.push(true), size + 1, r.ahead(1))
        } else {
            (flags.push(false), size, r.ahead(1))
        }
    }
}

/// The slot that a draw from `0..6` stands for.
pub open spec fn slot_of(value: u8) -> SlotProduct {
    if value == 0 {
        SlotProduct::Nothing
    } else if value == 1 {
        SlotProduct::Leaf
    } else if value == 2 {
        SlotProduct::Root
    } else if value == 3 {
        SlotProduct::Antenna
    } else if value == 4 {
        SlotProduct::Seed
    } else {
        SlotProduct::Sprout
    }
}

/// A random slot, and the generator after it.
pub open spec fn drawn_slot(v: RngView) -> (SlotProduct, RngView) {
    (slot_of(v.below(6)), v.after_below(6))
}

/// A random gene: front, left and right slot, then a byte for `next`.
pub open spec fn drawn_gene(v: RngView) -> (Gene, RngView) {
    let (front, v1) = drawn_slot(v);
    let (left, v2) = drawn_slot(v1);
    let (right, v3) = drawn_slot(v2);
    (Gene { front, left, right, next: (v3.word(0) % 256) as u8 }, v3.ahead(1))
}

/// A slot that is replaced by a random one at the given rate.
pub open spec fn copied_slot(slot: SlotProduct, rate: u32, v: RngView) -> (SlotProduct, RngView) {
    if hit(v.word(0), rate as int, RATE_SCALE as int) {
        drawn_slot(v.ahead(1))
    } else {
        (slot, v.ahead(1))
    }
}

/// A gene copied field by field. The second component is the old `next` when it
/// was kept, so that it can be led to its new place.
pub open spec fn copied_gene(gene: Gene, rate: u32, v: RngView) -> (Gene, Option<u8>, RngView) {
    let (front, v1) = copied_slot(gene.front, rate, v);
    let (left, v2) = copied_slot(gene.left, rate, v1);
    let (right, v3) = copied_slot(gene.right, rate, v2);
    if hit(v3.word(0), rate as int, RATE_SCALE as int) {
        (
            Gene { front, left, right, next: (v3.word(1) % 256) as u8 },
            None,
            v3.ahead(2),
        )
    } else {
        (Gene { front, left, right, next: gene.next }, Some(gene.next), v3.ahead(1))
    }
}

/// A copy under construction: its genes, for each the old `next` that still has
/// to be led to its new place, the new position of each old gene, and the
/// generator.
#[verifier::ext_equal]
pub struct Draft {
    pub genes: Seq<Gene>,
    pub sources: Seq<Option<u8>>,
    pub moved_to: Seq<Option<int>>,
    pub rng: RngView,
}

/// The draft with a random gene appended.
pub open spec fn with_inserted(d: Draft) -> Draft {
    let (gene, r) = drawn_gene(d.rng);
    Draft {
        genes: d.genes.push(gene),
        sources: d.sources.push(None),
        moved_to: d.moved_to,
        rng: r,
    }
}

/// The draft with an old gene left out.
pub open spec fn with_deleted(d: Draft) -> Draft {
    Draft { moved_to: d.moved_to.push(None), ..d }
}

/// The draft with an old gene copied.
pub open spec fn with_copied(d: Draft, gene: Gene, rate: u32) -> Draft {
    let (copy, source, r) = copied_gene(gene, rate, d.rng);
    Draft {
        genes: d.genes.push(copy),
        sources: d.sources.push(source),
        moved_to: d.moved_to.push(Some(d.genes.len() as int)),
        rng: r,
    }
}

/// The draft after the first `i` old genes.
pub open spec fn drafted(
    old_genes: Seq<Gene>,
    deleted: Seq<bool>,
    inserted: Seq<bool>,
    rate: u32,
    v: RngView,
    i: nat,
) -> Draft
    decreases i,
{
    if i == 0 {
        Draft { genes: Seq::empty(), sources: Seq::empty(), moved_to: Seq::empty(), rng: v }
    } else {
        let before = drafted(old_genes, deleted, inserted, rate, v, (i - 1) as nat);
        let grown = if inserted[i - 1] {
            with_inserted(before)
        } else {
            before
        };
        if deleted[i - 1] {
            with_deleted(grown)
        } else {
            with_copied(grown, old_genes[i - 1], rate)
        }
    }
}

/// New position of the first surviving old gene at or after position `at`, going
/// round, among `left` positions; 0 if none survived.
pub open spec fn survivor(moved_to: Seq<Option<int>>, at: int, left: nat) -> int
    decreases left,
{
    if left == 0 {
        0
    } else {
        match moved_to[at % (moved_to.len() as int)] {
            Some(p) => p,
            None => survivor(moved_to, at + 1, (left - 1) as nat),
        }
    }
}

/// A draft's gene with its `next` led to the new place of its target.
pub open spec fn relinked(gene: Gene, source: Option<u8>, moved_to: Seq<Option<int>>) -> Gene {
    match source {
        Some(old_next) => Gene {
            next: (survivor(
                moved_to,
                old_next as int % (moved_to.len() as int),
                moved_to.len(),
            ) % 256) as u8,
            ..gene
        },
        None => gene,
    }
}

/// The genes of a finished draft; a copy has at least one gene.
pub open spec fn finished(d: Draft) -> Seq<Gene> {
    if d.genes.len() == 0 {
        seq![default_gene()]
    } else {
        Seq::new(d.genes.len(), |j: int| relinked(d.genes[j], d.sources[j], d.moved_to))
    }
}

/// The draft from which a genome's copy is finished, with the copy's rate.
pub open spec fn copy_draft(g: GenomeView, v: RngView) -> (u32, Draft) {
    let n = g.genes.len();
    let (rate, v1) = copied_rate(g.mutation_rate, v);
    let deleted = deletions(rate, n, v1);
    let (inserted, _, v2) = insertions(rate, unset_count(deleted), v1.ahead(n as int), n);
    (rate, drafted(g.genes, deleted, inserted, rate, v2, n))
}

/// The mutated copy of a genome, and the generator after the copy.
pub open spec fn mutated(g: GenomeView, v: RngView) -> (GenomeView, RngView) {
    let (rate, d) = copy_draft(g, v);
    (GenomeView { genes: finished(d), mutation_rate: rate }, d.rng)
}

// ---------------------------------------------------------------------------
// Executable copying
// ---------------------------------------------------------------------------
fn roll(rng: &mut SimRng, rate: u32, scale: u32) -> (yes: bool)
    ensures
        old(rng)@.valid(),
        yes == hit(old(rng)@.word(0), rate as int, scale as int),
        final(rng)@ == old(rng)@.ahead(1),
{
    let word: u32 = rng.next_u32();
    let lhs: u64 = (word / 256) as u64;
    assert(lhs * scale <= 0xFF_FFFF * 0xFFFF_FFFF) by (nonlinear_arith)
        requires
            lhs <= 0xFF_FFFF,
            scale <= 0xFFFF_FFFF,
    ;
    lhs * (scale as u64) < rate as u64 * 0x100_0000
}

/// Draw a random slot.
pub fn random_slot(rng: &mut SimRng) -> (slot: SlotProduct)
    ensures
        slot == drawn_slot(old(rng)@).0,
        final(rng)@ == drawn_slot(old(rng)@).1,
{
    let value: u8 = rng.below(6);
    if value == 0 {
        SlotProduct::Nothing
    } else if value == 1 {
        SlotProduct::Leaf
    } else if value == 2 {
        SlotProduct::Root
    } else if value == 3 {
        SlotProduct::Antenna
    } else if value == 4 {
        SlotProduct::Seed
    } else {
        SlotProduct::Sprout
    }
}

fn random_byte(rng: &mut SimRng) -> (byte: u8)
    ensures
        byte == (old(rng)@.word(0) % 256) as u8,
        final(rng)@ == old(rng)@.ahead(1),
{
    let word: u32 = rng.next_u32();
    (word % 256) as u8
}

fn random_gene(rng: &mut SimRng) -> (gene: Gene)
    ensures
        gene == drawn_gene(old(rng)@).0,
        final(rng)@ == drawn_gene(old(rng)@).1,
{
    let front = random_slot(rng);
    let left = random_slot(rng);
    let right = random_slot(rng);
    let next: u8 = random_byte(rng);
    Gene { front, left, right, next }
}

fn copy_slot(slot: SlotProduct, rate: u32, rng: &mut SimRng) -> (copy: SlotProduct)
    ensures
        copy == copied_slot(slot, rate, old(rng)@).0,
        final(rng)@ == copied_slot(slot, rate, old(rng)@).1,
{
    if roll(rng, rate, RATE_SCALE) {
        random_slot(rng)
    } else {
        slot
    }
}

fn copy_gene(gene: Gene, rate: u32, rng: &mut SimRng) -> (copy: (Gene, Option<u8>))
    ensures
        copy.0 == copied_gene(gene, rate, old(rng)@).0,
        copy.1 == copied_gene(gene, rate, old(rng)@).1,
        final(rng)@ == copied_gene(gene, rate, old(rng)@).2,
{
    let front = copy_slot(gene.front, rate, rng);
    let left = copy_slot(gene.left, rate, rng);
    let right = copy_slot(gene.right, rate, rng);
    let ghost v3 = rng@;
    if roll(rng, rate, RATE_SCALE) {
        proof {
            lemma_ahead(v3, 1, 0);
            lemma_ahead(v3, 1, 1);
        }
        let next: u8 = random_byte(rng);
        (Gene { front, left, right, next }, None)
    } else {
        (Gene { front, left, right, next: gene.next }, Some(gene.next))
    }
}

fn copy_rate(rate: u32, rng: &mut SimRng) -> (copy: u32)
    ensures
        copy == copied_rate(rate, old(rng)@).0,
        final(rng)@ == copied_rate(rate, old(rng)@).1,
        old(rng)@.valid(),
{
    let ghost v = rng@;
    let raw: u64 = if roll(rng, rate, RATE_SCALE) {
        proof {
            lemma_ahead(v, 1, 0);
            lemma_ahead(v, 1, 1);
        }
        let word: u32 = rng.next_u32();
        let factor: u64 = (word / 512) as u64 + 0x40_0000;
        let wide: u64 = rate as u64;
        assert(wide * factor <= 0xFFFF_FFFF * 0xC0_0000) by (nonlinear_arith)
            requires
                wide <= 0xFFFF_FFFF,
                factor <= 0xC0_0000,
        ;
        (wide * factor + 0x40_0000) / 0x80_0000
    } else {
        rate as u64
    };
    if raw < MUTATION_RATE_MIN as u64 {
        MUTATION_RATE_MIN
    } else if raw > MUTATION_RATE_MAX as u64 {
        MUTATION_RATE_MAX
    } else {
        raw as u32
    }
}

proof fn lemma_unset_count(flags: Seq<bool>)
    ensures
        unset_count(flags) <= flags.len(),
        unset_count(flags) == 0 ==> forall|i: int| 0 <= i < flags.len() ==> flags[i],
        (forall|i: int| 0 <= i < flags.len() ==> flags[i]) ==> unset_count(flags) == 0,
    decreases flags.len(),
{
    if flags.len() > 0 {
        lemma_unset_count(flags.drop_last());
        if unset_count(flags) == 0 {
            assert forall|i: int| 0 <= i < flags.len() implies flags[i] by {
                if i < flags.len() - 1 {
                    assert(flags.drop_last()[i]);
                }
            }
        }
    }
}

/// Clearing the first of all-set flags leaves exactly one unset.
proof fn lemma_unset_one(flags: Seq<bool>)
    requires
        flags.len() > 0,
        unset_count(flags) == 0,
    ensures
        unset_count(flags.update(0, false)) == 1,
    decreases flags.len(),
{
    lemma_unset_count(flags);
    let cleared = flags.update(0, false);
    if flags.len() == 1 {
        assert(cleared.drop_last() =~= Seq::<bool>::empty());
        assert(unset_count(cleared.drop_last()) == 0);
    } else {
        assert(cleared.drop_last() =~= flags.drop_last().update(0, false));
        assert(unset_count(flags.drop_last()) == 0);
        lemma_unset_one(flags.drop_last());
    }
}

/// Roll deletions. The second component counts the genes that stay.
fn roll_deletions(rate: u32, n: usize, rng: &mut SimRng) -> (rolled: (Vec<bool>, usize))
    requires
        old(rng)@.valid(),
    ensures
        rolled.0@ == deletions(rate, n as nat, old(rng)@),
        rolled.1 == unset_count(rolled.0@),
        final(rng)@ == old(rng)@.ahead(n as int),
        final(rng)@.valid(),
{
    let ghost v = rng@;
    let mut flags: Vec<bool> = Vec::with_capacity(n);
    let mut alive: usize = 0;
    proof {
        lemma_ahead(v, 0, 0);
    }
    while flags.len() < n
        invariant
            flags.len() <= n,
            v.valid(),
            rng@ == v.ahead(flags.len() as int),
            rng@.valid(),
            flags@ == rolled_deletions(rate, n as nat, v).take(flags.len() as int),
            alive == unset_count(flags@),
            alive <= flags.len(),
        decreases n - flags.len(),
    {
        let ghost done = flags@;
        proof {
            lemma_ahead(v, done.len() as int, 0);
            lemma_ahead(v, done.len() as int, 1);
        }
        let deleted = roll(rng, rate, 10 * RATE_SCALE);
        flags.push(deleted);
        if !deleted {
            alive = alive + 1;
        }
        assert(flags@.drop_last() =~= done);
        assert(flags@ =~= rolled_deletions(rate, n as nat, v).take(flags.len() as int));
    }
    assert(flags@ =~= rolled_deletions(rate, n as nat, v));
    if n > 0 && alive == 0 {
        proof {
            lemma_unset_one(flags@);
        }
        flags.set(0, false);
        alive = 1;
    }
    (flags, alive)
}

fn roll_insertions(rate: u32, n: usize, alive: usize, rng: &mut SimRng) -> (flags: Vec<bool>)
    requires
        old(rng)@.valid(),
    ensures
        flags@ == insertions(rate, alive as nat, old(rng)@, n as nat).0,
        flags.len() == n,
        final(rng)@ == insertions(rate, alive as nat, old(rng)@, n as nat).2,
        final(rng)@.valid(),
{
    let ghost v = rng@;
    let mut flags: Vec<bool> = Vec::with_capacity(n);
    let mut size: usize = alive;
    while flags.len() < n
        invariant
            flags.len() <= n,
            rng@.valid(),
            flags@ == insertions(rate, alive as nat, v, flags.len() as nat).0,
            size == insertions(rate, alive as nat, v, flags.len() as nat).1,
            rng@ == insertions(rate, alive as nat, v, flags.len() as nat).2,
        decreases n - flags.len(),
    {
        let ghost here = rng@;
        if size >= GENOME_MAX {
            flags.push(false);
        } else {
            proof {
                lemma_ahead(here, 1, 0);
            }
            let inserted = roll(rng, rate, 10 * RATE_SCALE);
            if inserted {
                size = size + 1;
            }
            flags.push(inserted);
        }
    }
    flags
}

/// Positions as mathematical integers.
spec fn as_ints(s: Seq<Option<usize>>) -> Seq<Option<int>> {
    Seq::new(
        s.len(),
        |i: int|
            match s[i] {
                Some(p) => Some(p as int),
                None => None,
            },
    )
}

/// Counting modulo `n` goes up by one until it starts again.
proof fn lemma_next_mod(x: int, n: int)
    requires
        0 < n,
    ensures
        (x + 1) % n == (if x % n + 1 == n {
            0
        } else {
            x % n + 1
        }),
{
    let q = x / n;
    let k = x % n;
    vstd::arithmetic::div_mod::lemma_fundamental_div_mod(x, n);
    if k + 1 == n {
        assert(x + 1 == (q + 1) * n + 0) by (nonlinear_arith)
            requires
                x == n * q + k,
                k + 1 == n,
        ;
        vstd::arithmetic::div_mod::lemma_fundamental_div_mod_converse(x + 1, n, q + 1, 0);
    } else {
        assert(x + 1 == q * n + (k + 1)) by (nonlinear_arith)
            requires
                x == n * q + k,
        ;
        vstd::arithmetic::div_mod::lemma_fundamental_div_mod_converse(x + 1, n, q, k + 1);
    }
}

fn find_survivor(moved_to: &Vec<Option<usize>>, at: usize) -> (p: usize)
    requires
        at < moved_to.len(),
    ensures
        p == survivor(as_ints(moved_to@), at as int, moved_to.len() as nat),
{
    let n: usize = moved_to.len();
    let ghost m = as_ints(moved_to@);
    let mut k: usize = at;
    let mut steps: usize = 0;
    proof {
        vstd::arithmetic::div_mod::lemma_small_mod(at as nat, n as nat);
    }
    while steps < n
        invariant
            steps <= n,
            n == moved_to.len(),
            at < n,
            k < n,
            k == (at + steps) % (n as int),
            m == as_ints(moved_to@),
            survivor(m, at as int, n as nat) == survivor(m, at + steps, (n - steps) as nat),
        decreases n - steps,
    {
        assert(m[k as int] == match moved_to@[k as int] {
            Some(p) => Some(p as int),
            None => None,
        });
        if let Some(p) = moved_to[k] {
            return p;
        }
        proof {
            lemma_next_mod(at + steps, n as int);
        }
        k = if k + 1 == n {
            0
        } else {
            k + 1
        };
        steps = steps + 1;
    }
    0
}

/// Copy a genome with mutations.
pub fn mutate_genome(g: &Genome, rng: &mut SimRng) -> (copy: Genome)
    ensures
        copy@ == mutated(g@, old(rng)@).0,
        final(rng)@ == mutated(g@, old(rng)@).1,
{
    let n: usize = g.genes.len();
    let ghost v = rng@;
    let rate: u32 = copy_rate(g.mutation_rate, rng);
    proof {
        lemma_ahead(v, 1, 0);
        lemma_ahead(v, 2, 0);
    }
    let (deleted, alive) = roll_deletions(rate, n, rng);
    let inserted = roll_insertions(rate, n, alive, rng);
    let ghost v2 = rng@;
    let mut genes: Vec<Gene> = Vec::new();
    let mut sources: Vec<Option<u8>> = Vec::new();
    let mut moved_to: Vec<Option<usize>> = Vec::new();
    let mut i: usize = 0;
    assert(as_ints(moved_to@) =~= Seq::<Option<int>>::empty());
    while i < n
        invariant
            i <= n,
            n == g.genes.len(),
            deleted.len() == n,
            inserted.len() == n,
            genes@ == drafted(g.genes@, deleted@, inserted@, rate, v2, i as nat).genes,
            sources@ == drafted(g.genes@, deleted@, inserted@, rate, v2, i as nat).sources,
            as_ints(moved_to@) == drafted(
                g.genes@,
                deleted@,
                inserted@,
                rate,
                v2,
                i as nat,
            ).moved_to,
            rng@ == drafted(g.genes@, deleted@, inserted@, rate, v2, i as nat).rng,
            moved_to.len() == i,
            sources.len() == genes.len(),
        decreases n - i,
    {
        let ghost moved_before = moved_to@;
        if inserted[i] {
            let fresh = random_gene(rng);
            genes.push(fresh);
            sources.push(None);
        }
        if deleted[i] {
            moved_to.push(None);
            assert(as_ints(moved_to@) =~= as_ints(moved_before).push(None));
        } else {
            moved_to.push(Some(genes.len()));
            let (kept, source) = copy_gene(g.genes[i], rate, rng);
            assert(as_ints(moved_to@) =~= as_ints(moved_before).push(Some(genes.len() as int)));
            genes.push(kept);
            sources.push(source);
        }
        i = i + 1;
    }
    let ghost d = drafted(g.genes@, deleted@, inserted@, rate, v2, n as nat);
    if genes.len() == 0 {
        genes.push(Gene::default());
        assert(genes@ =~= finished(d));
        return Genome { genes, mutation_rate: rate };
    }
    let mut j: usize = 0;
    let count: usize = genes.len();
    proof {
        lemma_draft_nonempty(g.genes@, deleted@, inserted@, rate, v2, n as nat);
    }
    while j < count
        invariant
            j <= count,
            n == moved_to.len(),
            n > 0,
            count == genes.len(),
            count == sources.len(),
            count == d.genes.len(),
            sources@ == d.sources,
            as_ints(moved_to@) == d.moved_to,
            d.moved_to.len() == n,
            forall|t: int|
                0 <= t < count ==> #[trigger] genes@[t] == (if t < j {
                    relinked(d.genes[t], d.sources[t], d.moved_to)
                } else {
                    d.genes[t]
                }),
        decreases count - j,
    {
        if let Some(old_next) = sources[j] {
            let at: usize = old_next as usize % n;
            let target: usize = find_survivor(&moved_to, at);
            let mut gene = genes[j];
            gene.next = (target % 256) as u8;
            genes.set(j, gene);
        }
        j = j + 1;
    }
    assert(genes@ =~= finished(d));
    Genome { genes, mutation_rate: rate }
}

/// A draft has genes only if there were old genes.
proof fn lemma_draft_nonempty(
    old_genes: Seq<Gene>,
    deleted: Seq<bool>,
    inserted: Seq<bool>,
    rate: u32,
    v: RngView,
    i: nat,
)
    ensures
        drafted(old_genes, deleted, inserted, rate, v, i).moved_to.len() == i,
        i == 0 ==> drafted(old_genes, deleted, inserted, rate, v, i).genes.len() == 0,
    decreases i,
{
    if i > 0 {
        lemma_draft_nonempty(old_genes, deleted, inserted, rate, v, (i - 1) as nat);
    }
}

// ---------------------------------------------------------------------------
// Laws of copying
// ---------------------------------------------------------------------------
/// How many of the flags are set.
spec fn set_count(flags: Seq<bool>) -> nat
    decreases flags.len(),
{
    if flags.len() == 0 {
        0
    } else {
        set_count(flags.drop_last()) + if flags.last() {
            1nat
        } else {
            0
        }
    }
}

proof fn lemma_insertions(rate: u32, alive: nat, v: RngView, i: nat)
    ensures
        insertions(rate, alive, v, i).0.len() == i,
        insertions(rate, alive, v, i).1 == alive + set_count(insertions(rate, alive, v, i).0),
        insertions(rate, alive, v, i).1 <= GENOME_MAX || insertions(rate, alive, v, i).1 == alive,
    decreases i,
{
    if i > 0 {
        lemma_insertions(rate, alive, v, (i - 1) as nat);
        let before = insertions(rate, alive, v, (i - 1) as nat).0;
        assert(insertions(rate, alive, v, i).0.drop_last() =~= before);
    }
}

/// What a draft holds of the first `i` old genes: each has its place, or none if it
/// was deleted, and its copy either keeps the old `next` to be led on or has a new one.
spec fn places(d: Draft, old_genes: Seq<Gene>, deleted: Seq<bool>, i: nat) -> bool {
    &&& d.sources.len() == d.genes.len()
    &&& d.moved_to.len() == i
    &&& forall|k: int|
        0 <= k < i ==> match #[trigger] d.moved_to[k] {
            Some(p) => !deleted[k] && 0 <= p < d.genes.len() && (d.sources[p] is None
                || d.sources[p] == Some(old_genes[k].next)),
            None => deleted[k],
        }
}

proof fn lemma_insert_keeps_places(d: Draft, old_genes: Seq<Gene>, deleted: Seq<bool>, i: nat)
    requires
        places(d, old_genes, deleted, i),
    ensures
        places(with_inserted(d), old_genes, deleted, i),
        with_inserted(d).genes.len() == d.genes.len() + 1,
{
    let t = with_inserted(d);
    assert forall|k: int| 0 <= k < i implies match #[trigger] t.moved_to[k] {
        Some(p) => !deleted[k] && 0 <= p < t.genes.len() && (t.sources[p] is None || t.sources[p]
            == Some(old_genes[k].next)),
        None => deleted[k],
    } by {
        assert(t.moved_to[k] == d.moved_to[k]);
    }
}

proof fn lemma_delete_keeps_places(d: Draft, old_genes: Seq<Gene>, deleted: Seq<bool>, i: nat)
    requires
        places(d, old_genes, deleted, i),
        deleted[i as int],
    ensures
        places(with_deleted(d), old_genes, deleted, i + 1),
        with_deleted(d).genes.len() == d.genes.len(),
{
    let t = with_deleted(d);
    assert forall|k: int| 0 <= k < i + 1 implies match #[trigger] t.moved_to[k] {
        Some(p) => !deleted[k] && 0 <= p < t.genes.len() && (t.sources[p] is None || t.sources[p]
            == Some(old_genes[k].next)),
        None => deleted[k],
    } by {
        if k < i {
            assert(t.moved_to[k] == d.moved_to[k]);
        }
    }
}

/// The copy of a gene remembers the old `next`, or has a new one.
proof fn lemma_copied_source(gene: Gene, rate: u32, v: RngView)
    ensures
        copied_gene(gene, rate, v).1 is None || copied_gene(gene, rate, v).1 == Some(gene.next),
{
}

proof fn lemma_copy_keeps_places(
    d: Draft,
    old_genes: Seq<Gene>,
    deleted: Seq<bool>,
    rate: u32,
    i: nat,
)
    requires
        places(d, old_genes, deleted, i),
        !deleted[i as int],
    ensures
        places(with_copied(d, old_genes[i as int], rate), old_genes, deleted, i + 1),
        with_copied(d, old_genes[i as int], rate).genes.len() == d.genes.len() + 1,
{
    lemma_copied_source(old_genes[i as int], rate, d.rng);
    let source = copied_gene(old_genes[i as int], rate, d.rng).1;
    let t = with_copied(d, old_genes[i as int], rate);
    assert(t.sources == d.sources.push(source));
    assert(t.moved_to == d.moved_to.push(Some(d.genes.len() as int)));
    assert forall|k: int| 0 <= k < i + 1 implies match #[trigger] t.moved_to[k] {
        Some(p) => !deleted[k] && 0 <= p < t.genes.len() && (t.sources[p] is None || t.sources[p]
            == Some(old_genes[k].next)),
        None => deleted[k],
    } by {
        if k < i {
            assert(t.moved_to[k] == d.moved_to[k]);
        }
    }
}

/// A draft gives every old gene its place and holds as many genes as were kept and
/// inserted.
proof fn lemma_draft_shape(
    old_genes: Seq<Gene>,
    deleted: Seq<bool>,
    inserted: Seq<bool>,
    rate: u32,
    v: RngView,
    i: nat,
)
    requires
        i <= old_genes.len(),
        i <= deleted.len(),
        i <= inserted.len(),
    ensures
        places(drafted(old_genes, deleted, inserted, rate, v, i), old_genes, deleted, i),
        drafted(old_genes, deleted, inserted, rate, v, i).genes.len() == unset_count(
            deleted.take(i as int),
        ) + set_count(inserted.take(i as int)),
    decreases i,
{
    if i > 0 {
        let at = (i - 1) as nat;
        lemma_draft_shape(old_genes, deleted, inserted, rate, v, at);
        assert(deleted.take(i as int).drop_last() =~= deleted.take(i - 1));
        assert(inserted.take(i as int).drop_last() =~= inserted.take(i - 1));
        let before = drafted(old_genes, deleted, inserted, rate, v, at);
        lemma_insert_keeps_places(before, old_genes, deleted, at);
        let grown = if inserted[i - 1] {
            with_inserted(before)
        } else {
            before
        };
        if deleted[i - 1] {
            lemma_delete_keeps_places(grown, old_genes, deleted, at);
        } else {
            lemma_copy_keeps_places(grown, old_genes, deleted, rate, at);
        }
    } else {
        assert(deleted.take(0) =~= Seq::<bool>::empty());
        assert(inserted.take(0) =~= Seq::<bool>::empty());
    }
}

proof fn lemma_copy_draft(g: GenomeView, v: RngView)
    ensures
        ({
            let n = g.genes.len();
            let (rate, v1) = copied_rate(g.mutation_rate, v);
            let deleted = deletions(rate, n, v1);
            let (inserted, size, v2) = insertions(
                rate,
                unset_count(deleted),
                v1.ahead(n as int),
                n,
            );
            let d = copy_draft(g, v).1;
            &&& d == drafted(g.genes, deleted, inserted, rate, v2, n)
            &&& deleted.len() == n
            &&& inserted.len() == n
            &&& d.genes.len() == size
            &&& size <= GENOME_MAX || size <= n
            &&& n > 0 ==> size >= 1
        }),
{
    let n = g.genes.len();
    let (rate, v1) = copied_rate(g.mutation_rate, v);
    let rolled = rolled_deletions(rate, n, v1);
    let deleted = deletions(rate, n, v1);
    let alive = unset_count(deleted);
    let (inserted, _, v2) = insertions(rate, alive, v1.ahead(n as int), n);
    lemma_insertions(rate, alive, v1.ahead(n as int), n);
    lemma_unset_count(deleted);
    lemma_unset_count(rolled);
    if n > 0 && unset_count(rolled) == 0 {
        lemma_unset_one(rolled);
    }
    lemma_draft_shape(g.genes, deleted, inserted, rate, v2, n);
    assert(deleted.take(n as int) =~= deleted);
    assert(inserted.take(n as int) =~= inserted);
}

/// A genome of permitted size with a permitted mutation rate.
pub open spec fn permitted(g: GenomeView) -> bool {
    &&& GENOME_MIN <= g.genes.len() <= GENOME_MAX
    &&& MUTATION_RATE_MIN <= g.mutation_rate <= MUTATION_RATE_MAX
}

/// A copy has at least one gene, and never more than the greatest permitted number
/// unless the genome it was made from already had more; its mutation rate lies inside
/// the permitted band.
pub proof fn lemma_copy_stays_in_bounds(g: GenomeView, v: RngView)
    ensures
        mutated(g, v).0.genes.len() >= GENOME_MIN,
        mutated(g, v).0.genes.len() <= GENOME_MAX || mutated(g, v).0.genes.len() <= g.genes.len(),
        MUTATION_RATE_MIN <= mutated(g, v).0.mutation_rate <= MUTATION_RATE_MAX,
        g.genes.len() <= GENOME_MAX ==> permitted(mutated(g, v).0),
{
    lemma_copy_draft(g, v);
}

/// Copies preserve pathways: when a gene and the gene that it leads to both survive,
/// the copy of the first leads to the copy of the second, unless its `next` itself
/// was replaced.
pub proof fn lemma_copy_preserves_pathways(g: GenomeView, v: RngView, i: int)
    requires
        0 <= i < g.genes.len(),
    ensures
        ({
            let d = copy_draft(g, v).1;
            let target = g.genes[i].next as int % (g.genes.len() as int);
            match (d.moved_to[i], d.moved_to[target]) {
                (Some(p), Some(q)) => {
                    &&& 0 <= p < mutated(g, v).0.genes.len()
                    &&& 0 <= q < mutated(g, v).0.genes.len()
                    &&& d.sources[p] is Some ==> mutated(g, v).0.genes[p].next == q % 256
                },
                _ => true,
            }
        }),
{
    let d = copy_draft(g, v).1;
    let target = g.genes[i].next as int % (g.genes.len() as int);
    lemma_copy_shape(g, v, i);
    lemma_copy_shape(g, v, target);
    assert(mutated(g, v).0.genes == finished(d));
    if let (Some(p), Some(q)) = (d.moved_to[i], d.moved_to[target]) {
        if d.sources[p] is Some {
            lemma_led(d, g.genes[i].next, p, q);
        }
    }
}

proof fn lemma_copy_shape(g: GenomeView, v: RngView, k: int)
    requires
        0 <= k < g.genes.len(),
    ensures
        ({
            let d = copy_draft(g, v).1;
            &&& d.moved_to.len() == g.genes.len()
            &&& d.sources.len() == d.genes.len()
            &&& d.moved_to[k] matches Some(p) ==> 0 <= p < d.genes.len() && (d.sources[p] is None
                || d.sources[p] == Some(g.genes[k].next))
        }),
{
    let n = g.genes.len();
    let (rate, v1) = copied_rate(g.mutation_rate, v);
    let deleted = deletions(rate, n, v1);
    let (inserted, _, v2) = insertions(rate, unset_count(deleted), v1.ahead(n as int), n);
    lemma_insertions(rate, unset_count(deleted), v1.ahead(n as int), n);
    lemma_draft_shape(g.genes, deleted, inserted, rate, v2, n);
    let d = drafted(g.genes, deleted, inserted, rate, v2, n);
    assert(d.moved_to[k] == copy_draft(g, v).1.moved_to[k]);
}

/// Copies redirect pathways: when the gene that a gene leads to was deleted, the copy
/// leads to the copy of the next gene that survives, going round, unless its `next`
/// itself was replaced.
pub proof fn lemma_copy_redirects_pathways(g: GenomeView, v: RngView, i: int, k: nat)
    requires
        0 <= i < g.genes.len(),
        k < g.genes.len(),
        ({
            let d = copy_draft(g, v).1;
            let n = g.genes.len() as int;
            &&& d.moved_to[(g.genes[i].next + k) % n] is Some
            &&& forall|j: int|
                0 <= j < k ==> (#[trigger] d.moved_to[(g.genes[i].next + j) % n]) is None
        }),
    ensures
        ({
            let d = copy_draft(g, v).1;
            let n = g.genes.len() as int;
            let q = d.moved_to[(g.genes[i].next + k) % n]->0;
            d.moved_to[i] matches Some(p) ==> {
                &&& 0 <= p < mutated(g, v).0.genes.len()
                &&& d.sources[p] is Some ==> mutated(g, v).0.genes[p].next == q % 256
            }
        }),
{
    let d = copy_draft(g, v).1;
    let n = g.genes.len();
    lemma_copy_shape(g, v, i);
    assert(mutated(g, v).0.genes == finished(d));
    if let Some(p) = d.moved_to[i] {
        if let Some(old_next) = d.sources[p] {
            let target = old_next as int % (n as int);
            lemma_survivor(d.moved_to, old_next as int, target, 0, k, n);
            assert(finished(d)[p] == relinked(d.genes[p], d.sources[p], d.moved_to));
        }
    }
}

/// The search for a survivor passes over the deleted genes.
proof fn lemma_survivor(
    moved_to: Seq<Option<int>>,
    next: int,
    target: int,
    from: nat,
    k: nat,
    left: nat,
)
    requires
        moved_to.len() > 0,
        target == next % (moved_to.len() as int),
        from <= k < moved_to.len(),
        left > k - from,
        moved_to[(next + k) % (moved_to.len() as int)] is Some,
        forall|j: int|
            0 <= j < k ==> (#[trigger] moved_to[(next + j) % (moved_to.len() as int)]) is None,
    ensures
        survivor(moved_to, target + from, left) == moved_to[(next + k) % (moved_to.len() as int)]->0,
    decreases k - from,
{
    let n = moved_to.len() as int;
    vstd::arithmetic::div_mod::lemma_add_mod_noop(next, from as int, n);
    vstd::arithmetic::div_mod::lemma_add_mod_noop(target, from as int, n);
    vstd::arithmetic::div_mod::lemma_mod_twice(next, n);
    assert((target + from) % n == (next + from) % n);
    if from < k {
        assert(moved_to[(next + from) % n] is None);
        lemma_survivor(moved_to, next, target, from + 1, k, (left - 1) as nat);
    }
}

/// A kept `next` whose target survives leads to the target's new place.
proof fn lemma_led(d: Draft, old_next: u8, p: int, q: int)
    requires
        0 <= p < d.genes.len(),
        d.sources.len() == d.genes.len(),
        d.moved_to.len() > 0,
        d.sources[p] == Some(old_next),
        d.moved_to[old_next as int % (d.moved_to.len() as int)] == Some(q),
    ensures
        finished(d)[p].next == q % 256,
{
    let n = d.moved_to.len();
    let target = old_next as int % (n as int);
    vstd::arithmetic::div_mod::lemma_mod_twice(old_next as int, n as int);
    assert(survivor(d.moved_to, target, n) == q);
    assert(finished(d)[p] == relinked(d.genes[p], d.sources[p], d.moved_to));
}

// ---------------------------------------------------------------------------
// What a copy keeps and what it changes
// ---------------------------------------------------------------------------
/// Whether the next word of a generator, as a fraction of its range, falls below a rate in
/// ten-thousandths.
pub open spec fn struck(v: RngView, rate: u32) -> bool {
    (v.word(0) / 256) * 10000 < rate * 0x100_0000
}

/// The generator after a slot was rolled for: a slot that is struck is drawn anew.
pub open spec fn past_slot(v: RngView, rate: u32) -> RngView {
    if struck(v, rate) {
        v.ahead(1).after_below(6)
    } else {
        v.ahead(1)
    }
}

/// Whether a slot was copied: it is the old one unless it was struck, and else the one that
/// was drawn.
pub open spec fn slot_copied(from: SlotProduct, to: SlotProduct, v: RngView, rate: u32) -> bool {
    if struck(v, rate) {
        let n = v.ahead(1).below(6);
        to == (if n == 0 {
            SlotProduct::Nothing
        } else if n == 1 {
            SlotProduct::Leaf
        } else if n == 2 {
            SlotProduct::Root
        } else if n == 3 {
            SlotProduct::Antenna
        } else if n == 4 {
            SlotProduct::Seed
        } else {
            SlotProduct::Sprout
        })
    } else {
        to == from
    }
}

/// The generator with which gene `i` of a genome is copied.
pub open spec fn rng_at_gene(g: GenomeView, v: RngView, i: int) -> RngView {
    let n = g.genes.len();
    let (rate, v1) = copied_rate(g.mutation_rate, v);
    let deleted = deletions(rate, n, v1);
    let (inserted, _, v2) = insertions(rate, unset_count(deleted), v1.ahead(n as int), n);
    let before = drafted(g.genes, deleted, inserted, rate, v2, i as nat);
    if inserted[i] {
        with_inserted(before).rng
    } else {
        before.rng
    }
}

/// What a draft holds of gene `i` once it is past it.
proof fn lemma_draft_gene(
    old_genes: Seq<Gene>,
    deleted: Seq<bool>,
    inserted: Seq<bool>,
    rate: u32,
    v: RngView,
    i: nat,
    k: nat,
)
    requires
        i < k <= old_genes.len(),
        k <= deleted.len(),
        k <= inserted.len(),
    ensures
        ({
            let before = drafted(old_genes, deleted, inserted, rate, v, i);
            let grown = if inserted[i as int] {
                with_inserted(before)
            } else {
                before
            };
            let d = drafted(old_genes, deleted, inserted, rate, v, k);
            let p = grown.genes.len() as int;
            let copy = copied_gene(old_genes[i as int], rate, grown.rng);
            &&& d.moved_to.len() == k
            &&& deleted[i as int] ==> d.moved_to[i as int] is None
            &&& d.genes.len() >= p
            &&& d.sources.len() == d.genes.len()
            &&& inserted[i as int] ==> p >= 1 && d.genes[p - 1] == drawn_gene(before.rng).0
                && d.sources[p - 1] is None && p - 1 == before.genes.len()
            &&& !deleted[i as int] ==> {
                &&& d.moved_to[i as int] == Some(p)
                &&& p < d.genes.len()
                &&& d.genes[p] == copy.0
                &&& d.sources[p] == copy.1
            }
        }),
    decreases k,
{
    let last = (k - 1) as nat;
    lemma_draft_shape(old_genes, deleted, inserted, rate, v, last);
    let prior = drafted(old_genes, deleted, inserted, rate, v, last);
    if i < last {
        lemma_draft_gene(old_genes, deleted, inserted, rate, v, i, last);
    }
}

proof fn lemma_copied_gene(gene: Gene, rate: u32, v: RngView)
    ensures
        ({
            let (copy, source, _) = copied_gene(gene, rate, v);
            let v1 = past_slot(v, rate);
            let v2 = past_slot(v1, rate);
            let v3 = past_slot(v2, rate);
            &&& slot_copied(gene.front, copy.front, v, rate)
            &&& slot_copied(gene.left, copy.left, v1, rate)
            &&& slot_copied(gene.right, copy.right, v2, rate)
            &&& struck(v3, rate) ==> source is None && copy.next == v3.word(1) % 256
            &&& !struck(v3, rate) ==> source == Some(gene.next)
        }),
{
}

/// A gene that survives is copied field by field: each slot stays as it is unless its roll
/// strikes it, in which case it is drawn anew, and so does the gene that it leads to.
pub proof fn lemma_copy_changes_only_what_is_struck(g: GenomeView, v: RngView, i: int)
    requires
        0 <= i < g.genes.len(),
    ensures
        ({
            let d = copy_draft(g, v).1;
            let copy = mutated(g, v).0;
            let rate = copy.mutation_rate;
            let r = rng_at_gene(g, v, i);
            let r1 = past_slot(r, rate);
            let r2 = past_slot(r1, rate);
            let r3 = past_slot(r2, rate);
            &&& d.moved_to.len() == g.genes.len()
            &&& d.moved_to[i] matches Some(p) ==> {
                &&& 0 <= p < copy.genes.len()
                &&& slot_copied(g.genes[i].front, copy.genes[p].front, r, rate)
                &&& slot_copied(g.genes[i].left, copy.genes[p].left, r1, rate)
                &&& slot_copied(g.genes[i].right, copy.genes[p].right, r2, rate)
                &&& struck(r3, rate) ==> copy.genes[p].next == r3.word(1) % 256
                &&& struck(r3, rate) == (d.sources[p] is None)
            }
        }),
{
    let n = g.genes.len();
    let (rate, v1) = copied_rate(g.mutation_rate, v);
    let deleted = deletions(rate, n, v1);
    let (inserted, _, v2) = insertions(rate, unset_count(deleted), v1.ahead(n as int), n);
    lemma_insertions(rate, unset_count(deleted), v1.ahead(n as int), n);
    lemma_draft_gene(g.genes, deleted, inserted, rate, v2, i as nat, n);
    let r = rng_at_gene(g, v, i);
    lemma_copied_gene(g.genes[i], rate, r);
    let d = copy_draft(g, v).1;
    assert(mutated(g, v).0.genes == finished(d));
    if let Some(p) = d.moved_to[i] {
        assert(finished(d)[p] == relinked(d.genes[p], d.sources[p], d.moved_to));
    }
}

/// The mutation rate of a copy: the old one, or, when its roll strikes it, the old one times
/// a factor from a half to one and a half, rounded; in any case kept between a hundredth and
/// a fifth.
pub proof fn lemma_copy_jitters_its_rate(g: GenomeView, v: RngView)
    ensures
        ({
            let old_rate = g.mutation_rate;
            let rate = mutated(g, v).0.mutation_rate;
            let factor = v.word(1) / 512 + 0x40_0000;
            exists|x: int|
                {
                    &&& !struck(v, old_rate) ==> x == old_rate
                    &&& struck(v, old_rate) ==> -0x40_0000 <= x * 0x80_0000 - old_rate * factor
                        <= 0x40_0000
                    &&& rate == #[trigger] kept_between(x, 100, 2000)
                }
        }),
{
    let factor = v.word(1) / 512 + 0x40_0000;
    let x = if struck(v, g.mutation_rate) {
        jittered(g.mutation_rate, v.word(1))
    } else {
        g.mutation_rate as int
    };
    let a = g.mutation_rate * factor;
    assert(mutated(g, v).0.mutation_rate == kept_between(x, 100, 2000));
    assert(-0x40_0000 <= ((a + 0x40_0000) / 0x80_0000) * 0x80_0000 - a <= 0x40_0000) by (nonlinear_arith);
}

/// A number kept between two bounds.
pub open spec fn kept_between(x: int, low: int, high: int) -> int {
    if x < low {
        low
    } else if x > high {
        high
    } else {
        x
    }
}

/// Whether the word `k` ahead, as a fraction of its range, falls below a tenth of a rate.
pub open spec fn struck_hard(v: RngView, k: int, rate: u32) -> bool {
    (v.word(k) / 256) * 100000 < rate * 0x100_0000
}

/// Whether all of the first `n` words fall below a tenth of a rate.
pub open spec fn all_struck(v: RngView, n: nat, rate: u32) -> bool {
    forall|j: int| 0 <= j < n ==> #[trigger] struck_hard(v, j, rate)
}

/// Genes are deleted by a roll at a tenth of the rate; if all are struck, the first stays.
/// Those that survive keep their order.
pub proof fn lemma_copy_deletes_what_is_struck(g: GenomeView, v: RngView, i: int, k: int)
    requires
        0 <= i < g.genes.len(),
        0 <= k < g.genes.len(),
    ensures
        ({
            let moved_to = copy_draft(g, v).1.moved_to;
            let n = g.genes.len();
            let rate = mutated(g, v).0.mutation_rate;
            let v1 = if struck(v, g.mutation_rate) {
                v.ahead(2)
            } else {
                v.ahead(1)
            };
            let all = all_struck(v1, n, rate);
            &&& moved_to.len() == n
            &&& !all ==> moved_to[i] is None == struck_hard(v1, i, rate)
            &&& all ==> moved_to[i] is None == (i != 0)
            &&& i < k ==> (moved_to[i] matches Some(p) ==> (moved_to[k] matches Some(q) ==> p < q))
        }),
{
    let (rate, v1) = copied_rate(g.mutation_rate, v);
    lemma_which_deleted(rate, g.genes.len(), v1, i);
    lemma_moved_or_deleted(g, v, i);
    lemma_copy_order(g, v, i, k);
    assert(mutated(g, v).0.mutation_rate == rate);
    assert(v1 == if struck(v, g.mutation_rate) {
        v.ahead(2)
    } else {
        v.ahead(1)
    });
}

proof fn lemma_moved_or_deleted(g: GenomeView, v: RngView, i: int)
    requires
        0 <= i < g.genes.len(),
    ensures
        copy_draft(g, v).1.moved_to.len() == g.genes.len(),
        copy_draft(g, v).1.moved_to[i] is None == deletions(
            copied_rate(g.mutation_rate, v).0,
            g.genes.len(),
            copied_rate(g.mutation_rate, v).1,
        )[i],
        mutated(g, v).0.mutation_rate == copied_rate(g.mutation_rate, v).0,
{
    let n = g.genes.len();
    let (rate, v1) = copied_rate(g.mutation_rate, v);
    let deleted = deletions(rate, n, v1);
    let (inserted, _, v2) = insertions(rate, unset_count(deleted), v1.ahead(n as int), n);
    lemma_insertions(rate, unset_count(deleted), v1.ahead(n as int), n);
    lemma_draft_shape(g.genes, deleted, inserted, rate, v2, n);
    let d = drafted(g.genes, deleted, inserted, rate, v2, n);
    assert(d.moved_to[i] == copy_draft(g, v).1.moved_to[i]);
}

proof fn lemma_copy_order(g: GenomeView, v: RngView, i: int, k: int)
    requires
        0 <= i < g.genes.len(),
        0 <= k < g.genes.len(),
    ensures
        ({
            let moved_to = copy_draft(g, v).1.moved_to;
            i < k ==> (moved_to[i] matches Some(p) ==> (moved_to[k] matches Some(q) ==> p < q))
        }),
{
    let n = g.genes.len();
    let (rate, v1) = copied_rate(g.mutation_rate, v);
    let deleted = deletions(rate, n, v1);
    let (inserted, _, v2) = insertions(rate, unset_count(deleted), v1.ahead(n as int), n);
    lemma_insertions(rate, unset_count(deleted), v1.ahead(n as int), n);
    lemma_draft_order(g.genes, deleted, inserted, rate, v2, i as nat, k as nat);
}

proof fn lemma_which_deleted(rate: u32, n: nat, v: RngView, i: int)
    requires
        0 <= i < n,
    ensures
        ({
            let all = all_struck(v, n, rate);
            &&& deletions(rate, n, v).len() == n
            &&& !all ==> deletions(rate, n, v)[i] == struck_hard(v, i, rate)
            &&& all ==> deletions(rate, n, v)[i] == (i != 0)
        }),
{
    let rolled = rolled_deletions(rate, n, v);
    lemma_unset_count(rolled);
    assert forall|j: int| 0 <= j < n implies #[trigger] struck_hard(v, j, rate) == rolled[j] by {}
    if unset_count(rolled) == 0 {
        assert forall|j: int| 0 <= j < n implies #[trigger] struck_hard(v, j, rate) by {
            assert(rolled[j]);
        }
    } else {
        if forall|j: int| 0 <= j < n ==> #[trigger] struck_hard(v, j, rate) {
            assert forall|j: int| 0 <= j < n implies rolled[j] by {
                assert(struck_hard(v, j, rate));
            }
        }
    }
}

proof fn lemma_draft_order(
    old_genes: Seq<Gene>,
    deleted: Seq<bool>,
    inserted: Seq<bool>,
    rate: u32,
    v: RngView,
    i: nat,
    k: nat,
)
    requires
        i < old_genes.len(),
        k < old_genes.len(),
        deleted.len() == old_genes.len(),
        inserted.len() == old_genes.len(),
    ensures
        ({
            let moved_to = drafted(old_genes, deleted, inserted, rate, v, old_genes.len()).moved_to;
            i < k ==> (moved_to[i as int] matches Some(p) ==> (moved_to[k as int] matches Some(q)
                ==> p < q))
        }),
{
    if i < k && !deleted[i as int] && !deleted[k as int] {
        lemma_draft_gene(old_genes, deleted, inserted, rate, v, i, old_genes.len());
        lemma_draft_gene(old_genes, deleted, inserted, rate, v, k, old_genes.len());
        lemma_draft_gene(old_genes, deleted, inserted, rate, v, i, k);
    } else {
        lemma_draft_gene(old_genes, deleted, inserted, rate, v, i, old_genes.len());
        lemma_draft_gene(old_genes, deleted, inserted, rate, v, k, old_genes.len());
    }
}

/// Every gene of a copy that is not the copy of an old one is drawn at random.
pub proof fn lemma_new_genes_are_random(g: GenomeView, v: RngView, p: int)
    requires
        g.genes.len() > 0,
        0 <= p < mutated(g, v).0.genes.len(),
    ensures
        ({
            let moved_to = copy_draft(g, v).1.moved_to;
            ||| exists|i: int| 0 <= i < g.genes.len() && #[trigger] moved_to[i] == Some(p)
            ||| exists|r: RngView| mutated(g, v).0.genes[p] == (#[trigger] drawn_gene(r)).0
        }),
{
    let n = g.genes.len();
    let (rate, v1) = copied_rate(g.mutation_rate, v);
    let deleted = deletions(rate, n, v1);
    let (inserted, _, v2) = insertions(rate, unset_count(deleted), v1.ahead(n as int), n);
    lemma_copy_draft(g, v);
    lemma_insertions(rate, unset_count(deleted), v1.ahead(n as int), n);
    let d = copy_draft(g, v).1;
    lemma_draft_covered(g.genes, deleted, inserted, rate, v2, n, p);
    assert(mutated(g, v).0.genes == finished(d));
    assert(finished(d)[p] == relinked(d.genes[p], d.sources[p], d.moved_to));
}

proof fn lemma_draft_covered(
    old_genes: Seq<Gene>,
    deleted: Seq<bool>,
    inserted: Seq<bool>,
    rate: u32,
    v: RngView,
    k: nat,
    p: int,
)
    requires
        k <= old_genes.len(),
        k <= deleted.len(),
        k <= inserted.len(),
        0 <= p < drafted(old_genes, deleted, inserted, rate, v, k).genes.len(),
    ensures
        ({
            let d = drafted(old_genes, deleted, inserted, rate, v, k);
            ||| exists|i: int| 0 <= i < k && #[trigger] d.moved_to[i] == Some(p)
            ||| d.sources[p] is None && exists|r: RngView| d.genes[p] == (#[trigger] drawn_gene(r)).0
        }),
    decreases k,
{
    if k > 0 {
        let last = (k - 1) as nat;
        let before = drafted(old_genes, deleted, inserted, rate, v, last);
        let d = drafted(old_genes, deleted, inserted, rate, v, k);
        lemma_draft_shape(old_genes, deleted, inserted, rate, v, last);
        if p < before.genes.len() {
            lemma_draft_covered(old_genes, deleted, inserted, rate, v, last, p);
            if exists|i: int| 0 <= i < last && #[trigger] before.moved_to[i] == Some(p) {
                let i = choose|i: int| 0 <= i < last && #[trigger] before.moved_to[i] == Some(p);
                assert(d.moved_to[i] == Some(p));
            }
        } else if inserted[last as int] && p == before.genes.len() {
            assert(d.genes[p] == drawn_gene(before.rng).0);
        } else {
            assert(d.moved_to[last as int] == Some(p));
        }
    }
}

/// When no roll strikes, the copy is the genome itself, with every gene leading to a gene
/// that there is.
pub proof fn lemma_unmutated_copy_is_the_same(g: GenomeView, v: RngView)
    requires
        v.valid(),
        g.genes.len() > 0,
        forall|k: int|
            0 <= k <= 6 * g.genes.len() ==> (#[trigger] v.word(k) / 256) * 10000 >= 0x100_0000 * (
            if g.mutation_rate < 100 {
                100int
            } else {
                g.mutation_rate as int
            }),
    ensures
        ({
            let copy = mutated(g, v).0;
            let n = g.genes.len();
            &&& copy.mutation_rate == kept_between(g.mutation_rate as int, 100, 2000)
            &&& copy.genes.len() == n
            &&& forall|i: int|
                0 <= i < n ==> {
                    &&& (#[trigger] copy.genes[i]).front == g.genes[i].front
                    &&& copy.genes[i].left == g.genes[i].left
                    &&& copy.genes[i].right == g.genes[i].right
                    &&& copy.genes[i].next as int == g.genes[i].next as int % (n as int)
                }
        }),
{
    let n = g.genes.len();
    lemma_plain_copy(g, v);
    let d = copy_draft(g, v).1;
    let copy = mutated(g, v).0;
    assert(copy.genes == finished(d));
    assert forall|i: int| 0 <= i < n implies {
        &&& (#[trigger] copy.genes[i]).front == g.genes[i].front
        &&& copy.genes[i].left == g.genes[i].left
        &&& copy.genes[i].right == g.genes[i].right
        &&& copy.genes[i].next as int == g.genes[i].next as int % (n as int)
    } by {
        let target = g.genes[i].next as int % (n as int);
        assert(d.sources[i] == Some(g.genes[i].next));
        assert(d.moved_to[target] == Some(target));
        lemma_led(d, g.genes[i].next, i, target);
        vstd::arithmetic::div_mod::lemma_mod_decreases(g.genes[i].next as nat, n);
        assert(finished(d)[i] == relinked(d.genes[i], d.sources[i], d.moved_to));
    }
}

proof fn lemma_plain_copy(g: GenomeView, v: RngView)
    requires
        v.valid(),
        g.genes.len() > 0,
        forall|k: int|
            0 <= k <= 6 * g.genes.len() ==> (#[trigger] v.word(k) / 256) * 10000 >= 0x100_0000 * (
            if g.mutation_rate < 100 {
                100int
            } else {
                g.mutation_rate as int
            }),
    ensures
        ({
            let d = copy_draft(g, v).1;
            let n = g.genes.len();
            &&& mutated(g, v).0.mutation_rate == kept_between(g.mutation_rate as int, 100, 2000)
            &&& d.genes == g.genes
            &&& d.sources.len() == n
            &&& d.moved_to.len() == n
            &&& forall|k: int| 0 <= k < n ==> #[trigger] d.sources[k] == Some(g.genes[k].next)
            &&& forall|k: int| 0 <= k < n ==> #[trigger] d.moved_to[k] == Some(k)
        }),
{
    let n = g.genes.len();
    let (rate, v1) = copied_rate(g.mutation_rate, v);
    assert((v.word(0) / 256) * 10000 >= 0x100_0000 * g.mutation_rate);
    assert(v1 == v.ahead(1));
    lemma_ahead(v, 1, 0);
    let deleted = deletions(rate, n, v1);
    lemma_no_deletions(rate, v, n);
    lemma_ahead(v, 1, n as int);
    lemma_no_insertions(rate, v, n, n);
    let (inserted, _, v2) = insertions(rate, n, v.ahead(1 + n as int), n);
    let at = choose|at: int| 1 + n <= at <= 1 + n + n && v2 == #[trigger] v.ahead(at);
    lemma_plain_draft(g.genes, deleted, inserted, rate, v, at, n);
    assert(g.genes.take(n as int) =~= g.genes);
    assert(copy_draft(g, v).1 == drafted(g.genes, deleted, inserted, rate, v2, n));
}

/// Where no roll strikes, nothing is deleted.
proof fn lemma_no_deletions(rate: u32, v: RngView, n: nat)
    requires
        v.valid(),
        forall|k: int|
            0 <= k <= 6 * n ==> (#[trigger] v.word(k) / 256) * 10000 >= 0x100_0000 * rate,
    ensures
        deletions(rate, n, v.ahead(1)).len() == n,
        forall|i: int| 0 <= i < n ==> !deletions(rate, n, v.ahead(1))[i],
        unset_count(deletions(rate, n, v.ahead(1))) == n,
{
    let rolled = rolled_deletions(rate, n, v.ahead(1));
    assert forall|i: int| 0 <= i < n implies !rolled[i] by {
        lemma_ahead(v, 1, i);
        assert(v.ahead(1).word(i) == v.word(1 + i));
    }
    lemma_none_set(rolled);
}

proof fn lemma_none_set(flags: Seq<bool>)
    requires
        forall|i: int| 0 <= i < flags.len() ==> !flags[i],
    ensures
        unset_count(flags) == flags.len(),
    decreases flags.len(),
{
    if flags.len() > 0 {
        lemma_none_set(flags.drop_last());
    }
}

/// Where no roll strikes, nothing is inserted.
proof fn lemma_no_insertions(rate: u32, v: RngView, n: nat, i: nat)
    requires
        v.valid(),
        i <= n,
        forall|k: int|
            0 <= k <= 6 * n ==> (#[trigger] v.word(k) / 256) * 10000 >= 0x100_0000 * rate,
    ensures
        ({
            let (flags, size, r) = insertions(rate, n, v.ahead(1 + n as int), i);
            &&& flags.len() == i
            &&& size == n
            &&& forall|k: int| 0 <= k < i ==> !flags[k]
            &&& exists|at: int| 1 + n <= at <= 1 + n + i && r == #[trigger] v.ahead(at)
        }),
    decreases i,
{
    if i > 0 {
        lemma_no_insertions(rate, v, n, (i - 1) as nat);
        let (flags, size, r) = insertions(rate, n, v.ahead(1 + n as int), (i - 1) as nat);
        let at = choose|at: int| 1 + n <= at <= n + i && r == #[trigger] v.ahead(at);
        lemma_ahead(v, at, 0);
        lemma_ahead(v, at, 1);
        assert(r.word(0) == v.word(at));
        assert((v.word(at) / 256) * 10000 >= 0x100_0000 * rate);
        let x = r.word(0) / 256;
        assert(x * indel_scale() == x * 100000) by (nonlinear_arith)
            requires
                indel_scale() == 100000,
        ;
        assert(!hit(r.word(0), rate as int, indel_scale()));
        assert(r.ahead(1) == v.ahead(at + 1));
        let after = insertions(rate, n, v.ahead(1 + n as int), i);
        assert(after.0 == flags.push(false));
        assert(after.2 == v.ahead(at) || after.2 == v.ahead(at + 1));
    } else {
        assert(v.ahead(1 + n as int) == v.ahead(1 + n as int));
    }
}

/// Where no roll strikes, a draft is the old genes.
proof fn lemma_plain_draft(
    old_genes: Seq<Gene>,
    deleted: Seq<bool>,
    inserted: Seq<bool>,
    rate: u32,
    v: RngView,
    at: int,
    i: nat,
)
    requires
        v.valid(),
        i <= old_genes.len(),
        deleted.len() == old_genes.len(),
        inserted.len() == old_genes.len(),
        forall|k: int| 0 <= k < old_genes.len() ==> !deleted[k],
        forall|k: int| 0 <= k < old_genes.len() ==> !inserted[k],
        0 <= at <= 1 + 2 * old_genes.len(),
        forall|k: int|
            0 <= k <= 6 * old_genes.len() ==> (#[trigger] v.word(k) / 256) * 10000 >= 0x100_0000
                * rate,
    ensures
        ({
            let d = drafted(old_genes, deleted, inserted, rate, v.ahead(at), i);
            &&& d.genes == old_genes.take(i as int)
            &&& d.sources.len() == i
            &&& d.moved_to.len() == i
            &&& forall|k: int| 0 <= k < i ==> #[trigger] d.sources[k] == Some(old_genes[k].next)
            &&& forall|k: int| 0 <= k < i ==> #[trigger] d.moved_to[k] == Some(k)
            &&& d.rng == v.ahead(at + 4 * i)
        }),
    decreases i,
{
    let d = drafted(old_genes, deleted, inserted, rate, v.ahead(at), i);
    if i > 0 {
        let last = (i - 1) as nat;
        lemma_plain_draft(old_genes, deleted, inserted, rate, v, at, last);
        let before = drafted(old_genes, deleted, inserted, rate, v.ahead(at), last);
        let here = at + 4 * last;
        let gene = old_genes[last as int];
        lemma_ahead(v, here, 0);
        lemma_ahead(v, here, 1);
        lemma_ahead(v, here + 1, 0);
        lemma_ahead(v, here + 1, 1);
        lemma_ahead(v, here + 2, 0);
        lemma_ahead(v, here + 2, 1);
        lemma_ahead(v, here + 3, 0);
        lemma_ahead(v, here + 3, 1);
        assert((v.word(here) / 256) * 10000 >= 0x100_0000 * rate);
        assert((v.word(here + 1) / 256) * 10000 >= 0x100_0000 * rate);
        assert((v.word(here + 2) / 256) * 10000 >= 0x100_0000 * rate);
        assert((v.word(here + 3) / 256) * 10000 >= 0x100_0000 * rate);
        assert(copied_gene(gene, rate, before.rng) == (gene, Some(gene.next), v.ahead(here + 4)));
        assert(old_genes.take(i as int) =~= old_genes.take(last as int).push(gene));
    } else {
        assert(old_genes.take(0) =~= Seq::<Gene>::empty());
    }
}

/// How many of the `k` words that follow the first `from` fall below a tenth of a rate.
pub open spec fn strikes(v: RngView, from: int, k: nat, rate: u32) -> nat
    decreases k,
{
    if k == 0 {
        0
    } else {
        strikes(v, from, (k - 1) as nat, rate) + if struck_hard(v, from + k - 1, rate) {
            1nat
        } else {
            0
        }
    }
}

/// How many of the first `i` of `n` genes survive the deletions.
pub open spec fn kept_of(v: RngView, n: nat, i: nat, rate: u32) -> int {
    if all_struck(v, n, rate) {
        if i == 0 {
            0
        } else {
            1
        }
    } else {
        i - strikes(v, 0, i, rate)
    }
}

/// How many new genes come before the `i`th of `n` genes: as many as are rolled, until the
/// genome is full.
pub open spec fn new_of(v: RngView, n: nat, i: nat, rate: u32) -> int {
    let room = 128 - kept_of(v, n, n, rate);
    if room < 0 {
        0
    } else if strikes(v, n as int, i, rate) > room {
        room
    } else {
        strikes(v, n as int, i, rate) as int
    }
}

/// In front of every gene a new one is inserted by a roll at a tenth of the rate, while the
/// copy holds fewer than 128 genes; a gene is copied behind those that were kept and inserted
/// before it and the one that was inserted in front of it.
pub proof fn lemma_copy_inserts_what_is_struck(g: GenomeView, v: RngView, i: int)
    requires
        v.valid(),
        0 <= i < g.genes.len(),
    ensures
        ({
            let n = g.genes.len();
            let copy = mutated(g, v).0;
            let v1 = if struck(v, g.mutation_rate) {
                v.ahead(2)
            } else {
                v.ahead(1)
            };
            let rate = copy.mutation_rate;
            &&& copy.genes.len() == kept_of(v1, n, n, rate) + new_of(v1, n, n, rate)
            &&& copy_draft(g, v).1.moved_to[i] matches Some(p) ==> p == kept_of(v1, n, i as nat, rate)
                + new_of(v1, n, (i + 1) as nat, rate)
        }),
{
    let n = g.genes.len();
    let (rate, v1) = copied_rate(g.mutation_rate, v);
    lemma_ahead(v, 1, 0);
    lemma_ahead(v, 2, 0);
    let deleted = deletions(rate, n, v1);
    let alive = unset_count(deleted);
    let w = v1.ahead(n as int);
    let (inserted, _, v2) = insertions(rate, alive, w, n);
    lemma_copy_draft(g, v);
    lemma_kept(rate, n, v1, n);
    lemma_kept(rate, n, v1, i as nat);
    lemma_inserted(rate, v1, n, n);
    lemma_inserted(rate, v1, n, i as nat);
    lemma_inserted(rate, v1, n, (i + 1) as nat);
    lemma_draft_shape(g.genes, deleted, inserted, rate, v2, n);
    lemma_draft_shape(g.genes, deleted, inserted, rate, v2, i as nat);
    lemma_draft_gene(g.genes, deleted, inserted, rate, v2, i as nat, n);
    assert(inserted.take(i + 1).drop_last() =~= inserted.take(i));
    assert(mutated(g, v).0.genes.len() == copy_draft(g, v).1.genes.len());
    assert(deleted.take(n as int) =~= deleted);
    assert(inserted.take(n as int) =~= inserted);
}

/// The deletions among the first `i` genes leave as many as were not struck.
proof fn lemma_kept(rate: u32, n: nat, v: RngView, i: nat)
    requires
        i <= n,
    ensures
        deletions(rate, n, v).len() == n,
        unset_count(deletions(rate, n, v).take(i as int)) == kept_of(v, n, i, rate),
        unset_count(deletions(rate, n, v)) == kept_of(v, n, n, rate),
{
    lemma_kept_upto(rate, n, v, i);
    lemma_kept_upto(rate, n, v, n);
    if n > 0 {
        lemma_which_deleted(rate, n, v, 0);
    }
    assert(deletions(rate, n, v).take(n as int) =~= deletions(rate, n, v));
}

proof fn lemma_kept_upto(rate: u32, n: nat, v: RngView, i: nat)
    requires
        i <= n,
    ensures
        unset_count(deletions(rate, n, v).take(i as int)) == kept_of(v, n, i, rate),
    decreases i,
{
    let flags = deletions(rate, n, v);
    if i > 0 {
        lemma_kept_upto(rate, n, v, (i - 1) as nat);
        lemma_which_deleted(rate, n, v, i - 1);
        assert(flags.take(i as int).drop_last() =~= flags.take(i - 1));
    } else {
        assert(flags.take(0) =~= Seq::<bool>::empty());
    }
}

/// The insertions among the first `i` genes are those that were rolled, as far as there is
/// room.
proof fn lemma_inserted(rate: u32, v: RngView, n: nat, i: nat)
    requires
        v.valid(),
        i <= n,
    ensures
        ({
            let alive = unset_count(deletions(rate, n, v));
            let w = v.ahead(n as int);
            let all = insertions(rate, alive, w, n).0;
            set_count(all.take(i as int)) == new_of(v, n, i, rate)
        }),
{
    let alive = unset_count(deletions(rate, n, v));
    let w = v.ahead(n as int);
    lemma_kept(rate, n, v, n);
    lemma_rolled(rate, v, n, alive, i);
    lemma_insertions_prefix(rate, alive, w, i, n);
}

proof fn lemma_insertions_prefix(rate: u32, alive: nat, w: RngView, i: nat, n: nat)
    requires
        i <= n,
    ensures
        insertions(rate, alive, w, n).0.take(i as int) == insertions(rate, alive, w, i).0,
    decreases n - i,
{
    lemma_insertions(rate, alive, w, n);
    if i < n {
        lemma_insertions_prefix(rate, alive, w, i + 1, n);
        lemma_insertions(rate, alive, w, i);
        let all = insertions(rate, alive, w, n).0;
        let more = insertions(rate, alive, w, i + 1).0;
        let some = insertions(rate, alive, w, i).0;
        assert(all.take(i as int) =~= more.take(i as int));
        assert(more.take(i as int) =~= some);
    } else {
        assert(insertions(rate, alive, w, n).0.take(n as int) =~= insertions(rate, alive, w, n).0);
    }
}

proof fn lemma_rolled(rate: u32, v: RngView, n: nat, alive: nat, i: nat)
    requires
        v.valid(),
    ensures
        ({
            let w = v.ahead(n as int);
            let (flags, size, r) = insertions(rate, alive, w, i);
            let hits = strikes(v, n as int, i, rate);
            &&& size == alive + set_count(flags)
            &&& alive >= 128 ==> size == alive
            &&& alive < 128 ==> size == (if alive + hits > 128 {
                128
            } else {
                alive + hits
            })
            &&& size < 128 ==> r == v.ahead(n + i as int)
        }),
    decreases i,
{
    let w = v.ahead(n as int);
    lemma_ahead(v, n as int, 0);
    lemma_insertions(rate, alive, w, i);
    if i > 0 {
        let last = (i - 1) as nat;
        lemma_rolled(rate, v, n, alive, last);
        let (flags, size, r) = insertions(rate, alive, w, last);
        if size < 128 {
            lemma_ahead(v, n + last as int, 0);
            lemma_ahead(v, n + last as int, 1);
            assert(r.word(0) == v.word(n + last as int));
            let x = r.word(0) / 256;
            assert(x * indel_scale() == x * 100000) by (nonlinear_arith)
                requires
                    indel_scale() == 100000,
            ;
            assert(hit(r.word(0), rate as int, indel_scale()) == struck_hard(v, n + last as int, rate));
        }
    }
}

} // verus!
