//! Counting occupants by kind.
use vstd::prelude::*;
use crate::grid::{cell_ref, lemma_cells_bound, lemma_world_len, shaped, total_cells, world_of, Grid};
use crate::protocol::{CellView, Chunk, Occupant, OccupantView, CHUNK_AREA};

verus! {

/// The kinds of occupants.
#[derive(Clone, Copy, Debug, PartialEq, Eq, Structural)]
pub enum Kind {
    Leaf,
    Root,
    Stem,
    Antenna,
    Sprout,
    Seed,
}

/// The kind of an occupant; empty cells have none.
pub open spec fn kind_of(occ: OccupantView) -> Option<Kind> {
    match occ {
        OccupantView::Empty => None,
        OccupantView::Leaf { .. } => Some(Kind::Leaf),
        OccupantView::Root { .. } => Some(Kind::Root),
        OccupantView::Stem { .. } => Some(Kind::Stem),
        OccupantView::Antenna { .. } => Some(Kind::Antenna),
        OccupantView::Sprout { .. } => Some(Kind::Sprout),
        OccupantView::Seed { .. } => Some(Kind::Seed),
    }
}

/// How many cells hold an occupant of a kind.
pub open spec fn count_kind(cells: Seq<CellView>, kind: Kind) -> nat
    decreases cells.len(),
{
    if cells.len() == 0 {
        0
    } else {
        count_kind(cells.drop_last(), kind) + if kind_of(cells.last().occupant) == Some(kind) {
            1nat
        } else {
            0
        }
    }
}

/// How many cells hold an occupant at all.
pub open spec fn count_occupied(cells: Seq<CellView>) -> nat
    decreases cells.len(),
{
    if cells.len() == 0 {
        0
    } else {
        count_occupied(cells.drop_last()) + if cells.last().occupant is Empty {
            0nat
        } else {
            1
        }
    }
}

/// The cells of some chunks, one chunk after the other.
pub open spec fn all_cells(chunks: Seq<Chunk>) -> Seq<CellView>
    decreases chunks.len(),
{
    if chunks.len() == 0 {
        Seq::empty()
    } else {
        all_cells(chunks.drop_last()) + chunks.last().cells@.map_values(|c: crate::protocol::Cell| c@)
    }
}

proof fn lemma_count_push(cells: Seq<CellView>, c: CellView, kind: Kind)
    ensures
        count_kind(cells.push(c), kind) == count_kind(cells, kind) + (if kind_of(c.occupant) == Some(
            kind,
        ) {
            1nat
        } else {
            0
        }),
        count_occupied(cells.push(c)) == count_occupied(cells) + (if c.occupant is Empty {
            0nat
        } else {
            1
        }),
        count_kind(cells, kind) <= cells.len(),
        count_occupied(cells) <= cells.len(),
    decreases cells.len(),
{
    assert(cells.push(c).drop_last() =~= cells);
    if cells.len() > 0 {
        lemma_count_push(cells.drop_last(), cells.last(), kind);
        assert(cells.drop_last().push(cells.last()) =~= cells);
    }
}

/// More cells never count less.
proof fn lemma_count_prefix(a: Seq<CellView>, b: Seq<CellView>, kind: Kind)
    ensures
        count_kind(a, kind) <= count_kind(a + b, kind),
    decreases b.len(),
{
    if b.len() > 0 {
        lemma_count_prefix(a, b.drop_last(), kind);
        assert((a + b).drop_last() =~= a + b.drop_last());
        assert((a + b).last() == b.last());
    } else {
        assert(a + b =~= a);
    }
}

/// The cells of the first chunks are a prefix of all cells.
proof fn lemma_all_cells_prefix(chunks: Seq<Chunk>, c: int)
    requires
        0 <= c <= chunks.len(),
    ensures
        exists|rest: Seq<CellView>| all_cells(chunks) == #[trigger] (all_cells(chunks.take(c)) + rest),
    decreases chunks.len() - c,
{
    if c == chunks.len() {
        assert(chunks.take(c) =~= chunks);
        assert(all_cells(chunks) =~= all_cells(chunks.take(c)) + Seq::<CellView>::empty());
    } else {
        lemma_all_cells_prefix(chunks, c + 1);
        let rest = choose|rest: Seq<CellView>|
            all_cells(chunks) == #[trigger] (all_cells(chunks.take(c + 1)) + rest);
        let next = chunks[c].cells@.map_values(|x: crate::protocol::Cell| x@);
        assert(chunks.take(c + 1).drop_last() =~= chunks.take(c));
        assert(all_cells(chunks.take(c + 1)) =~= all_cells(chunks.take(c)) + next);
        assert(all_cells(chunks) =~= all_cells(chunks.take(c)) + (next + rest));
    }
}

/// The cells of a well-shaped world, chunk after chunk, are its cells by linear index.
pub proof fn lemma_all_cells(chunks: Seq<Chunk>, g: Grid)
    requires
        shaped(chunks, g),
    ensures
        all_cells(chunks) == world_of(chunks),
{
    lemma_flat_prefix(chunks, chunks.len());
    assert(chunks.take(chunks.len() as int) =~= chunks);
    reveal(world_of);
    assert(all_cells(chunks) =~= world_of(chunks));
}

proof fn lemma_flat_prefix(chunks: Seq<Chunk>, c: nat)
    requires
        c <= chunks.len(),
        forall|k: int| 0 <= k < chunks.len() ==> (#[trigger] chunks[k]).cells.len() == CHUNK_AREA,
    ensures
        all_cells(chunks.take(c as int)).len() == c * 1024,
        forall|i: int|
            0 <= i < c * 1024 ==> #[trigger] all_cells(chunks.take(c as int))[i]
                == chunks[i / 1024].cells@[i % 1024]@,
    decreases c,
{
    if c > 0 {
        lemma_flat_prefix(chunks, (c - 1) as nat);
        assert(chunks.take(c as int).drop_last() =~= chunks.take(c - 1));
    }
}

/// There are no more occupants of a kind than cells.
pub proof fn lemma_count_bound(w: Seq<CellView>, kind: Kind)
    ensures
        count_kind(w, kind) <= w.len(),
    decreases w.len(),
{
    if w.len() > 0 {
        lemma_count_bound(w.drop_last(), kind);
    }
}

/// Numbers of sprouts, seeds and leaves.
pub fn count_occupants(chunks: &Vec<Chunk>) -> (counts: (u32, u32, u32))
    requires
        count_kind(all_cells(chunks@), Kind::Sprout) <= u32::MAX,
        count_kind(all_cells(chunks@), Kind::Seed) <= u32::MAX,
        count_kind(all_cells(chunks@), Kind::Leaf) <= u32::MAX,
    ensures
        counts.0 == count_kind(all_cells(chunks@), Kind::Sprout),
        counts.1 == count_kind(all_cells(chunks@), Kind::Seed),
        counts.2 == count_kind(all_cells(chunks@), Kind::Leaf),
{
    let mut sprouts: u32 = 0;
    let mut seeds: u32 = 0;
    let mut leaves: u32 = 0;
    let ghost all = all_cells(chunks@);
    let mut c: usize = 0;
    assert(chunks@.take(0) =~= Seq::<Chunk>::empty());
    while c < chunks.len()
        invariant
            c <= chunks.len(),
            all == all_cells(chunks@),
            count_kind(all, Kind::Sprout) <= u32::MAX,
            count_kind(all, Kind::Seed) <= u32::MAX,
            count_kind(all, Kind::Leaf) <= u32::MAX,
            sprouts == count_kind(all_cells(chunks@.take(c as int)), Kind::Sprout),
            seeds == count_kind(all_cells(chunks@.take(c as int)), Kind::Seed),
            leaves == count_kind(all_cells(chunks@.take(c as int)), Kind::Leaf),
        decreases chunks.len() - c,
    {
        let chunk = &chunks[c];
        let ghost base = all_cells(chunks@.take(c as int));
        let ghost views = chunk.cells@.map_values(|x: crate::protocol::Cell| x@);
        let ghost rest = Seq::<CellView>::empty();
        proof {
            lemma_all_cells_prefix(chunks@, c + 1);
            let tail = choose|tail: Seq<CellView>|
                all == #[trigger] (all_cells(chunks@.take(c + 1)) + tail);
            assert(chunks@.take(c + 1).drop_last() =~= chunks@.take(c as int));
            assert(all_cells(chunks@.take(c + 1)) =~= base + views);
            assert(all =~= base + views + tail);
            rest = tail;
            assert(base + views.take(0) =~= base);
        }
        let mut k: usize = 0;
        while k < chunk.cells.len()
            invariant
                k <= chunk.cells.len(),
                views == chunk.cells@.map_values(|x: crate::protocol::Cell| x@),
                all == base + views + rest,
                count_kind(all, Kind::Sprout) <= u32::MAX,
                count_kind(all, Kind::Seed) <= u32::MAX,
                count_kind(all, Kind::Leaf) <= u32::MAX,
                sprouts == count_kind(base + views.take(k as int), Kind::Sprout),
                seeds == count_kind(base + views.take(k as int), Kind::Seed),
                leaves == count_kind(base + views.take(k as int), Kind::Leaf),
            decreases chunk.cells.len() - k,
        {
            proof {
                let done = base + views.take(k as int);
                let x = views[k as int];
                lemma_count_push(done, x, Kind::Sprout);
                lemma_count_push(done, x, Kind::Seed);
                lemma_count_push(done, x, Kind::Leaf);
                assert(done.push(x) =~= base + views.take(k + 1));
                let left = views.skip(k + 1) + rest;
                assert(all =~= done.push(x) + left);
                lemma_count_prefix(done.push(x), left, Kind::Sprout);
                lemma_count_prefix(done.push(x), left, Kind::Seed);
                lemma_count_prefix(done.push(x), left, Kind::Leaf);
            }
            match &chunk.cells[k].occupant {
                Occupant::Sprout { .. } => {
                    sprouts = sprouts + 1;
                },
                Occupant::Seed { .. } => {
                    seeds = seeds + 1;
                },
                Occupant::Leaf { .. } => {
                    leaves = leaves + 1;
                },
                _ => {},
            }
            k = k + 1;
        }
        assert(views.take(views.len() as int) =~= views);
        c = c + 1;
    }
    assert(chunks@.take(chunks.len() as int) =~= chunks@);
    (sprouts, seeds, leaves)
}

/// How many occupants there are, in all and of each kind.
#[derive(Clone, Copy, Debug, PartialEq, Eq)]
pub struct Census {
    pub occupants: u64,
    pub leaves: u64,
    pub roots: u64,
    pub antennas: u64,
    pub stems: u64,
    pub sprouts: u64,
    pub seeds: u64,
}

/// Whether a census counts some cells.
pub open spec fn census_of(census: Census, w: Seq<CellView>) -> bool {
    &&& census.occupants == count_occupied(w)
    &&& census.leaves == count_kind(w, Kind::Leaf)
    &&& census.roots == count_kind(w, Kind::Root)
    &&& census.antennas == count_kind(w, Kind::Antenna)
    &&& census.stems == count_kind(w, Kind::Stem)
    &&& census.sprouts == count_kind(w, Kind::Sprout)
    &&& census.seeds == count_kind(w, Kind::Seed)
}

/// Count the occupants of the world.
pub fn take_census(chunks: &Vec<Chunk>, g: Grid) -> (census: Census)
    requires
        shaped(chunks@, g),
    ensures
        census_of(census, world_of(chunks@)),
{
    let n: usize = total_cells(g);
    let ghost w = world_of(chunks@);
    proof {
        lemma_world_len(chunks@, g);
        lemma_cells_bound(g);
        assert(w.take(0) =~= Seq::<CellView>::empty());
    }
    let mut census = Census {
        occupants: 0,
        leaves: 0,
        roots: 0,
        antennas: 0,
        stems: 0,
        sprouts: 0,
        seeds: 0,
    };
    let mut i: usize = 0;
    while i < n
        invariant
            i <= n,
            n == g.cells(),
            n < 0x4000_0000_0000_0000,
            shaped(chunks@, g),
            w == world_of(chunks@),
            w.len() == n,
            census_of(census, w.take(i as int)),
        decreases n - i,
    {
        proof {
            let done = w.take(i as int);
            let x = w[i as int];
            lemma_count_push(done, x, Kind::Leaf);
            lemma_count_push(done, x, Kind::Root);
            lemma_count_push(done, x, Kind::Antenna);
            lemma_count_push(done, x, Kind::Stem);
            lemma_count_push(done, x, Kind::Sprout);
            lemma_count_push(done, x, Kind::Seed);
            assert(done.push(x) =~= w.take(i + 1));
        }
        match &cell_ref(chunks, g, i).occupant {
            Occupant::Empty => {},
            Occupant::Leaf { .. } => {
                census.leaves = census.leaves + 1;
                census.occupants = census.occupants + 1;
            },
            Occupant::Root { .. } => {
                census.roots = census.roots + 1;
                census.occupants = census.occupants + 1;
            },
            Occupant::Antenna { .. } => {
                census.antennas = census.antennas + 1;
                census.occupants = census.occupants + 1;
            },
            Occupant::Stem { .. } => {
                census.stems = census.stems + 1;
                census.occupants = census.occupants + 1;
            },
            Occupant::Sprout { .. } => {
                census.sprouts = census.sprouts + 1;
                census.occupants = census.occupants + 1;
            },
            Occupant::Seed { .. } => {
                census.seeds = census.seeds + 1;
                census.occupants = census.occupants + 1;
            },
        }
        i = i + 1;
    }
    assert(w.take(n as int) =~= w);
    census
}

/// Every occupant is counted once, under its kind.
pub proof fn lemma_census_adds_up(w: Seq<CellView>)
    ensures
        count_occupied(w) == count_kind(w, Kind::Leaf) + count_kind(w, Kind::Root) + count_kind(
            w,
            Kind::Stem,
        ) + count_kind(w, Kind::Antenna) + count_kind(w, Kind::Sprout) + count_kind(w, Kind::Seed),
    decreases w.len(),
{
    if w.len() > 0 {
        lemma_census_adds_up(w.drop_last());
    }
}

} // verus!
