//! What growth does, told from the cells before it and after it.
use vstd::prelude::*;
use crate::genome::mutated;
use crate::grid::{dx_of, dy_of, has_dir, left_of, lemma_nbr_distinct, lemma_nbr_in_world, lemma_turns};
use crate::grid::{nbr, nbr_dir, opposite, right_of, x_of, y_of, Grid};
use crate::protocol::{CellView, Direction, Kernel, OccupantView, SimParams, SlotProduct};
use crate::rng::RngView;
use crate::sim::deposit::enriched;
use crate::sim::growth::{affords, balance, beats, bears_towards, bid_slot, bids, bids_on};
use crate::sim::growth::{grower, grown_cell, grows_towards, growth, harvest, lemma_winner_unique, offshoot};
use crate::sim::growth::{occupied_cell, price, rng_before, score_of, slot_bids_on, slot_dir, slot_product};
use crate::sim::growth::{slot_target, slot_towards, stem_left, stuck, viable, winner, wins, withered, won};
use crate::sim::occupant::energy_of;
use crate::sim::rules::{at_most_full, belongs, energy_left, lemma_left_alike, lemma_remains, organic_left};
use crate::sim::stem::lemma_mask_from;

verus! {

/// Whether a sprout has a gene to read.
pub open spec fn can_read(occ: OccupantView) -> bool {
    occ matches OccupantView::Sprout { genome, .. } && genome.genes.len() > 0
}

/// What a sprout's current gene puts in a direction: its front where the sprout faces, its
/// left and right slots to either side, and nothing behind.
pub open spec fn put_towards(occ: OccupantView, d: Direction) -> SlotProduct {
    match occ {
        OccupantView::Sprout { facing, genome, current_gene, .. } => {
            let genes = genome.genes;
            let gene = genes[current_gene as int % (genes.len() as int)];
            if genes.len() == 0 {
                SlotProduct::Nothing
            } else if d == facing {
                gene.front
            } else if d == left_of(facing) {
                gene.left
            } else if d == right_of(facing) {
                gene.right
            } else {
                SlotProduct::Nothing
            }
        },
        _ => SlotProduct::Nothing,
    }
}

/// Whether the sprout at `q` can grow in direction `d`: into an empty cell, or, with a
/// sprout or a seed, into a leaf, antenna, sprout or seed of another plant.
pub open spec fn can_grow(g: Grid, w: Seq<CellView>, q: int, d: Direction) -> bool {
    let product = put_towards(w[q].occupant, d);
    &&& product != SlotProduct::Nothing
    &&& nbr_dir(g, q, d) matches Some(j) && {
        let there = w[j].occupant;
        ||| there is Empty
        ||| {
            &&& product == SlotProduct::Sprout || product == SlotProduct::Seed
            &&& there is Leaf || there is Antenna || there is Sprout || there is Seed
            &&& !belongs(there, w[q].occupant->Sprout_plant)
        }
    }
}

/// What a product costs.
pub open spec fn price_of(params: SimParams, product: SlotProduct) -> int {
    match product {
        SlotProduct::Nothing => 0,
        SlotProduct::Leaf => params.cost_leaf as int,
        SlotProduct::Root => params.cost_root as int,
        SlotProduct::Antenna => params.cost_antenna as int,
        SlotProduct::Seed => params.cost_seed as int,
        SlotProduct::Sprout => params.cost_sprout as int,
    }
}

/// What the sprout at `q` would pay to grow in direction `d`.
pub open spec fn outlay(g: Grid, params: SimParams, w: Seq<CellView>, q: int, d: Direction) -> int {
    if can_grow(g, w, q, d) {
        price_of(params, put_towards(w[q].occupant, d))
    } else {
        0
    }
}

/// What the sprout at `q` would eat by growing in direction `d`.
pub open spec fn catch(g: Grid, w: Seq<CellView>, q: int, d: Direction) -> int {
    if can_grow(g, w, q, d) {
        match energy_of(w[nbr_dir(g, q, d)->0].occupant) {
            Some(e) => e as int,
            None => 0,
        }
    } else {
        0
    }
}

/// The sum over the four directions.
pub open spec fn all_around(f: spec_fn(Direction) -> int) -> int {
    f(Direction::North) + f(Direction::East) + f(Direction::South) + f(Direction::West)
}

/// Whether the sprout at `q` can grow in no direction.
pub open spec fn hemmed_in(g: Grid, w: Seq<CellView>, q: int) -> bool {
    forall|d: Direction| !#[trigger] can_grow(g, w, q, d)
}

/// Whether the sprout at `q` grows this tick if it gets the cells: it can grow somewhere,
/// and its energy and what it would eat pay for all it can grow.
pub open spec fn ready(g: Grid, params: SimParams, w: Seq<CellView>, q: int) -> bool {
    &&& can_read(w[q].occupant)
    &&& !hemmed_in(g, w, q)
    &&& w[q].occupant->Sprout_energy + all_around(|d: Direction| catch(g, w, q, d)) >= all_around(
        |d: Direction| outlay(g, params, w, q, d),
    )
}

/// Whether the sprout at `q` reaches for cell `j`, which lies in direction `d` of it.
pub open spec fn reaches(
    g: Grid,
    params: SimParams,
    w: Seq<CellView>,
    q: int,
    d: Direction,
    j: int,
) -> bool {
    0 <= q < w.len() && ready(g, params, w, q) && can_grow(g, w, q, d) && nbr_dir(g, q, d) == Some(j)
}

/// The score of a cell that reaches for another.
pub open spec fn bid_of(g: Grid, q: int, j: int) -> u64 {
    let c = g.chunks_x as int;
    score_of(x_of(c, q) as i32, y_of(c, q) as i32, x_of(c, j) as i32, y_of(c, j) as i32)
}

/// Whether the sprout at `q` gets cell `j`, which lies in direction `d` of it: of all that
/// reach for the cell it has the least score, and among those it comes first.
pub open spec fn gets(
    g: Grid,
    params: SimParams,
    w: Seq<CellView>,
    q: int,
    d: Direction,
    j: int,
) -> bool {
    &&& reaches(g, params, w, q, d, j)
    &&& forall|r: int, e: Direction| #[trigger]
        reaches(g, params, w, r, e, j) ==> bid_of(g, q, j) < bid_of(g, r, j) || (bid_of(g, q, j)
            == bid_of(g, r, j) && q <= r)
}

/// Whether some sprout reaches for cell `j`.
pub open spec fn reached(g: Grid, params: SimParams, w: Seq<CellView>, j: int) -> bool {
    exists|q: int, d: Direction| #[trigger] reaches(g, params, w, q, d, j)
}

/// Whether an occupant is what a sprout grows in direction `d`: what its gene says, of its
/// plant and clan, with what it cost as its energy, facing away from the sprout and with
/// the sprout as its parent. Seeds and sprouts carry the copy of the genome that is made
/// with the generator `v`, and a sprout goes on with the gene that the current one names as
/// its next.
pub open spec fn grown_by(
    params: SimParams,
    from: OccupantView,
    d: Direction,
    v: RngView,
    occ: OccupantView,
) -> bool {
    match from {
        OccupantView::Sprout { plant: p, clan: c, genome: genes_of, current_gene: at, .. } => {
            let n = genes_of.genes.len() as int;
            match put_towards(from, d) {
                SlotProduct::Nothing => false,
                SlotProduct::Leaf => occ == (OccupantView::Leaf {
                    plant: p,
                    clan: c,
                    energy: params.cost_leaf,
                    facing: d,
                    parent: Some(opposite(d)),
                }),
                SlotProduct::Root => occ == (OccupantView::Root {
                    plant: p,
                    clan: c,
                    energy: params.cost_root,
                    parent: Some(opposite(d)),
                }),
                SlotProduct::Antenna => occ == (OccupantView::Antenna {
                    plant: p,
                    clan: c,
                    energy: params.cost_antenna,
                    parent: Some(opposite(d)),
                }),
                SlotProduct::Seed => occ matches OccupantView::Seed {
                    plant,
                    clan,
                    energy,
                    facing,
                    genome,
                    parent,
                } && plant == p && clan == c && energy == params.cost_seed && facing == d && parent
                    == Some(opposite(d)) && genome == mutated(genes_of, v).0,
                SlotProduct::Sprout => occ matches OccupantView::Sprout {
                    plant,
                    clan,
                    energy,
                    facing,
                    genome,
                    parent,
                    current_gene,
                } && plant == p && clan == c && energy == params.cost_sprout && facing == d && parent
                    == Some(opposite(d)) && genome == mutated(genes_of, v).0 && current_gene as int
                    == genes_of.genes[at as int % n].next as int % n,
            }
        },
        _ => false,
    }
}

// ---------------------------------------------------------------------------
// Slots are directions
// ---------------------------------------------------------------------------
proof fn lemma_slot(g: Grid, w: Seq<CellView>, q: int, s: int)
    requires
        grower(w, q),
        0 <= s < 3,
    ensures
        ({
            let d = slot_dir(w[q].occupant->Sprout_facing, s);
            &&& put_towards(w[q].occupant, d) == slot_product(w[q].occupant, s)
            &&& viable(g, w, q, s) == can_grow(g, w, q, d)
            &&& slot_target(g, w, q, s) == nbr_dir(g, q, d)
            &&& harvest(g, w, q, s) == catch(g, w, q, d)
            &&& forall|params: SimParams| #[trigger]
                price(g, params, w, q, s) == outlay(g, params, w, q, d)
        }),
{
    lemma_turns(w[q].occupant->Sprout_facing);
}

proof fn lemma_behind(g: Grid, w: Seq<CellView>, q: int)
    requires
        grower(w, q),
    ensures
        ({
            let d = opposite(w[q].occupant->Sprout_facing);
            &&& !can_grow(g, w, q, d)
            &&& catch(g, w, q, d) == 0
            &&& forall|params: SimParams| #[trigger] outlay(g, params, w, q, d) == 0
        }),
{
}

/// A direction is in front, to a side or behind.
proof fn lemma_sides(facing: Direction, d: Direction)
    ensures
        d == slot_dir(facing, 0) || d == slot_dir(facing, 1) || d == slot_dir(facing, 2) || d
            == opposite(facing),
        slot_towards(facing, slot_dir(facing, 0)) == Some(0int),
        slot_towards(facing, slot_dir(facing, 1)) == Some(1int),
        slot_towards(facing, slot_dir(facing, 2)) == Some(2int),
        slot_towards(facing, opposite(facing)) is None,
{
}

/// The four directions are those in front, to the sides and behind.
proof fn lemma_all_around(facing: Direction, f: spec_fn(Direction) -> int)
    ensures
        all_around(f) == f(slot_dir(facing, 0)) + f(slot_dir(facing, 1)) + f(slot_dir(facing, 2)) + f(
            opposite(facing),
        ),
{
}

proof fn lemma_ready(g: Grid, params: SimParams, w: Seq<CellView>, q: int)
    ensures
        ready(g, params, w, q) == (grower(w, q) && affords(g, params, w, q)),
        grower(w, q) ==> stuck(g, w, q) == hemmed_in(g, w, q),
{
    if grower(w, q) {
        let facing = w[q].occupant->Sprout_facing;
        lemma_slot(g, w, q, 0);
        lemma_slot(g, w, q, 1);
        lemma_slot(g, w, q, 2);
        lemma_behind(g, w, q);
        lemma_all_around(facing, |d: Direction| catch(g, w, q, d));
        lemma_all_around(facing, |d: Direction| outlay(g, params, w, q, d));
        if stuck(g, w, q) {
            assert forall|d: Direction| !#[trigger] can_grow(g, w, q, d) by {
                lemma_sides(facing, d);
            }
        } else {
            assert(can_grow(g, w, q, slot_dir(facing, 0)) || can_grow(g, w, q, slot_dir(facing, 1))
                || can_grow(g, w, q, slot_dir(facing, 2)));
        }
        assert(price(g, params, w, q, 0) == outlay(g, params, w, q, slot_dir(facing, 0)));
        assert(price(g, params, w, q, 1) == outlay(g, params, w, q, slot_dir(facing, 1)));
        assert(price(g, params, w, q, 2) == outlay(g, params, w, q, slot_dir(facing, 2)));
        assert(outlay(g, params, w, q, opposite(facing)) == 0);
    }
}

proof fn lemma_slot_reaches(g: Grid, params: SimParams, w: Seq<CellView>, q: int, s: int, j: int)
    requires
        0 <= q < w.len(),
        0 <= s < 3,
        slot_bids_on(g, params, w, q, s, j),
    ensures
        reaches(g, params, w, q, slot_dir(w[q].occupant->Sprout_facing, s), j),
{
    lemma_ready(g, params, w, q);
    lemma_slot(g, w, q, s);
}

proof fn lemma_reaches_slot(g: Grid, params: SimParams, w: Seq<CellView>, q: int, d: Direction, j: int)
    requires
        reaches(g, params, w, q, d, j),
    ensures
        ({
            let s = slot_towards(w[q].occupant->Sprout_facing, d);
            &&& s is Some && 0 <= s->0 < 3
            &&& slot_dir(w[q].occupant->Sprout_facing, s->0) == d
            &&& slot_bids_on(g, params, w, q, s->0, j)
            &&& bids_on(g, params, w, q, j)
        }),
{
    let facing = w[q].occupant->Sprout_facing;
    lemma_ready(g, params, w, q);
    lemma_sides(facing, d);
    lemma_behind(g, w, q);
    let s = slot_towards(facing, d)->0;
    lemma_slot(g, w, q, s);
}

/// A sprout reaches for a cell in one direction only.
proof fn lemma_reaches_once(
    g: Grid,
    params: SimParams,
    w: Seq<CellView>,
    q: int,
    d: Direction,
    e: Direction,
    j: int,
)
    requires
        w.len() == g.cells(),
        reaches(g, params, w, q, d, j),
        reaches(g, params, w, q, e, j),
    ensures
        d == e,
{
    lemma_nbr_distinct(g, q, d, e);
}

proof fn lemma_bids_on_reaches(g: Grid, params: SimParams, w: Seq<CellView>, q: int, j: int) -> (d: Direction)
    requires
        w.len() == g.cells(),
        bids_on(g, params, w, q, j),
    ensures
        reaches(g, params, w, q, d, j),
        d == slot_dir(w[q].occupant->Sprout_facing, bid_slot(g, params, w, q, j)),
        0 <= bid_slot(g, params, w, q, j) < 3,
        slot_bids_on(g, params, w, q, bid_slot(g, params, w, q, j), j),
{
    let s = bid_slot(g, params, w, q, j);
    lemma_slot_reaches(g, params, w, q, s, j);
    slot_dir(w[q].occupant->Sprout_facing, s)
}

// ---------------------------------------------------------------------------
// Contests
// ---------------------------------------------------------------------------
/// If any of the first `m` sprouts bids for a cell, one of them is beaten by none of them.
proof fn lemma_best_of(g: Grid, params: SimParams, w: Seq<CellView>, j: int, m: nat) -> (best: Option<int>)
    ensures
        match best {
            Some(q) => {
                &&& 0 <= q < m
                &&& bids_on(g, params, w, q, j)
                &&& forall|r: int|
                    0 <= r < m && #[trigger] bids_on(g, params, w, r, j) ==> !beats(g, r, q, j)
            },
            None => forall|r: int| 0 <= r < m ==> !#[trigger] bids_on(g, params, w, r, j),
        },
    decreases m,
{
    if m == 0 {
        None
    } else {
        let before = lemma_best_of(g, params, w, j, (m - 1) as nat);
        let last = m - 1;
        if !bids_on(g, params, w, last, j) {
            before
        } else {
            match before {
                Some(q) => if beats(g, last, q, j) {
                    assert forall|r: int|
                        0 <= r < m && #[trigger] bids_on(g, params, w, r, j) implies !beats(
                        g,
                        r,
                        last,
                        j,
                    ) by {
                        if r < last {
                            assert(!beats(g, r, q, j));
                        }
                    }
                    Some(last)
                } else {
                    Some(q)
                },
                None => Some(last),
            }
        }
    }
}

proof fn lemma_winner_reaches(g: Grid, params: SimParams, w: Seq<CellView>, j: int)
    requires
        w.len() == g.cells(),
    ensures
        winner(g, params, w, j) is Some == reached(g, params, w, j),
        winner(g, params, w, j) matches Some(q) ==> {
            &&& wins(g, params, w, q, j)
            &&& 0 <= q < w.len()
        },
{
    let best = lemma_best_of(g, params, w, j, w.len());
    if let Some(q) = best {
        assert(wins(g, params, w, q, j));
        lemma_winner_unique(g, params, w, q, j);
        let d = lemma_bids_on_reaches(g, params, w, q, j);
        assert(reaches(g, params, w, q, d, j));
    } else {
        if reached(g, params, w, j) {
            let (q, d) = choose|q: int, d: Direction| #[trigger] reaches(g, params, w, q, d, j);
            lemma_reaches_slot(g, params, w, q, d, j);
            assert(bids_on(g, params, w, q, j));
        }
    }
}

/// Winning a cell is getting it.
proof fn lemma_gets(g: Grid, params: SimParams, w: Seq<CellView>, q: int, d: Direction, j: int)
    requires
        w.len() == g.cells(),
        reaches(g, params, w, q, d, j),
    ensures
        gets(g, params, w, q, d, j) == (winner(g, params, w, j) == Some(q)),
{
    lemma_reaches_slot(g, params, w, q, d, j);
    lemma_winner_reaches(g, params, w, j);
    assert(reached(g, params, w, j));
    let best = winner(g, params, w, j)->0;
    if best == q {
        assert forall|r: int, e: Direction| #[trigger] reaches(g, params, w, r, e, j) implies bid_of(
            g,
            q,
            j,
        ) < bid_of(g, r, j) || (bid_of(g, q, j) == bid_of(g, r, j) && q <= r) by {
            lemma_reaches_slot(g, params, w, r, e, j);
            assert(bids_on(g, params, w, r, j));
            assert(!beats(g, r, q, j));
        }
    }
    if gets(g, params, w, q, d, j) {
        assert forall|r: int| #[trigger] bids_on(g, params, w, r, j) implies !beats(g, r, q, j) by {
            let e = lemma_bids_on_reaches(g, params, w, r, j);
            assert(reaches(g, params, w, r, e, j));
        }
        assert(wins(g, params, w, q, j));
        lemma_winner_unique(g, params, w, q, j);
    }
}

/// Every cell that is reached for goes to exactly one sprout.
pub proof fn lemma_one_sprout_gets_the_cell(
    g: Grid,
    params: SimParams,
    w: Seq<CellView>,
    j: int,
)
    requires
        w.len() == g.cells(),
        reached(g, params, w, j),
    ensures
        exists|q: int, d: Direction| #[trigger] gets(g, params, w, q, d, j),
        forall|q: int, d: Direction, r: int, e: Direction| #[trigger]
            gets(g, params, w, q, d, j) && #[trigger] gets(g, params, w, r, e, j) ==> q == r && d == e,
{
    lemma_winner_reaches(g, params, w, j);
    let q = winner(g, params, w, j)->0;
    let d = lemma_bids_on_reaches(g, params, w, q, j);
    lemma_gets(g, params, w, q, d, j);
    assert(gets(g, params, w, q, d, j));
    assert forall|q: int, d: Direction, r: int, e: Direction| #[trigger]
        gets(g, params, w, q, d, j) && #[trigger] gets(g, params, w, r, e, j) implies q == r && d == e by {
        lemma_gets(g, params, w, q, d, j);
        lemma_gets(g, params, w, r, e, j);
        lemma_reaches_once(g, params, w, q, d, e, j);
    }
}

// ---------------------------------------------------------------------------
// Laws of growth
// ---------------------------------------------------------------------------
/// A sprout grows what its current gene says into every cell that it gets, and the cell is
/// marked with the mutation rate of its genome.
pub proof fn lemma_sprouts_grow_their_gene(
    g: Grid,
    params: SimParams,
    kernel: Kernel,
    w: Seq<CellView>,
    v: RngView,
    q: int,
    d: Direction,
    j: int,
)
    requires
        w.len() == g.cells(),
        gets(g, params, w, q, d, j),
    ensures
        0 <= j < w.len(),
        grown_by(
            params,
            w[q].occupant,
            d,
            rng_before(g, params, w, v, j as nat),
            growth(g, params, kernel, w, v)[j].occupant,
        ),
        growth(g, params, kernel, w, v)[j].lineage_mutation_rate
            == w[q].occupant->Sprout_genome.mutation_rate,
{
    lemma_nbr_in_world(g, q, dx_of(d), dy_of(d));
    lemma_gets(g, params, w, q, d, j);
    lemma_reaches_slot(g, params, w, q, d, j);
    let e = lemma_bids_on_reaches(g, params, w, q, j);
    lemma_reaches_once(g, params, w, q, d, e, j);
    let s = bid_slot(g, params, w, q, j);
    lemma_slot(g, w, q, s);
    let r = rng_before(g, params, w, v, j as nat);
    let occ = w[q].occupant;
    let genes = occ->Sprout_genome.genes;
    let next = genes[occ->Sprout_current_gene as int % (genes.len() as int)].next as int;
    lemma_below(next, genes.len() as int);
    assert(offshoot(params, w, q, s, r).0 is Some);
    assert(grown_cell(g, params, w, v, j) == occupied_cell(g, params, w, v, j, q));
    lemma_grown(g, params, kernel, w, v, j);
}

/// Copies are made one after another in scan order: each goes on with the random numbers
/// where the one before it stopped, and cells into which no seed or sprout grows use none.
pub proof fn lemma_copies_draw_in_turn(
    g: Grid,
    params: SimParams,
    w: Seq<CellView>,
    v: RngView,
    j: int,
)
    requires
        w.len() == g.cells(),
        0 <= j < w.len(),
    ensures
        rng_before(g, params, w, v, 0) == v,
        forall|q: int, d: Direction| #[trigger]
            gets(g, params, w, q, d, j) && (put_towards(w[q].occupant, d) == SlotProduct::Sprout
                || put_towards(w[q].occupant, d) == SlotProduct::Seed) ==> rng_before(
                g,
                params,
                w,
                v,
                (j + 1) as nat,
            ) == mutated(
                w[q].occupant->Sprout_genome,
                rng_before(g, params, w, v, j as nat),
            ).1,
        forall|q: int, d: Direction| #[trigger]
            gets(g, params, w, q, d, j) && put_towards(w[q].occupant, d) != SlotProduct::Sprout
                && put_towards(w[q].occupant, d) != SlotProduct::Seed ==> rng_before(
                g,
                params,
                w,
                v,
                (j + 1) as nat,
            ) == rng_before(g, params, w, v, j as nat),
        !reached(g, params, w, j) ==> rng_before(g, params, w, v, (j + 1) as nat) == rng_before(
            g,
            params,
            w,
            v,
            j as nat,
        ),
{
    lemma_winner_reaches(g, params, w, j);
    assert forall|q: int, d: Direction| #[trigger] gets(g, params, w, q, d, j) implies winner(
        g,
        params,
        w,
        j,
    ) == Some(q) && put_towards(w[q].occupant, d) == slot_product(
        w[q].occupant,
        bid_slot(g, params, w, q, j),
    ) by {
        lemma_gets(g, params, w, q, d, j);
        lemma_reaches_slot(g, params, w, q, d, j);
        let e = lemma_bids_on_reaches(g, params, w, q, j);
        lemma_reaches_once(g, params, w, q, d, e, j);
        lemma_slot(g, w, q, bid_slot(g, params, w, q, j));
    }
}

proof fn lemma_below(x: int, n: int)
    requires
        0 <= x < 256,
        n > 0,
    ensures
        0 <= x % n < 256,
{
    vstd::arithmetic::div_mod::lemma_mod_decreases(x as nat, n as nat);
}

proof fn lemma_grown(g: Grid, params: SimParams, kernel: Kernel, w: Seq<CellView>, v: RngView, j: int)
    requires
        0 <= j < w.len(),
    ensures
        growth(g, params, kernel, w, v).len() == w.len(),
        growth(g, params, kernel, w, v)[j].occupant == grown_cell(g, params, w, v, j).occupant,
        growth(g, params, kernel, w, v)[j].lineage_mutation_rate == grown_cell(
            g,
            params,
            w,
            v,
            j,
        ).lineage_mutation_rate,
        growth(g, params, kernel, w, v)[j].sunlit == w[j].sunlit,
{
    let cells = Seq::new(w.len(), |j: int| grown_cell(g, params, w, v, j));
    assert(growth(g, params, kernel, w, v)[j] == enriched(
        g,
        kernel,
        withered(g, params, w),
        cells,
        j,
    ));
    assert(cells[j] == grown_cell(g, params, w, v, j));
}

/// The stem that a sprout leaves where it grew: of its plant and clan, with its parent, with
/// what it had and ate less what it paid, with child links to the sprouts and seeds it grew
/// and connections to all it grew and to its parent.
pub open spec fn stem_of(
    g: Grid,
    params: SimParams,
    w: Seq<CellView>,
    q: int,
    stem: OccupantView,
) -> bool {
    let got = |d: Direction| nbr_dir(g, q, d) matches Some(j) && gets(g, params, w, q, d, j);
    let sum = w[q].occupant->Sprout_energy + all_around(
        |d: Direction|
            if got(d) {
                catch(g, w, q, d) - outlay(g, params, w, q, d)
            } else {
                0
            },
    );
    match (w[q].occupant, stem) {
        (
            OccupantView::Sprout { plant: p, clan: c, parent: up, .. },
            OccupantView::Stem { plant, clan, energy, connections, parent, children },
        ) => {
            &&& plant == p && clan == c && parent == up
            &&& energy as int == (if sum < 0 {
                0
            } else {
                at_most_full(sum)
            })
            &&& forall|d: Direction| #[trigger]
                has_dir(children, d) == (got(d) && (put_towards(w[q].occupant, d) == SlotProduct::Sprout
                    || put_towards(w[q].occupant, d) == SlotProduct::Seed))
            &&& forall|d: Direction| #[trigger]
                has_dir(connections, d) == (got(d) || up == Some(d))
        },
        _ => false,
    }
}

/// A cell for which nobody reaches: a sprout that can grow nowhere dies there, a sprout that
/// gets some cell becomes a stem, and whoever else stands there stays as it is.
pub proof fn lemma_where_nobody_reaches(
    g: Grid,
    params: SimParams,
    kernel: Kernel,
    w: Seq<CellView>,
    v: RngView,
    j: int,
)
    requires
        w.len() == g.cells(),
        0 <= j < w.len(),
        !reached(g, params, w, j),
    ensures
        ({
            let after = growth(g, params, kernel, w, v)[j];
            let grew = exists|d: Direction, t: int| #[trigger] gets(g, params, w, j, d, t);
            &&& after.lineage_mutation_rate == w[j].lineage_mutation_rate
            &&& can_read(w[j].occupant) && hemmed_in(g, w, j) ==> after.occupant is Empty
            &&& grew ==> stem_of(g, params, w, j, after.occupant)
            &&& !(can_read(w[j].occupant) && hemmed_in(g, w, j)) && !grew ==> after.occupant
                == w[j].occupant
        }),
{
    lemma_winner_reaches(g, params, w, j);
    lemma_grown(g, params, kernel, w, v, j);
    lemma_ready(g, params, w, j);
    let grew = exists|d: Direction, t: int| #[trigger] gets(g, params, w, j, d, t);
    if grower(w, j) {
        lemma_won(g, params, w, j, 0);
        lemma_won(g, params, w, j, 1);
        lemma_won(g, params, w, j, 2);
        let facing = w[j].occupant->Sprout_facing;
        let any = won(g, params, w, j, 0) || won(g, params, w, j, 1) || won(g, params, w, j, 2);
        if grew {
            let (d, t) = choose|d: Direction, t: int| #[trigger] gets(g, params, w, j, d, t);
            lemma_reaches_slot(g, params, w, j, d, t);
            assert(any);
        }
        if any {
            assert(grew);
            lemma_stem(g, params, w, j);
        }
    } else {
        if grew {
            let (d, t) = choose|d: Direction, t: int| #[trigger] gets(g, params, w, j, d, t);
            lemma_ready(g, params, w, j);
            assert(false);
        }
    }
}

/// Growing a slot is getting the cell in its direction.
proof fn lemma_won(g: Grid, params: SimParams, w: Seq<CellView>, q: int, s: int)
    requires
        w.len() == g.cells(),
        0 <= q < w.len(),
        grower(w, q),
        0 <= s < 3,
    ensures
        ({
            let d = slot_dir(w[q].occupant->Sprout_facing, s);
            won(g, params, w, q, s) == (nbr_dir(g, q, d) matches Some(j) && gets(g, params, w, q, d, j))
        }),
{
    let d = slot_dir(w[q].occupant->Sprout_facing, s);
    lemma_slot(g, w, q, s);
    lemma_ready(g, params, w, q);
    if bids(g, params, w, q, s) {
        let j = nbr_dir(g, q, d)->0;
        assert(slot_bids_on(g, params, w, q, s, j));
        lemma_slot_reaches(g, params, w, q, s, j);
        lemma_gets(g, params, w, q, d, j);
    }
}

/// Growing in a direction is getting the cell there.
proof fn lemma_towards(g: Grid, params: SimParams, w: Seq<CellView>, q: int, d: Direction)
    requires
        w.len() == g.cells(),
        0 <= q < w.len(),
        grower(w, q),
    ensures
        ({
            let got = nbr_dir(g, q, d) matches Some(j) && gets(g, params, w, q, d, j);
            let product = put_towards(w[q].occupant, d);
            &&& grows_towards(g, params, w, q, d) == got
            &&& bears_towards(g, params, w, q, d) == (got && (product == SlotProduct::Sprout || product
                == SlotProduct::Seed))
        }),
{
    let facing = w[q].occupant->Sprout_facing;
    lemma_sides(facing, d);
    lemma_behind(g, w, q);
    if let Some(s) = slot_towards(facing, d) {
        lemma_won(g, params, w, q, s);
        lemma_slot(g, w, q, s);
    }
}

/// What a sprout has after it has paid and eaten.
spec fn sum_of(g: Grid, params: SimParams, w: Seq<CellView>, q: int) -> int {
    let got = |d: Direction| nbr_dir(g, q, d) matches Some(j) && gets(g, params, w, q, d, j);
    w[q].occupant->Sprout_energy + all_around(
        |d: Direction|
            if got(d) {
                catch(g, w, q, d) - outlay(g, params, w, q, d)
            } else {
                0
            },
    )
}

proof fn lemma_sum(g: Grid, params: SimParams, w: Seq<CellView>, q: int)
    requires
        w.len() == g.cells(),
        0 <= q < w.len(),
        grower(w, q),
    ensures
        sum_of(g, params, w, q) == w[q].occupant->Sprout_energy + balance(g, params, w, q, 0) + balance(
            g,
            params,
            w,
            q,
            1,
        ) + balance(g, params, w, q, 2),
{
    let facing = w[q].occupant->Sprout_facing;
    let got = |d: Direction| nbr_dir(g, q, d) matches Some(j) && gets(g, params, w, q, d, j);
    let part = |d: Direction|
        if got(d) {
            catch(g, w, q, d) - outlay(g, params, w, q, d)
        } else {
            0
        };
    lemma_all_around(facing, part);
    lemma_behind(g, w, q);
    assert(!got(opposite(facing)));
    assert forall|s: int| 0 <= s < 3 implies #[trigger] balance(g, params, w, q, s) == part(
        slot_dir(facing, s),
    ) by {
        lemma_won(g, params, w, q, s);
        lemma_slot(g, w, q, s);
        assert(price(g, params, w, q, s) == outlay(g, params, w, q, slot_dir(facing, s)));
    }
    assert(balance(g, params, w, q, 0) == part(slot_dir(facing, 0)));
    assert(balance(g, params, w, q, 1) == part(slot_dir(facing, 1)));
    assert(balance(g, params, w, q, 2) == part(slot_dir(facing, 2)));
}

proof fn lemma_stem(g: Grid, params: SimParams, w: Seq<CellView>, q: int)
    requires
        w.len() == g.cells(),
        0 <= q < w.len(),
        grower(w, q),
    ensures
        stem_of(g, params, w, q, stem_left(g, params, w, q)),
{
    let occ = w[q].occupant;
    let up = occ->Sprout_parent;
    lemma_sum(g, params, w, q);
    lemma_mask_from(
        grows_towards(g, params, w, q, Direction::North) || up == Some(Direction::North),
        grows_towards(g, params, w, q, Direction::East) || up == Some(Direction::East),
        grows_towards(g, params, w, q, Direction::South) || up == Some(Direction::South),
        grows_towards(g, params, w, q, Direction::West) || up == Some(Direction::West),
    );
    lemma_mask_from(
        bears_towards(g, params, w, q, Direction::North),
        bears_towards(g, params, w, q, Direction::East),
        bears_towards(g, params, w, q, Direction::South),
        bears_towards(g, params, w, q, Direction::West),
    );
    let stem = stem_left(g, params, w, q);
    let got = |d: Direction| nbr_dir(g, q, d) matches Some(j) && gets(g, params, w, q, d, j);
    assert forall|d: Direction| #[trigger] has_dir(stem->Stem_children, d) == (got(d) && (put_towards(occ, d)
        == SlotProduct::Sprout || put_towards(occ, d) == SlotProduct::Seed)) by {
        lemma_towards(g, params, w, q, d);
    }
    assert forall|d: Direction| #[trigger] has_dir(stem->Stem_connections, d) == (got(d) || up == Some(d)) by {
        lemma_towards(g, params, w, q, d);
    }
}

/// Sprouts that die because they can grow nowhere enrich the soil around them; apart from
/// that, growth leaves the light and the soil as they are.
pub proof fn lemma_withered_sprouts_feed_the_soil(
    g: Grid,
    params: SimParams,
    kernel: Kernel,
    w: Seq<CellView>,
    v: RngView,
    j: int,
)
    requires
        w.len() == g.cells(),
        0 <= j < w.len(),
    ensures
        ({
            let after = growth(g, params, kernel, w, v);
            let left = |q: int|
                if 0 <= q < w.len() && can_read(w[q].occupant) && hemmed_in(g, w, q) && !reached(
                    g,
                    params,
                    w,
                    q,
                ) {
                    energy_of(w[q].occupant)
                } else {
                    None
                };
            &&& after.len() == w.len()
            &&& after[j].sunlit == w[j].sunlit
            &&& after[j].organic == at_most_full(w[j].organic + organic_left(g, kernel, left, j))
            &&& after[j].soil_energy == at_most_full(
                w[j].soil_energy + energy_left(g, kernel, left, j),
            )
        }),
{
    let cells = Seq::new(w.len(), |j: int| grown_cell(g, params, w, v, j));
    let dying = withered(g, params, w);
    let left = |q: int|
        if 0 <= q < w.len() && can_read(w[q].occupant) && hemmed_in(g, w, q) && !reached(
            g,
            params,
            w,
            q,
        ) {
            energy_of(w[q].occupant)
        } else {
            None
        };
    let raw = |q: int| dying[q];
    lemma_remains(g, kernel, dying, cells, j);
    assert(growth(g, params, kernel, w, v)[j] == enriched(g, kernel, dying, cells, j));
    assert(cells[j] == grown_cell(g, params, w, v, j));
    assert forall|dx: int, dy: int| true implies (#[trigger] nbr(g, j, dx, dy) matches Some(q) ==> raw(q)
        == left(q)) by {
        lemma_nbr_in_world(g, j, dx, dy);
        if let Some(q) = nbr(g, j, dx, dy) {
            lemma_ready(g, params, w, q);
            lemma_winner_reaches(g, params, w, q);
        }
    }
    lemma_left_alike(g, kernel, raw, left, j);
}

} // verus!
