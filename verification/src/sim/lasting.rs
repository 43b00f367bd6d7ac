//! What every tick keeps: the light, the clans and the bounds of the genomes.
use vstd::prelude::*;
use crate::genome::{lemma_copy_stays_in_bounds, mutated, permitted};
use crate::grid::Grid;
use crate::protocol::{CellView, ClanId, GenomeView, Kernel, OccupantView, SimParams, WorldGenParams};
use crate::rng::RngView;
use crate::sim::death::{bereft, death};
use crate::sim::germinate::{germinated_cell, germination};
use crate::sim::growth::{bid_slot, bids_on, grown_cell, growth, occupied_cell, offshoot, rng_before};
use crate::sim::growth::{winner, wins};
use crate::sim::pull::{pulled_cell, soil_pulls};
use crate::sim::push::{directed_push, pushed_cell};
use crate::sim::soil::{lit_cell, paid_cell, photosynthesis, regulation, upkeep};
use crate::sim::stem::{drainage, drained_cell, prune, pruned_cell};
use crate::sim::tick::{after_germination, after_growth, after_push, after_upkeep, tick, ticks, SimView};
use crate::world::{fresh_world, lemma_fresh_world_len, lemma_planting, planted};

verus! {

/// The clan of an occupant.
pub open spec fn clan_of(occ: OccupantView) -> Option<ClanId> {
    match occ {
        OccupantView::Empty => None,
        OccupantView::Leaf { clan, .. } => Some(clan),
        OccupantView::Root { clan, .. } => Some(clan),
        OccupantView::Stem { clan, .. } => Some(clan),
        OccupantView::Antenna { clan, .. } => Some(clan),
        OccupantView::Sprout { clan, .. } => Some(clan),
        OccupantView::Seed { clan, .. } => Some(clan),
    }
}

/// The genome that an occupant carries.
pub open spec fn genome_of(occ: OccupantView) -> Option<GenomeView> {
    match occ {
        OccupantView::Sprout { genome, .. } => Some(genome),
        OccupantView::Seed { genome, .. } => Some(genome),
        _ => None,
    }
}

/// An occupant whose genome, if it carries one, is permitted.
pub open spec fn bred(occ: OccupantView) -> bool {
    match genome_of(occ) {
        Some(g) => permitted(g),
        None => true,
    }
}

/// A world in which all genomes are permitted.
pub open spec fn well_bred(w: Seq<CellView>) -> bool {
    forall|i: int| 0 <= i < w.len() ==> bred((#[trigger] w[i]).occupant)
}

/// Whether some occupant of a world is of a clan.
pub open spec fn has_clan(w: Seq<CellView>, clan: ClanId) -> bool {
    exists|j: int| 0 <= j < w.len() && clan_of((#[trigger] w[j]).occupant) == Some(clan)
}

/// Whether a cell still has its light, its clan and its genome.
spec fn same_life(a: CellView, b: CellView) -> bool {
    &&& a.sunlit == b.sunlit
    &&& clan_of(a.occupant) == clan_of(b.occupant)
    &&& genome_of(a.occupant) == genome_of(b.occupant)
}

/// Up to germination, nobody is born and nobody dies.
proof fn lemma_before_growth(g: Grid, params: SimParams, s: SimView, i: int)
    requires
        0 <= i < s.world.len(),
    ensures
        after_germination(g, params, s).len() == s.world.len(),
        same_life(s.world[i], after_germination(g, params, s)[i]),
{
    let w0 = s.world;
    let w1 = photosynthesis(params, w0);
    let w2 = regulation(params, w1);
    let w3 = soil_pulls(g, params, w2);
    let w4 = upkeep(params, w3);
    let w5 = prune(g, w4);
    let w6 = drainage(g, w5);
    let w7 = directed_push(g, params, w6);
    let w8 = germination(g, params, w7, s.next_plant_id);
    assert(w4 == after_upkeep(g, params, w0));
    assert(w7 == after_push(g, params, w0));
    assert(w8 == after_germination(g, params, s));
    assert(w1[i] == lit_cell(params, w0[i]));
    assert(same_life(w0[i], w1[i]));
    assert(same_life(w1[i], w2[i]));
    assert(w3[i] == pulled_cell(g, params, w2, i));
    assert(same_life(w2[i], w3[i]));
    assert(w4[i] == paid_cell(params, w3[i]));
    assert(same_life(w3[i], w4[i]));
    assert(w5[i] == pruned_cell(g, w4, i));
    assert(same_life(w4[i], w5[i]));
    assert(w6[i] == drained_cell(g, w5, i));
    assert(same_life(w5[i], w6[i]));
    assert(w7[i] == pushed_cell(g, params, w6, i));
    assert(same_life(w6[i], w7[i]));
    assert(w8[i] == germinated_cell(g, params, w7, s.next_plant_id, i));
    assert(same_life(w7[i], w8[i]));
}

/// What grows is of its parent's clan and carries a permitted genome.
proof fn lemma_growth_inherits(
    g: Grid,
    params: SimParams,
    kernel: Kernel,
    w: Seq<CellView>,
    v: RngView,
    i: int,
)
    requires
        0 <= i < w.len(),
    ensures
        growth(g, params, kernel, w, v).len() == w.len(),
        growth(g, params, kernel, w, v)[i].sunlit == w[i].sunlit,
        clan_of(growth(g, params, kernel, w, v)[i].occupant) matches Some(c) ==> has_clan(w, c),
        well_bred(w) ==> bred(growth(g, params, kernel, w, v)[i].occupant),
{
    let after = growth(g, params, kernel, w, v)[i];
    let grown = grown_cell(g, params, w, v, i);
    assert(after.occupant == grown.occupant && after.sunlit == grown.sunlit);
    assert(bred(w[i].occupant) || !well_bred(w));
    match winner(g, params, w, i) {
        Some(q) => {
            assert(wins(g, params, w, q, i));
            assert(bids_on(g, params, w, q, i));
            assert(grown == occupied_cell(g, params, w, v, i, q));
            let parent = w[q].occupant;
            let slot = bid_slot(g, params, w, q, i);
            let rng = rng_before(g, params, w, v, i as nat);
            assert(parent is Sprout);
            assert(bred(w[q].occupant) || !well_bred(w));
            lemma_copy_stays_in_bounds(parent->Sprout_genome, rng);
            match offshoot(params, w, q, slot, rng).0 {
                Some(occ) => {
                    assert(clan_of(occ) == clan_of(parent));
                    assert(genome_of(occ) is None || genome_of(occ) == Some(
                        mutated(parent->Sprout_genome, rng).0,
                    ));
                    assert(clan_of(w[q].occupant) == clan_of(occ));
                },
                None => {
                    assert(clan_of(w[i].occupant) == clan_of(grown.occupant));
                },
            }
        },
        None => {
            if clan_of(grown.occupant) is Some {
                assert(clan_of(w[i].occupant) == clan_of(grown.occupant));
            }
        },
    }
}

/// Light never changes: a tick leaves every cell as sunlit as it was.
pub proof fn lemma_tick_keeps_light(g: Grid, params: SimParams, s: SimView, i: int)
    requires
        0 <= i < s.world.len(),
    ensures
        tick(g, params, s).world.len() == s.world.len(),
        tick(g, params, s).world[i].sunlit == s.world[i].sunlit,
{
    let w = after_germination(g, params, s);
    lemma_before_growth(g, params, s, i);
    lemma_growth_inherits(g, params, params.death_deposit_kernel, w, s.rng, i);
    let grown = after_growth(g, params, s);
    assert(death(g, params, grown)[i].sunlit == grown[i].sunlit);
}

/// Clans are inherited: a tick brings no clan into the world that was not there.
pub proof fn lemma_clans_are_inherited(g: Grid, params: SimParams, s: SimView, clan: ClanId)
    requires
        has_clan(tick(g, params, s).world, clan),
    ensures
        has_clan(s.world, clan),
{
    let w = after_germination(g, params, s);
    let grown = after_growth(g, params, s);
    let end = tick(g, params, s).world;
    let i = choose|i: int| 0 <= i < end.len() && clan_of((#[trigger] end[i]).occupant) == Some(clan);
    assert(end[i].occupant == bereft(g, params, grown, i));
    assert(clan_of(grown[i].occupant) == Some(clan));
    lemma_growth_inherits(g, params, params.death_deposit_kernel, w, s.rng, i);
    let j = choose|j: int| 0 <= j < w.len() && clan_of((#[trigger] w[j]).occupant) == Some(clan);
    lemma_before_growth(g, params, s, j);
    assert(clan_of(s.world[j].occupant) == Some(clan));
}

/// Genomes stay within their bounds: when all genomes of a world have a permitted size
/// and mutation rate, a tick keeps it so.
pub proof fn lemma_tick_keeps_genomes_permitted(g: Grid, params: SimParams, s: SimView)
    requires
        well_bred(s.world),
    ensures
        well_bred(tick(g, params, s).world),
{
    let w = after_germination(g, params, s);
    let grown = after_growth(g, params, s);
    let end = tick(g, params, s).world;
    if s.world.len() > 0 {
        lemma_before_growth(g, params, s, 0);
    }
    assert forall|i: int| 0 <= i < w.len() implies bred((#[trigger] w[i]).occupant) by {
        lemma_before_growth(g, params, s, i);
        assert(bred(s.world[i].occupant));
    }
    assert forall|i: int| 0 <= i < end.len() implies bred((#[trigger] end[i]).occupant) by {
        lemma_growth_inherits(g, params, params.death_deposit_kernel, w, s.rng, i);
        assert(end[i].occupant == bereft(g, params, grown, i));
    }
}

/// A freshly planted world holds permitted genomes only.
pub proof fn lemma_planted_genomes_are_permitted(
    params: WorldGenParams,
    spread: Option<Seq<u32>>,
    v: RngView,
)
    requires
        planted(params, spread, fresh_world(params), v).count <= u32::MAX,
    ensures
        well_bred(planted(params, spread, fresh_world(params), v).world),
{
    let w = fresh_world(params);
    lemma_fresh_world_len(params);
    lemma_planting(params, spread, w, v);
    let end = planted(params, spread, w, v).world;
    assert forall|i: int| 0 <= i < end.len() implies bred((#[trigger] end[i]).occupant) by {
        assert(w[i].occupant is Empty);
    }
}

/// However long the simulation runs, the light stays where it was, no clan comes in
/// from nowhere and the genomes stay within their bounds.
pub proof fn lemma_lasting(g: Grid, params: SimParams, s: SimView, n: nat)
    ensures
        ticks(g, params, s, n).world.len() == s.world.len(),
        forall|i: int|
            0 <= i < s.world.len() ==> (#[trigger] ticks(g, params, s, n).world[i]).sunlit
                == s.world[i].sunlit,
        forall|clan: ClanId| #[trigger]
            has_clan(ticks(g, params, s, n).world, clan) ==> has_clan(s.world, clan),
        well_bred(s.world) ==> well_bred(ticks(g, params, s, n).world),
    decreases n,
{
    if n > 0 {
        let before = ticks(g, params, s, (n - 1) as nat);
        let after = ticks(g, params, s, n);
        lemma_lasting(g, params, s, (n - 1) as nat);
        assert(after == tick(g, params, before));
        assert(after.world.len() == before.world.len()) by {
            if before.world.len() > 0 {
                lemma_tick_keeps_light(g, params, before, 0);
            }
        }
        assert forall|i: int| 0 <= i < s.world.len() implies (#[trigger] after.world[i]).sunlit
            == s.world[i].sunlit by {
            lemma_tick_keeps_light(g, params, before, i);
            assert(before.world[i].sunlit == s.world[i].sunlit);
        }
        assert forall|clan: ClanId| #[trigger] has_clan(after.world, clan) implies has_clan(
            s.world,
            clan,
        ) by {
            lemma_clans_are_inherited(g, params, before, clan);
            assert(has_clan(before.world, clan));
        }
        if well_bred(s.world) {
            lemma_tick_keeps_genomes_permitted(g, params, before);
        }
    }
}

} // verus!
