//! Upkeep of the stems' links: pruning links to cells that are gone or foreign,
//! and draining dead ends into the stem that leads to them.
use vstd::prelude::*;
use crate::grid::{bit_of, cell_mut, cell_ref, cell_towards, dir_at, dir_to_bitmask, dx_of, dy_of, has_dir};
use crate::grid::{lemma_cells_bound, lemma_nbr_in_world, lemma_nbr_symmetric, lemma_world_len, nbr_dir};
use crate::grid::{neighbor_cell, neighbor_in, nth_dir, opposite, opposite_dir, same_layout, shaped};
use crate::grid::{total_cells, world_of, Grid};
use crate::protocol::{CellView, Chunk, Direction, Energy, Occupant, OccupantView, PlantId};
use crate::sim::occupant::{is_dir, is_kin_alive, is_kin_descendable, is_kin_or_empty, kin_alive};
use crate::sim::occupant::{kin_descendable, kin_or_empty};

verus! {

/// New contents of the fields of a stem that link upkeep may change.
pub struct StemChange {
    pub idx: usize,
    pub energy: Energy,
    pub connections: u8,
    pub parent: Option<Direction>,
    pub children: u8,
}

/// A stem cell with some of its fields replaced; any other cell as it is.
pub open spec fn restemmed(
    c: CellView,
    new_energy: Energy,
    new_connections: u8,
    new_parent: Option<Direction>,
    new_children: u8,
) -> CellView {
    match c.occupant {
        OccupantView::Stem { plant, clan, .. } => CellView {
            occupant: OccupantView::Stem {
                plant,
                clan,
                energy: new_energy,
                connections: new_connections,
                parent: new_parent,
                children: new_children,
            },
            ..c
        },
        _ => c,
    }
}

/// Whether a change turns its stem into what the goal says.
pub open spec fn change_fits(ch: StemChange, w: Seq<CellView>, goal: Seq<CellView>) -> bool {
    &&& ch.idx < w.len()
    &&& goal[ch.idx as int] == restemmed(
        w[ch.idx as int],
        ch.energy,
        ch.connections,
        ch.parent,
        ch.children,
    )
}

/// Whether one of the first `m` changes is for cell `j`.
pub open spec fn listed(changes: Seq<StemChange>, j: int) -> bool {
    exists|k: int| 0 <= k < changes.len() && (#[trigger] changes[k]).idx == j
}

/// Write a list of changes that were computed from the state before any of them.
pub(crate) fn apply_stem_changes(
    chunks: &mut Vec<Chunk>,
    g: Grid,
    changes: &Vec<StemChange>,
    Ghost(goal): Ghost<Seq<CellView>>,
)
    requires
        shaped(old(chunks)@, g),
        goal.len() == g.cells(),
        forall|k: int|
            0 <= k < changes.len() ==> change_fits(
                #[trigger] changes@[k],
                world_of(old(chunks)@),
                goal,
            ),
        forall|j: int|
            0 <= j < goal.len() ==> #[trigger] goal[j] == world_of(old(chunks)@)[j] || listed(
                changes@,
                j,
            ),
    ensures
        same_layout(old(chunks)@, final(chunks)@),
        world_of(final(chunks)@) == goal,
{
    let ghost w = world_of(chunks@);
    proof {
        lemma_world_len(chunks@, g);
    }
    let mut k: usize = 0;
    while k < changes.len()
        invariant
            k <= changes.len(),
            w.len() == g.cells(),
            goal.len() == g.cells(),
            shaped(chunks@, g),
            same_layout(old(chunks)@, chunks@),
            forall|t: int| 0 <= t < changes.len() ==> change_fits(#[trigger] changes@[t], w, goal),
            world_of(chunks@).len() == w.len(),
            forall|j: int|
                0 <= j < w.len() ==> #[trigger] world_of(chunks@)[j] == w[j] || world_of(chunks@)[j]
                    == goal[j],
            forall|t: int|
                0 <= t < k ==> world_of(chunks@)[(#[trigger] changes@[t]).idx as int]
                    == goal[changes@[t].idx as int],
        decreases changes.len() - k,
    {
        let ch = &changes[k];
        assert(change_fits(changes@[k as int], w, goal));
        let cell = cell_mut(chunks, g, ch.idx);
        if let Occupant::Stem { energy, connections, parent, children, .. } = &mut cell.occupant {
            *energy = ch.energy;
            *connections = ch.connections;
            *parent = ch.parent;
            *children = ch.children;
        }
        k = k + 1;
    }
    assert forall|j: int| 0 <= j < w.len() implies #[trigger] world_of(chunks@)[j] == goal[j] by {
        if goal[j] != w[j] {
            assert(listed(changes@, j));
            let t = choose|t: int| 0 <= t < changes.len() && (#[trigger] changes@[t]).idx == j;
            assert(world_of(chunks@)[changes@[t].idx as int] == goal[changes@[t].idx as int]);
        }
    }
    assert(world_of(chunks@) =~= goal);
}

// ---------------------------------------------------------------------------
// Pruning
// ---------------------------------------------------------------------------
/// The mask that names exactly the given directions.
pub open spec fn mask_from(north: bool, east: bool, south: bool, west: bool) -> u8 {
    ((if north {
        1int
    } else {
        0
    }) + (if east {
        2int
    } else {
        0
    }) + (if south {
        4int
    } else {
        0
    }) + (if west {
        8int
    } else {
        0
    })) as u8
}

/// The mask names exactly the directions that it was made from.
pub proof fn lemma_mask_from(north: bool, east: bool, south: bool, west: bool)
    ensures
        has_dir(mask_from(north, east, south, west), Direction::North) == north,
        has_dir(mask_from(north, east, south, west), Direction::East) == east,
        has_dir(mask_from(north, east, south, west), Direction::South) == south,
        has_dir(mask_from(north, east, south, west), Direction::West) == west,
{
    let m = mask_from(north, east, south, west);
    assert(m < 16 ==> (m & 1u8 != 0) == (m % 2 == 1) && (m & 2u8 != 0) == ((m / 2) % 2 == 1) && (m
        & 4u8 != 0) == ((m / 4) % 2 == 1) && (m & 8u8 != 0) == ((m / 8) % 2 == 1)) by (bit_vector);
}

/// Whether a stem of `plant` at `i` keeps the child bit for direction `d`: its
/// neighbour there is a sprout, seed or stem of the same plant.
pub open spec fn keeps_child(
    g: Grid,
    w: Seq<CellView>,
    i: int,
    plant: PlantId,
    children: u8,
    d: Direction,
) -> bool {
    has_dir(children, d) && (cell_towards(g, w, i, d) matches Some(c) && kin_descendable(
        c.occupant,
        plant,
    ))
}

/// The parent that a stem of `plant` at `i` keeps: one that is still alive and of
/// the same plant.
pub open spec fn kept_parent(
    g: Grid,
    w: Seq<CellView>,
    i: int,
    plant: PlantId,
    parent: Option<Direction>,
) -> Option<Direction> {
    match parent {
        Some(d) => if cell_towards(g, w, i, d) matches Some(c) && kin_alive(c.occupant, plant) {
            Some(d)
        } else {
            None
        },
        None => None,
    }
}

/// Whether a stem of `plant` at `i` keeps the connection bit for direction `d`:
/// towards its living parent, towards kin and towards empty cells.
pub open spec fn keeps_connection(
    g: Grid,
    w: Seq<CellView>,
    i: int,
    plant: PlantId,
    connections: u8,
    parent: Option<Direction>,
    d: Direction,
) -> bool {
    has_dir(connections, d) && (parent == Some(d) || (cell_towards(g, w, i, d) matches Some(c)
        && kin_or_empty(c.occupant, plant)))
}

/// The child bits that a stem keeps.
pub open spec fn kept_children(
    g: Grid,
    w: Seq<CellView>,
    i: int,
    plant: PlantId,
    children: u8,
) -> u8 {
    mask_from(
        keeps_child(g, w, i, plant, children, Direction::North),
        keeps_child(g, w, i, plant, children, Direction::East),
        keeps_child(g, w, i, plant, children, Direction::South),
        keeps_child(g, w, i, plant, children, Direction::West),
    )
}

/// The connection bits that a stem keeps.
pub open spec fn kept_connections(
    g: Grid,
    w: Seq<CellView>,
    i: int,
    plant: PlantId,
    connections: u8,
    parent: Option<Direction>,
) -> u8 {
    mask_from(
        keeps_connection(g, w, i, plant, connections, parent, Direction::North),
        keeps_connection(g, w, i, plant, connections, parent, Direction::East),
        keeps_connection(g, w, i, plant, connections, parent, Direction::South),
        keeps_connection(g, w, i, plant, connections, parent, Direction::West),
    )
}

/// A cell after pruning.
pub open spec fn pruned_cell(g: Grid, w: Seq<CellView>, i: int) -> CellView {
    match w[i].occupant {
        OccupantView::Stem { plant, energy, connections, parent, children, .. } => {
            let new_parent = kept_parent(g, w, i, plant, parent);
            restemmed(
                w[i],
                energy,
                kept_connections(g, w, i, plant, connections, new_parent),
                new_parent,
                kept_children(g, w, i, plant, children),
            )
        },
        _ => w[i],
    }
}

/// The world after pruning.
pub open spec fn prune(g: Grid, w: Seq<CellView>) -> Seq<CellView> {
    Seq::new(w.len(), |i: int| pruned_cell(g, w, i))
}

/// Pruning only drops links: it adds no child, connection or parent, and changes
/// nothing else.
pub proof fn lemma_prune_only_drops(g: Grid, w: Seq<CellView>, i: int, d: Direction)
    requires
        0 <= i < w.len(),
    ensures
        match (w[i].occupant, prune(g, w)[i].occupant) {
            (
                OccupantView::Stem { plant, clan, energy, connections, parent, children },
                OccupantView::Stem {
                    plant: plant_after,
                    clan: clan_after,
                    energy: energy_after,
                    connections: connections_after,
                    parent: parent_after,
                    children: children_after,
                },
            ) => {
                &&& plant_after == plant && clan_after == clan && energy_after == energy
                &&& has_dir(children_after, d) ==> has_dir(children, d)
                &&& has_dir(connections_after, d) ==> has_dir(connections, d)
                &&& parent_after is Some ==> parent_after == parent
            },
            (before, after) => !(before is Stem) && after == before,
        },
        prune(g, w)[i] == (CellView { occupant: prune(g, w)[i].occupant, ..w[i] }),
{
    if let OccupantView::Stem { plant, connections, parent, children, .. } = w[i].occupant {
        lemma_mask_from(
            keeps_child(g, w, i, plant, children, Direction::North),
            keeps_child(g, w, i, plant, children, Direction::East),
            keeps_child(g, w, i, plant, children, Direction::South),
            keeps_child(g, w, i, plant, children, Direction::West),
        );
        let p = kept_parent(g, w, i, plant, parent);
        lemma_mask_from(
            keeps_connection(g, w, i, plant, connections, p, Direction::North),
            keeps_connection(g, w, i, plant, connections, p, Direction::East),
            keeps_connection(g, w, i, plant, connections, p, Direction::South),
            keeps_connection(g, w, i, plant, connections, p, Direction::West),
        );
    }
}

/// After pruning, every child link of a stem leads to a sprout, seed or stem of its
/// own plant, and its parent link to a living cell of its own plant.
pub proof fn lemma_prune_leaves_kin(g: Grid, w: Seq<CellView>, i: int, d: Direction)
    requires
        w.len() == g.cells(),
        0 <= i < w.len(),
    ensures
        prune(g, w)[i].occupant matches OccupantView::Stem { plant, parent, children, .. } ==> {
            &&& has_dir(children, d) ==> (cell_towards(g, prune(g, w), i, d) matches Some(c)
                && kin_descendable(c.occupant, plant))
            &&& parent == Some(d) ==> (cell_towards(g, prune(g, w), i, d) matches Some(c)
                && kin_alive(c.occupant, plant))
        },
{
    lemma_nbr_in_world(g, i, dx_of(d), dy_of(d));
    if let OccupantView::Stem { plant, children, .. } = w[i].occupant {
        lemma_mask_from(
            keeps_child(g, w, i, plant, children, Direction::North),
            keeps_child(g, w, i, plant, children, Direction::East),
            keeps_child(g, w, i, plant, children, Direction::South),
            keeps_child(g, w, i, plant, children, Direction::West),
        );
        if let Some(j) = nbr_dir(g, i, d) {
            assert(prune(g, w)[j] == pruned_cell(g, w, j));
        }
    }
}

/// Pruning looks no further than one step: what becomes of a cell depends on the cell
/// and its four neighbours alone.
pub proof fn lemma_prune_is_local(g: Grid, a: Seq<CellView>, b: Seq<CellView>, i: int)
    requires
        a.len() == b.len(),
        0 <= i < a.len(),
        a[i] == b[i],
        forall|d: Direction| #[trigger] cell_towards(g, a, i, d) == cell_towards(g, b, i, d),
    ensures
        prune(g, a)[i] == prune(g, b)[i],
{
    assert(cell_towards(g, a, i, Direction::North) == cell_towards(g, b, i, Direction::North));
    assert(cell_towards(g, a, i, Direction::East) == cell_towards(g, b, i, Direction::East));
    assert(cell_towards(g, a, i, Direction::South) == cell_towards(g, b, i, Direction::South));
    assert(cell_towards(g, a, i, Direction::West) == cell_towards(g, b, i, Direction::West));
}

/// How many of the first `m` cells pruning changes.
pub open spec fn prune_count(g: Grid, w: Seq<CellView>, m: nat) -> nat
    decreases m,
{
    if m == 0 {
        0
    } else {
        prune_count(g, w, (m - 1) as nat) + if pruned_cell(g, w, m - 1) != w[m - 1] {
            1nat
        } else {
            0
        }
    }
}

proof fn lemma_prune_count(g: Grid, w: Seq<CellView>, m: nat)
    ensures
        prune_count(g, w, m) <= m,
    decreases m,
{
    if m > 0 {
        lemma_prune_count(g, w, (m - 1) as nat);
    }
}

pub(crate) fn mask_from_flags(north: bool, east: bool, south: bool, west: bool) -> (mask: u8)
    ensures
        mask == mask_from(north, east, south, west),
{
    let n: u8 = if north {
        1
    } else {
        0
    };
    let e: u8 = if east {
        2
    } else {
        0
    };
    let s: u8 = if south {
        4
    } else {
        0
    };
    let w: u8 = if west {
        8
    } else {
        0
    };
    n + e + s + w
}

fn child_kept(
    chunks: &Vec<Chunk>,
    g: Grid,
    i: usize,
    plant: PlantId,
    children: u8,
    d: Direction,
) -> (keep: bool)
    requires
        shaped(chunks@, g),
        i < g.cells(),
    ensures
        keep == keeps_child(g, world_of(chunks@), i as int, plant, children, d),
{
    if children & dir_to_bitmask(d) == 0 {
        return false;
    }
    match neighbor_cell(chunks, g, i, d) {
        Some(c) => is_kin_descendable(&c.occupant, plant),
        None => false,
    }
}

fn connection_kept(
    chunks: &Vec<Chunk>,
    g: Grid,
    i: usize,
    plant: PlantId,
    connections: u8,
    parent: Option<Direction>,
    d: Direction,
) -> (keep: bool)
    requires
        shaped(chunks@, g),
        i < g.cells(),
    ensures
        keep == keeps_connection(g, world_of(chunks@), i as int, plant, connections, parent, d),
{
    if connections & dir_to_bitmask(d) == 0 {
        return false;
    }
    if is_dir(parent, d) {
        return true;
    }
    match neighbor_cell(chunks, g, i, d) {
        Some(c) => is_kin_or_empty(&c.occupant, plant),
        None => false,
    }
}

fn parent_kept(
    chunks: &Vec<Chunk>,
    g: Grid,
    i: usize,
    plant: PlantId,
    parent: Option<Direction>,
) -> (kept: Option<Direction>)
    requires
        shaped(chunks@, g),
        i < g.cells(),
    ensures
        kept == kept_parent(g, world_of(chunks@), i as int, plant, parent),
{
    match parent {
        Some(d) => match neighbor_cell(chunks, g, i, d) {
            Some(c) => if is_kin_alive(&c.occupant, plant) {
                Some(d)
            } else {
                None
            },
            None => None,
        },
        None => None,
    }
}

fn same_parent(a: Option<Direction>, b: Option<Direction>) -> (same: bool)
    ensures
        same == (a == b),
{
    match a {
        Some(d) => is_dir(b, d),
        None => b.is_none(),
    }
}

/// Drop the links of every stem whose neighbour there no longer deserves them.
/// Returns how many stems changed.
pub fn phase_prune_pull(chunks: &mut Vec<Chunk>, g: Grid) -> (changed: u64)
    requires
        shaped(old(chunks)@, g),
    ensures
        same_layout(old(chunks)@, final(chunks)@),
        world_of(final(chunks)@) == prune(g, world_of(old(chunks)@)),
        changed == prune_count(g, world_of(old(chunks)@), g.cells() as nat),
{
    let n: usize = total_cells(g);
    let ghost w = world_of(chunks@);
    proof {
        lemma_world_len(chunks@, g);
    }
    let mut changes: Vec<StemChange> = Vec::new();
    let mut i: usize = 0;
    while i < n
        invariant
            i <= n,
            n == g.cells(),
            shaped(chunks@, g),
            world_of(chunks@) == w,
            w.len() == n,
            changes.len() == prune_count(g, w, i as nat),
            forall|k: int|
                0 <= k < changes.len() ==> change_fits(#[trigger] changes@[k], w, prune(g, w)),
            forall|j: int|
                0 <= j < i ==> #[trigger] pruned_cell(g, w, j) == w[j] || listed(changes@, j),
        decreases n - i,
    {
        let cell = cell_ref(chunks, g, i);
        if let Occupant::Stem { plant, energy, connections, parent, children, .. } = &cell.occupant {
            let new_parent = parent_kept(chunks, g, i, *plant, *parent);
            let new_children: u8 = mask_from_flags(
                child_kept(chunks, g, i, *plant, *children, Direction::North),
                child_kept(chunks, g, i, *plant, *children, Direction::East),
                child_kept(chunks, g, i, *plant, *children, Direction::South),
                child_kept(chunks, g, i, *plant, *children, Direction::West),
            );
            let new_connections: u8 = mask_from_flags(
                connection_kept(chunks, g, i, *plant, *connections, new_parent, Direction::North),
                connection_kept(chunks, g, i, *plant, *connections, new_parent, Direction::East),
                connection_kept(chunks, g, i, *plant, *connections, new_parent, Direction::South),
                connection_kept(chunks, g, i, *plant, *connections, new_parent, Direction::West),
            );
            if new_children != *children || new_connections != *connections || !same_parent(
                new_parent,
                *parent,
            ) {
                let ghost before = changes@;
                changes.push(
                    StemChange {
                        idx: i,
                        energy: *energy,
                        connections: new_connections,
                        parent: new_parent,
                        children: new_children,
                    },
                );
                proof {
                    lemma_listed_grows(before, changes@, i as int);
                    assert(pruned_cell(g, w, i as int) != w[i as int]);
                }
            }
        }
        i = i + 1;
    }
    proof {
        assert forall|j: int| 0 <= j < n implies #[trigger] prune(g, w)[j] == w[j] || listed(
            changes@,
            j,
        ) by {
            assert(prune(g, w)[j] == pruned_cell(g, w, j));
        }
    }
    let changed: u64 = changes.len() as u64;
    apply_stem_changes(chunks, g, &changes, Ghost(prune(g, w)));
    changed
}

pub(crate) proof fn lemma_listed_grows(before: Seq<StemChange>, after: Seq<StemChange>, j: int)
    requires
        after.len() == before.len() + 1,
        forall|k: int| 0 <= k < before.len() ==> after[k] == before[k],
        after.last().idx == j,
    ensures
        listed(after, j),
        forall|m: int| listed(before, m) ==> listed(after, m),
{
    assert(after[before.len() as int].idx == j);
    assert forall|m: int| listed(before, m) implies listed(after, m) by {
        let k = choose|k: int| 0 <= k < before.len() && (#[trigger] before[k]).idx == m;
        assert(after[k].idx == m);
    }
}

// ---------------------------------------------------------------------------
// Drainage
// ---------------------------------------------------------------------------
/// The dead end that the stem at `p` drains in direction `d`: a stem of the same
/// plant without children of its own, at which one of its child bits points.
pub open spec fn drains(g: Grid, w: Seq<CellView>, p: int, d: Direction) -> Option<int> {
    match (w[p].occupant, nbr_dir(g, p, d)) {
        (OccupantView::Stem { plant, children, .. }, Some(q)) => match w[q].occupant {
            OccupantView::Stem { plant: other, children: below, .. } => if has_dir(children, d)
                && other == plant && below == 0 {
                Some(q)
            } else {
                None
            },
            _ => None,
        },
        _ => None,
    }
}

/// The neighbour in the `k`-th direction, if it drains the dead end at `q`.
pub open spec fn drainer_at(g: Grid, w: Seq<CellView>, q: int, k: int) -> Option<int> {
    match nbr_dir(g, q, dir_at(k)) {
        Some(p) => if drains(g, w, p, opposite(dir_at(k))) == Some(q) {
            Some(p)
        } else {
            None
        },
        None => None,
    }
}

/// The first stem in scan order, among the first `m` neighbours of `q`, that
/// drains the dead end at `q`.
pub open spec fn first_drainer(g: Grid, w: Seq<CellView>, q: int, m: nat) -> Option<int>
    decreases m,
{
    if m == 0 {
        None
    } else {
        match (first_drainer(g, w, q, (m - 1) as nat), drainer_at(g, w, q, m - 1)) {
            (Some(a), Some(b)) => if b < a {
                Some(b)
            } else {
                Some(a)
            },
            (Some(a), None) => Some(a),
            (None, other) => other,
        }
    }
}

/// What the stem at `p` collects from the dead ends in its first `m` directions.
/// A dead end that several stems drain gives everything to the first of them.
pub open spec fn collected(g: Grid, w: Seq<CellView>, p: int, m: nat) -> int
    decreases m,
{
    if m == 0 {
        0
    } else {
        collected(g, w, p, (m - 1) as nat) + match drains(g, w, p, dir_at(m - 1)) {
            Some(q) => match w[q].occupant {
                OccupantView::Stem { energy, .. } => if first_drainer(g, w, q, 4) == Some(p) {
                    energy as int
                } else {
                    0
                },
                _ => 0,
            },
            None => 0,
        }
    }
}

/// The directions in which the stem at `p` drains.
pub open spec fn drain_mask(g: Grid, w: Seq<CellView>, p: int) -> u8 {
    mask_from(
        drains(g, w, p, Direction::North) is Some,
        drains(g, w, p, Direction::East) is Some,
        drains(g, w, p, Direction::South) is Some,
        drains(g, w, p, Direction::West) is Some,
    )
}

/// A cell after drainage: a drained dead end is left without energy, and a stem
/// that drains collects what it can hold and drops the child bits it drained.
pub open spec fn drained_cell(g: Grid, w: Seq<CellView>, i: int) -> CellView {
    match w[i].occupant {
        OccupantView::Stem { energy, connections, parent, children, .. } => if children == 0 {
            restemmed(
                w[i],
                if first_drainer(g, w, i, 4) is Some {
                    0
                } else {
                    energy
                },
                connections,
                parent,
                children,
            )
        } else {
            restemmed(
                w[i],
                (if energy + collected(g, w, i, 4) > Energy::MAX {
                    Energy::MAX as int
                } else {
                    energy + collected(g, w, i, 4)
                }) as Energy,
                connections,
                parent,
                children & !drain_mask(g, w, i),
            )
        },
        _ => w[i],
    }
}

/// The world after drainage.
pub open spec fn drainage(g: Grid, w: Seq<CellView>) -> Seq<CellView> {
    Seq::new(w.len(), |i: int| drained_cell(g, w, i))
}

/// A dead end that some stem drains is left without energy, and the stem's link to it
/// is gone.
pub proof fn lemma_drained(g: Grid, w: Seq<CellView>, p: int, d: Direction)
    requires
        w.len() == g.cells(),
        0 <= p < w.len(),
        drains(g, w, p, d) is Some,
    ensures
        ({
            let q = drains(g, w, p, d)->0;
            &&& 0 <= q < w.len()
            &&& drainage(g, w)[q].occupant matches OccupantView::Stem { energy, .. } && energy == 0
            &&& drainage(g, w)[p].occupant matches OccupantView::Stem { children, .. } && !has_dir(
                children,
                d,
            )
        }),
{
    let q = drains(g, w, p, d)->0;
    lemma_nbr_in_world(g, p, dx_of(d), dy_of(d));
    lemma_nbr_symmetric(g, p, dx_of(d), dy_of(d));
    let o = opposite(d);
    assert(dx_of(o) == -dx_of(d) && dy_of(o) == -dy_of(d));
    let k: int = match o {
        Direction::North => 0,
        Direction::East => 1,
        Direction::South => 2,
        Direction::West => 3,
    };
    assert(dir_at(k) == o);
    assert(drainer_at(g, w, q, k) == Some(p)) by {
        assert(opposite(o) == d);
        assert(nbr_dir(g, q, o) == Some(p));
    }
    reveal_with_fuel(first_drainer, 5);
    assert(first_drainer(g, w, q, 4) is Some);
    assert(drainage(g, w)[q] == drained_cell(g, w, q));
    assert(drainage(g, w)[p] == drained_cell(g, w, p));
    let m = drain_mask(g, w, p);
    let c = w[p].occupant->Stem_children;
    lemma_mask_from(
        drains(g, w, p, Direction::North) is Some,
        drains(g, w, p, Direction::East) is Some,
        drains(g, w, p, Direction::South) is Some,
        drains(g, w, p, Direction::West) is Some,
    );
    assert(has_dir(m, d));
    let bit = bit_of(d);
    assert(m & bit != 0 && (bit == 1 || bit == 2 || bit == 4 || bit == 8) ==> (c & !m) & bit == 0)
        by (bit_vector);
    assert(0u8 & bit == 0) by (bit_vector);
}

/// In how many of its first `m` directions the stem at `p` drains.
pub open spec fn drain_links(g: Grid, w: Seq<CellView>, p: int, m: nat) -> nat
    decreases m,
{
    if m == 0 {
        0
    } else {
        drain_links(g, w, p, (m - 1) as nat) + if drains(g, w, p, dir_at(m - 1)) is Some {
            1nat
        } else {
            0
        }
    }
}

/// How many pairs of stem and dead end the first `m` cells drain.
pub open spec fn drain_count(g: Grid, w: Seq<CellView>, m: nat) -> nat
    decreases m,
{
    if m == 0 {
        0
    } else {
        drain_count(g, w, (m - 1) as nat) + drain_links(g, w, m - 1, 4)
    }
}

proof fn lemma_drain_count(g: Grid, w: Seq<CellView>, m: nat)
    ensures
        drain_count(g, w, m) <= 4 * m,
    decreases m,
{
    if m > 0 {
        lemma_drain_count(g, w, (m - 1) as nat);
        reveal_with_fuel(drain_links, 5);
    }
}

fn drain_target(chunks: &Vec<Chunk>, g: Grid, p: usize, d: Direction) -> (target: Option<usize>)
    requires
        shaped(chunks@, g),
        p < g.cells(),
    ensures
        match target {
            Some(q) => drains(g, world_of(chunks@), p as int, d) == Some(q as int) && q < g.cells(),
            None => drains(g, world_of(chunks@), p as int, d) is None,
        },
{
    let cell = cell_ref(chunks, g, p);
    if let Occupant::Stem { plant, children, .. } = &cell.occupant {
        if *children & dir_to_bitmask(d) != 0 {
            if let Some(q) = neighbor_in(g, p, d) {
                if let Occupant::Stem { plant: other, children: below, .. } = &cell_ref(
                    chunks,
                    g,
                    q,
                ).occupant {
                    if *other == *plant && *below == 0 {
                        return Some(q);
                    }
                }
            }
        }
    }
    None
}

fn first_draining(chunks: &Vec<Chunk>, g: Grid, q: usize) -> (first: Option<usize>)
    requires
        shaped(chunks@, g),
        q < g.cells(),
    ensures
        match first {
            Some(p) => first_drainer(g, world_of(chunks@), q as int, 4) == Some(p as int),
            None => first_drainer(g, world_of(chunks@), q as int, 4) is None,
        },
{
    let ghost w = world_of(chunks@);
    let mut first: Option<usize> = None;
    let mut k: usize = 0;
    while k < 4
        invariant
            k <= 4,
            shaped(chunks@, g),
            world_of(chunks@) == w,
            q < g.cells(),
            match first {
                Some(p) => first_drainer(g, w, q as int, k as nat) == Some(p as int),
                None => first_drainer(g, w, q as int, k as nat) is None,
            },
        decreases 4 - k,
    {
        let d = nth_dir(k);
        if let Some(p) = neighbor_in(g, q, d) {
            if let Some(t) = drain_target(chunks, g, p, opposite_dir(d)) {
                if t == q {
                    first = match first {
                        Some(a) => if p < a {
                            Some(p)
                        } else {
                            Some(a)
                        },
                        None => Some(p),
                    };
                }
            }
        }
        k = k + 1;
    }
    first
}

/// What a stem collects and in how many directions it drains.
fn collect(chunks: &Vec<Chunk>, g: Grid, p: usize) -> (got: (u32, u64))
    requires
        shaped(chunks@, g),
        p < g.cells(),
    ensures
        got.0 == collected(g, world_of(chunks@), p as int, 4),
        got.1 == drain_links(g, world_of(chunks@), p as int, 4),
{
    let ghost w = world_of(chunks@);
    let mut total: u32 = 0;
    let mut links: u64 = 0;
    let mut k: usize = 0;
    while k < 4
        invariant
            k <= 4,
            shaped(chunks@, g),
            world_of(chunks@) == w,
            p < g.cells(),
            total == collected(g, w, p as int, k as nat),
            0 <= total <= k * 65535,
            links == drain_links(g, w, p as int, k as nat),
            links <= k,
        decreases 4 - k,
    {
        let d = nth_dir(k);
        if let Some(q) = drain_target(chunks, g, p, d) {
            links = links + 1;
            if let Occupant::Stem { energy, .. } = &cell_ref(chunks, g, q).occupant {
                if let Some(first) = first_draining(chunks, g, q) {
                    if first == p {
                        total = total + *energy as u32;
                    }
                }
            }
        }
        k = k + 1;
    }
    (total, links)
}

/// Move the energy of dead ends into the stems that lead to them and drop the
/// links. Returns the number of drained links.
pub fn phase_drainage(chunks: &mut Vec<Chunk>, g: Grid) -> (drained: u64)
    requires
        shaped(old(chunks)@, g),
    ensures
        same_layout(old(chunks)@, final(chunks)@),
        world_of(final(chunks)@) == drainage(g, world_of(old(chunks)@)),
        drained == drain_count(g, world_of(old(chunks)@), g.cells() as nat),
{
    let n: usize = total_cells(g);
    let ghost w = world_of(chunks@);
    proof {
        lemma_world_len(chunks@, g);
        lemma_cells_bound(g);
    }
    let mut changes: Vec<StemChange> = Vec::new();
    let mut drained: u64 = 0;
    let mut i: usize = 0;
    while i < n
        invariant
            i <= n,
            n == g.cells(),
            n < 0x4000_0000_0000_0000,
            shaped(chunks@, g),
            world_of(chunks@) == w,
            w.len() == n,
            drained == drain_count(g, w, i as nat),
            drained <= 4 * i,
            forall|k: int|
                0 <= k < changes.len() ==> change_fits(#[trigger] changes@[k], w, drainage(g, w)),
            forall|j: int|
                0 <= j < i ==> #[trigger] drained_cell(g, w, j) == w[j] || listed(changes@, j),
        decreases n - i,
    {
        let cell = cell_ref(chunks, g, i);
        let ghost before = changes@;
        proof {
            lemma_drain_count(g, w, (i + 1) as nat);
            reveal_with_fuel(drain_links, 5);
            reveal_with_fuel(collected, 5);
        }
        if let Occupant::Stem { energy, connections, parent, children, .. } = &cell.occupant {
            if *children == 0 {
                assert(forall|b: u8| #[trigger] (0u8 & b) == 0u8) by (bit_vector);
                if first_draining(chunks, g, i).is_some() {
                    changes.push(
                        StemChange {
                            idx: i,
                            energy: 0,
                            connections: *connections,
                            parent: *parent,
                            children: *children,
                        },
                    );
                    proof {
                        lemma_listed_grows(before, changes@, i as int);
                    }
                }
            } else {
                let (got, links) = collect(chunks, g, i);
                let north = drain_target(chunks, g, i, Direction::North).is_some();
                let east = drain_target(chunks, g, i, Direction::East).is_some();
                let south = drain_target(chunks, g, i, Direction::South).is_some();
                let west = drain_target(chunks, g, i, Direction::West).is_some();
                let mask: u8 = mask_from_flags(north, east, south, west);
                drained = drained + links;
                if links > 0 {
                    let sum: u32 = *energy as u32 + got;
                    let new_energy: Energy = if sum > Energy::MAX as u32 {
                        Energy::MAX
                    } else {
                        sum as Energy
                    };
                    changes.push(
                        StemChange {
                            idx: i,
                            energy: new_energy,
                            connections: *connections,
                            parent: *parent,
                            children: *children & !mask,
                        },
                    );
                    proof {
                        lemma_listed_grows(before, changes@, i as int);
                    }
                } else {
                    let c: u8 = *children;
                    assert(c & !0u8 == c) by (bit_vector);
                }
            }
        }
        i = i + 1;
    }
    proof {
        assert forall|j: int| 0 <= j < n implies #[trigger] drainage(g, w)[j] == w[j] || listed(
            changes@,
            j,
        ) by {
            assert(drainage(g, w)[j] == drained_cell(g, w, j));
        }
    }
    apply_stem_changes(chunks, g, &changes, Ghost(drainage(g, w)));
    drained
}

} // verus!
