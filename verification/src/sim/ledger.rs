//! The energy balance of the phases: energy only ever moves or is lost, except
//! where light falls, soil recovers or sprouts grow.
use vstd::prelude::*;
use crate::grid::{bit_of, dir_at, dx_of, dy_of, has_dir, lemma_mask_dirs, lemma_nbr_distinct};
use crate::grid::{lemma_nbr_in_world, lemma_nbr_symmetric, mask_dirs, nbr, nbr_dir, opposite, Grid};
use crate::protocol::{CellView, Direction, Energy, Kernel, OccupantView, PlantId, SimParams};
use crate::sim::death::{bereft, death, dies, dying_energy};
use crate::sim::deposit::{given, kernel_sum, lemma_deposit_within_energy, per_unit, received};
use crate::sim::germinate::germination;
use crate::sim::occupant::{energy_of, parent_of, targets_of};
use crate::sim::pull::{demand, gain, gained, loss, off_dx, off_dy, pulled_cell, pulls, share, soil};
use crate::sim::pull::{soil_pulls, want, wanted, weight_at, SoilField};
use crate::sim::push::{directed_push, flow_from, inflow, lemma_outflow_within_surplus, outflow, per_target};
use crate::sim::push::pushed_cell;
use crate::sim::soil::{paid_cell, upkeep};
use crate::sim::stem::{collected, drainage, drained_cell, drainer_at, drains, first_drainer, prune};

verus! {

/// The sum of the first `n` values of a function.
pub open spec fn total(f: spec_fn(int) -> int, n: nat) -> int
    decreases n,
{
    if n == 0 {
        0
    } else {
        total(f, (n - 1) as nat) + f(n - 1)
    }
}

/// The energy that the occupant of a cell stores.
pub open spec fn stored_in(c: CellView) -> int {
    match energy_of(c.occupant) {
        Some(e) => e as int,
        None => 0,
    }
}

/// The energy that all occupants store.
pub open spec fn stored(w: Seq<CellView>) -> int {
    total(|i: int| stored_in(w[i]), w.len())
}

proof fn lemma_total_same(f: spec_fn(int) -> int, h: spec_fn(int) -> int, n: nat)
    requires
        forall|i: int| 0 <= i < n ==> #[trigger] f(i) == h(i),
    ensures
        total(f, n) == total(h, n),
    decreases n,
{
    if n > 0 {
        lemma_total_same(f, h, (n - 1) as nat);
    }
}

proof fn lemma_total_order(f: spec_fn(int) -> int, h: spec_fn(int) -> int, n: nat)
    requires
        forall|i: int| 0 <= i < n ==> #[trigger] f(i) <= h(i),
    ensures
        total(f, n) <= total(h, n),
    decreases n,
{
    if n > 0 {
        lemma_total_order(f, h, (n - 1) as nat);
    }
}

proof fn lemma_total_sum(
    f: spec_fn(int) -> int,
    a: spec_fn(int) -> int,
    b: spec_fn(int) -> int,
    n: nat,
)
    requires
        forall|i: int| 0 <= i < n ==> #[trigger] f(i) == a(i) + b(i),
    ensures
        total(f, n) == total(a, n) + total(b, n),
    decreases n,
{
    if n > 0 {
        lemma_total_sum(f, a, b, (n - 1) as nat);
    }
}

proof fn lemma_total_zero(f: spec_fn(int) -> int, n: nat)
    requires
        forall|i: int| 0 <= i < n ==> #[trigger] f(i) == 0,
    ensures
        total(f, n) == 0,
    decreases n,
{
    if n > 0 {
        lemma_total_zero(f, (n - 1) as nat);
    }
}

/// A function that is zero but at one place.
proof fn lemma_total_one(f: spec_fn(int) -> int, n: nat, at: int)
    requires
        0 <= at < n,
        forall|i: int| 0 <= i < n && i != at ==> #[trigger] f(i) == 0,
    ensures
        total(f, n) == f(at),
    decreases n,
{
    if at == n - 1 {
        lemma_total_zero(f, (n - 1) as nat);
    } else {
        lemma_total_one(f, (n - 1) as nat, at);
    }
}

/// Rows first or columns first, a rectangle has the same sum.
proof fn lemma_total_swap(f: spec_fn(int, int) -> int, n: nat, m: nat)
    ensures
        total(|i: int| total(|j: int| f(i, j), m), n) == total(
            |j: int| total(|i: int| f(i, j), n),
            m,
        ),
    decreases n,
{
    let rows = |i: int| total(|j: int| f(i, j), m);
    let cols = |k: nat| |j: int| total(|i: int| f(i, j), k);
    if n == 0 {
        lemma_total_zero(cols(0), m);
        lemma_total_same(cols(0), |j: int| total(|i: int| f(i, j), 0), m);
    } else {
        let k = (n - 1) as nat;
        lemma_total_swap(f, k, m);
        lemma_total_same(cols(k), |j: int| total(|i: int| f(i, j), k), m);
        let last = |j: int| f(n - 1, j);
        let whole = |j: int| total(|i: int| f(i, j), n);
        assert forall|j: int| 0 <= j < m implies #[trigger] whole(j) == cols(k)(j) + last(j) by {
            lemma_total_same(|i: int| f(i, j), |i: int| f(i, j), k);
        }
        lemma_total_sum(whole, cols(k), last, m);
    }
}

/// What a cell sends one step away.
pub open spec fn sent(g: Grid, dx: int, dy: int, flow: spec_fn(int, int) -> int, i: int) -> int {
    match nbr(g, i, dx, dy) {
        Some(j) => flow(i, j),
        None => 0,
    }
}

/// What a cell gets from the cell from which it is that step away.
pub open spec fn got(g: Grid, dx: int, dy: int, flow: spec_fn(int, int) -> int, j: int) -> int {
    match nbr(g, j, -dx, -dy) {
        Some(i) => flow(i, j),
        None => 0,
    }
}

/// All that is sent one step away arrives somewhere, once.
pub proof fn lemma_sent_is_got(g: Grid, dx: int, dy: int, flow: spec_fn(int, int) -> int, n: nat)
    requires
        n == g.cells(),
    ensures
        total(|i: int| sent(g, dx, dy, flow, i), n) == total(|j: int| got(g, dx, dy, flow, j), n),
{
    let f = |i: int, j: int|
        if nbr(g, i, dx, dy) == Some(j) {
            flow(i, j)
        } else {
            0
        };
    let s = |i: int| sent(g, dx, dy, flow, i);
    let r = |j: int| got(g, dx, dy, flow, j);
    let rows = |i: int| total(|j: int| f(i, j), n);
    let cols = |j: int| total(|i: int| f(i, j), n);
    assert forall|i: int| 0 <= i < n implies #[trigger] s(i) == rows(i) by {
        lemma_nbr_in_world(g, i, dx, dy);
        match nbr(g, i, dx, dy) {
            Some(j) => lemma_total_one(|j: int| f(i, j), n, j),
            None => lemma_total_zero(|j: int| f(i, j), n),
        }
    }
    assert forall|j: int| 0 <= j < n implies #[trigger] r(j) == cols(j) by {
        lemma_nbr_in_world(g, j, -dx, -dy);
        lemma_nbr_symmetric(g, j, -dx, -dy);
        assert forall|i: int| 0 <= i < n && nbr(g, i, dx, dy) == Some(j) implies nbr(g, j, -dx, -dy)
            == Some(i) by {
            lemma_nbr_symmetric(g, i, dx, dy);
        }
        match nbr(g, j, -dx, -dy) {
            Some(i) => lemma_total_one(|i: int| f(i, j), n, i),
            None => lemma_total_zero(|i: int| f(i, j), n),
        }
    }
    lemma_total_same(s, rows, n);
    lemma_total_same(r, cols, n);
    lemma_total_swap(f, n, n);
}

// ---------------------------------------------------------------------------
// Push
// ---------------------------------------------------------------------------
/// What cell `i` pushes in its `k`-th direction.
spec fn pushed(params: SimParams, w: Seq<CellView>, k: int) -> spec_fn(int, int) -> int {
    |i: int, j: int|
        if targets_of(w[i].occupant).contains(dir_at(k)) {
            per_target(params, w[i].occupant)
        } else {
            0
        }
}

/// Each target is one of the four directions, and each direction is a target at most
/// once.
proof fn lemma_targets_counted(params: SimParams, occ: OccupantView)
    ensures
        ({
            let t = targets_of(occ);
            let p = per_target(params, occ);
            let at = |k: int|
                if t.contains(dir_at(k)) {
                    p
                } else {
                    0
                };
            at(0) + at(1) + at(2) + at(3) == outflow(params, occ)
        }),
{
    let t = targets_of(occ);
    let p = per_target(params, occ);
    match occ {
        OccupantView::Stem { children, .. } => {
            lemma_mask_dirs(children, Direction::North);
            lemma_mask_dirs(children, Direction::East);
            lemma_mask_dirs(children, Direction::South);
            lemma_mask_dirs(children, Direction::West);
            reveal_with_fuel(mask_dirs, 5);
            let n = (if has_dir(children, Direction::North) {
                1int
            } else {
                0
            }) + (if has_dir(children, Direction::East) {
                1int
            } else {
                0
            }) + (if has_dir(children, Direction::South) {
                1int
            } else {
                0
            }) + (if has_dir(children, Direction::West) {
                1int
            } else {
                0
            });
            assert(t.len() == n);
            assert(p * t.len() == p * n);
            assert(p * 0 == 0 && p * 1 == p && p * 2 == p + p && p * 3 == p + p + p && p * 4 == p + p
                + p + p) by (nonlinear_arith);
        },
        _ => {
            if t.len() > 0 {
                let d = parent_of(occ)->0;
                assert(t[0] == d);
                assert(t.contains(d));
                assert forall|k: int| 0 <= k < 4 implies (#[trigger] t.contains(dir_at(k)) == (
                dir_at(k) == d)) by {
                    if t.contains(dir_at(k)) {
                        let q = choose|q: int| 0 <= q < t.len() && t[q] == dir_at(k);
                        assert(q == 0);
                    }
                }
                assert(p * 1 == p);
            } else {
                assert(t =~= Seq::<Direction>::empty());
            }
        },
    }
}

/// What flows in comes from the four directions.
proof fn lemma_flow_is_got(g: Grid, params: SimParams, w: Seq<CellView>, j: int, k: int)
    requires
        0 <= k < 4,
    ensures
        flow_from(g, params, w, j, k) == got(
            g,
            dx_of(opposite(dir_at(k))),
            dy_of(opposite(dir_at(k))),
            pushed(params, w, (k + 2) % 4),
            j,
        ),
{
    assert(dir_at((k + 2) % 4) == opposite(dir_at(k)));
}

/// The push makes no energy: what it does not move to another occupant is lost.
pub proof fn lemma_push_makes_no_energy(g: Grid, params: SimParams, w: Seq<CellView>)
    requires
        w.len() == g.cells(),
    ensures
        stored(directed_push(g, params, w)) <= stored(w),
{
    let n = w.len();
    let old_e = |i: int| stored_in(w[i]);
    let out = |i: int| outflow(params, w[i].occupant);
    let inn = |j: int| inflow(g, params, w, j);
    let way = |k: int| |i: int|
        sent(g, dx_of(dir_at(k)), dy_of(dir_at(k)), pushed(params, w, k), i);
    let from = |k: int| |j: int| flow_from(g, params, w, j, k);
    // All that flows in was sent.
    assert forall|k: int| 0 <= k < 4 implies total(#[trigger] from(k), n) == total(
        way((k + 2) % 4),
        n,
    ) by {
        let o = (k + 2) % 4;
        let d = dir_at(o);
        assert(d == opposite(dir_at(k)));
        let r = |j: int| got(g, dx_of(d), dy_of(d), pushed(params, w, o), j);
        assert forall|j: int| 0 <= j < n implies #[trigger] from(k)(j) == r(j) by {
            lemma_flow_is_got(g, params, w, j, k);
        }
        lemma_total_same(from(k), r, n);
        lemma_sent_is_got(g, dx_of(d), dy_of(d), pushed(params, w, o), n);
        lemma_total_same(
            way(o),
            |i: int| sent(g, dx_of(d), dy_of(d), pushed(params, w, o), i),
            n,
        );
    }
    let f01 = |j: int| from(0)(j) + from(1)(j);
    let f012 = |j: int| f01(j) + from(2)(j);
    lemma_total_sum(f01, from(0), from(1), n);
    lemma_total_sum(f012, f01, from(2), n);
    lemma_total_sum(inn, f012, from(3), n);
    let s01 = |i: int| way(0)(i) + way(1)(i);
    let s012 = |i: int| s01(i) + way(2)(i);
    let s = |i: int| s012(i) + way(3)(i);
    lemma_total_sum(s01, way(0), way(1), n);
    lemma_total_sum(s012, s01, way(2), n);
    lemma_total_sum(s, s012, way(3), n);
    // All that is sent left somebody's store.
    assert forall|i: int| 0 <= i < n implies #[trigger] s(i) <= out(i) by {
        lemma_targets_counted(params, w[i].occupant);
        lemma_outflow_within_surplus(params, w[i].occupant);
    }
    lemma_total_order(s, out, n);
    assert(total(inn, n) <= total(out, n));
    // Every store changes by what flows in and out, or by less.
    let new_e = |j: int| stored_in(directed_push(g, params, w)[j]);
    let bound = |j: int| old_e(j) + inn(j);
    let left = |j: int| new_e(j) + out(j);
    assert forall|j: int| 0 <= j < n implies #[trigger] left(j) <= bound(j) by {
        lemma_outflow_within_surplus(params, w[j].occupant);
        lemma_inflow_nonneg(g, params, w, j);
        assert(directed_push(g, params, w)[j] == pushed_cell(g, params, w, j));
    }
    lemma_total_order(left, bound, n);
    lemma_total_sum(left, new_e, out, n);
    lemma_total_sum(bound, old_e, inn, n);
    lemma_total_same(new_e, |i: int| stored_in(directed_push(g, params, w)[i]), n);
    lemma_total_same(old_e, |i: int| stored_in(w[i]), n);
}

proof fn lemma_inflow_nonneg(g: Grid, params: SimParams, w: Seq<CellView>, j: int)
    ensures
        0 <= inflow(g, params, w, j),
{
    assert forall|k: int| 0 <= #[trigger] flow_from(g, params, w, j, k) by {
        if let Some(q) = nbr_dir(g, j, dir_at(k)) {
            lemma_outflow_within_surplus(params, w[q].occupant);
        }
    }
}

// ---------------------------------------------------------------------------
// Phases that touch each store by itself
// ---------------------------------------------------------------------------
/// Upkeep only takes.
pub proof fn lemma_upkeep_makes_no_energy(params: SimParams, w: Seq<CellView>)
    ensures
        stored(upkeep(params, w)) <= stored(w),
{
    let n = w.len();
    let before = |i: int| stored_in(w[i]);
    let after = |i: int| stored_in(upkeep(params, w)[i]);
    assert forall|i: int| 0 <= i < n implies #[trigger] after(i) <= before(i) by {
        assert(upkeep(params, w)[i] == paid_cell(params, w[i]));
    }
    lemma_total_order(after, before, n);
}

/// Pruning moves no energy.
pub proof fn lemma_prune_keeps_energy(g: Grid, w: Seq<CellView>)
    ensures
        stored(prune(g, w)) == stored(w),
{
    let n = w.len();
    lemma_total_same(|i: int| stored_in(prune(g, w)[i]), |i: int| stored_in(w[i]), n);
}

/// Germination moves no energy: a sprout starts with what its seed had.
pub proof fn lemma_germination_keeps_energy(
    g: Grid,
    params: SimParams,
    w: Seq<CellView>,
    next_id: PlantId,
)
    ensures
        stored(germination(g, params, w, next_id)) == stored(w),
{
    let n = w.len();
    lemma_total_same(
        |i: int| stored_in(germination(g, params, w, next_id)[i]),
        |i: int| stored_in(w[i]),
        n,
    );
}

// ---------------------------------------------------------------------------
// Drainage
// ---------------------------------------------------------------------------
/// What the dead end at `q` gives up.
spec fn drained_from(g: Grid, w: Seq<CellView>, q: int) -> int {
    if first_drainer(g, w, q, 4) is Some {
        stored_in(w[q])
    } else {
        0
    }
}

/// What the stem at `p` draws from the dead end at `q` in its `k`-th direction.
spec fn drawn(g: Grid, w: Seq<CellView>, k: int) -> spec_fn(int, int) -> int {
    |p: int, q: int|
        if drains(g, w, p, dir_at(k)) == Some(q) && first_drainer(g, w, q, 4) == Some(p) {
            stored_in(w[q])
        } else {
            0
        }
}

proof fn lemma_first_drainer(g: Grid, w: Seq<CellView>, q: int, m: nat)
    requires
        m <= 4,
    ensures
        first_drainer(g, w, q, m) is Some ==> (w[q].occupant matches OccupantView::Stem {
            children,
            ..
        } && children == 0),
    decreases m,
{
    if m > 0 {
        lemma_first_drainer(g, w, q, (m - 1) as nat);
    }
}

/// The neighbour to which a dead end gives its energy leads to it by a child bit.
proof fn lemma_first_drainer_found(g: Grid, w: Seq<CellView>, q: int, m: nat) -> (k: int)
    requires
        m <= 4,
        first_drainer(g, w, q, m) is Some,
    ensures
        0 <= k < 4,
        drainer_at(g, w, q, k) == first_drainer(g, w, q, m),
    decreases m,
{
    if drainer_at(g, w, q, m - 1) == first_drainer(g, w, q, m) {
        m - 1
    } else {
        lemma_first_drainer_found(g, w, q, (m - 1) as nat)
    }
}

/// Exactly one of a drained dead end's neighbours draws from it, and all it has.
proof fn lemma_drawn_once(g: Grid, w: Seq<CellView>, q: int)
    requires
        w.len() == g.cells(),
        0 <= q < w.len(),
    ensures
        ({
            let r = |k: int| got(g, dx_of(dir_at(k)), dy_of(dir_at(k)), drawn(g, w, k), q);
            r(0) + r(1) + r(2) + r(3) == drained_from(g, w, q)
        }),
{
    let r = |k: int| got(g, dx_of(dir_at(k)), dy_of(dir_at(k)), drawn(g, w, k), q);
    let first = first_drainer(g, w, q, 4);
    assert forall|a: int, b: int| 0 <= a < b < 4 implies #[trigger] r(a) == 0 || #[trigger] r(b) == 0 by {
        let da = opposite(dir_at(a));
        let db = opposite(dir_at(b));
        assert(dx_of(da) == -dx_of(dir_at(a)) && dy_of(da) == -dy_of(dir_at(a)));
        assert(dx_of(db) == -dx_of(dir_at(b)) && dy_of(db) == -dy_of(dir_at(b)));
        if r(a) != 0 && r(b) != 0 {
            assert(nbr_dir(g, q, da) == first && nbr_dir(g, q, db) == first);
            lemma_nbr_distinct(g, q, da, db);
            assert(false);
        }
    }
    assert forall|k: int| 0 <= k < 4 implies 0 <= #[trigger] r(k) <= drained_from(g, w, q) by {}
    assert(r(0) == 0 || r(1) == 0);
    assert(r(0) == 0 || r(2) == 0);
    assert(r(0) == 0 || r(3) == 0);
    assert(r(1) == 0 || r(2) == 0);
    assert(r(1) == 0 || r(3) == 0);
    assert(r(2) == 0 || r(3) == 0);
    if first is Some {
        let k = lemma_first_drainer_found(g, w, q, 4);
        let o = opposite(dir_at(k));
        let back: int = match o {
            Direction::North => 0,
            Direction::East => 1,
            Direction::South => 2,
            Direction::West => 3,
        };
        assert(dir_at(back) == o);
        assert(dx_of(o) == -dx_of(dir_at(k)) && dy_of(o) == -dy_of(dir_at(k)));
        assert(nbr_dir(g, q, dir_at(k)) == first);
        assert(r(back) == stored_in(w[q]));
    }
}

/// Whether every stem can hold what drainage brings it.
pub open spec fn drainage_fits(g: Grid, w: Seq<CellView>) -> bool {
    forall|i: int|
        0 <= i < w.len() ==> stored_in(w[i]) + #[trigger] collected(g, w, i, 4) <= Energy::MAX
}

/// Drainage makes no energy: a dead end's energy goes to one stem, once. Where every
/// stem can hold what it is brought, none is lost either.
pub proof fn lemma_drainage_makes_no_energy(g: Grid, w: Seq<CellView>)
    requires
        w.len() == g.cells(),
    ensures
        stored(drainage(g, w)) <= stored(w),
        drainage_fits(g, w) ==> stored(drainage(g, w)) == stored(w),
{
    let n = w.len();
    let way = |k: int| |p: int| sent(g, dx_of(dir_at(k)), dy_of(dir_at(k)), drawn(g, w, k), p);
    let from = |k: int| |q: int| got(g, dx_of(dir_at(k)), dy_of(dir_at(k)), drawn(g, w, k), q);
    assert forall|k: int| 0 <= k < 4 implies total(#[trigger] way(k), n) == total(from(k), n) by {
        let d = dir_at(k);
        lemma_sent_is_got(g, dx_of(d), dy_of(d), drawn(g, w, k), n);
        lemma_total_same(way(k), |i: int| sent(g, dx_of(d), dy_of(d), drawn(g, w, k), i), n);
        lemma_total_same(from(k), |j: int| got(g, dx_of(d), dy_of(d), drawn(g, w, k), j), n);
    }
    let s01 = |p: int| way(0)(p) + way(1)(p);
    let s012 = |p: int| s01(p) + way(2)(p);
    let take = |p: int| s012(p) + way(3)(p);
    lemma_total_sum(s01, way(0), way(1), n);
    lemma_total_sum(s012, s01, way(2), n);
    lemma_total_sum(take, s012, way(3), n);
    let f01 = |q: int| from(0)(q) + from(1)(q);
    let f012 = |q: int| f01(q) + from(2)(q);
    let give = |q: int| f012(q) + from(3)(q);
    lemma_total_sum(f01, from(0), from(1), n);
    lemma_total_sum(f012, f01, from(2), n);
    lemma_total_sum(give, f012, from(3), n);
    let lost = |q: int| drained_from(g, w, q);
    assert forall|q: int| 0 <= q < n implies #[trigger] give(q) == lost(q) by {
        lemma_drawn_once(g, w, q);
    }
    lemma_total_same(give, lost, n);
    let old_e = |i: int| stored_in(w[i]);
    let new_e = |i: int| stored_in(drainage(g, w)[i]);
    let bound = |i: int| old_e(i) + take(i);
    let left = |i: int| new_e(i) + lost(i);
    assert forall|i: int| 0 <= i < n implies #[trigger] left(i) <= bound(i) by {
        assert(drainage(g, w)[i] == drained_cell(g, w, i));
        lemma_first_drainer(g, w, i, 4);
        lemma_collected(g, w, i, 4);
        reveal_with_fuel(drawn_upto, 5);
        assert(take(i) == drawn_upto(g, w, i, 4));
    }
    lemma_total_order(left, bound, n);
    if drainage_fits(g, w) {
        assert forall|i: int| 0 <= i < n implies #[trigger] left(i) == bound(i) by {
            assert(drainage(g, w)[i] == drained_cell(g, w, i));
            lemma_first_drainer(g, w, i, 4);
            lemma_collected(g, w, i, 4);
            lemma_dead_end_draws_nothing(g, w, i, 4);
            reveal_with_fuel(drawn_upto, 5);
            assert(take(i) == drawn_upto(g, w, i, 4));
        }
        lemma_total_same(left, bound, n);
    }
    lemma_total_sum(left, new_e, lost, n);
    lemma_total_sum(bound, old_e, take, n);
}

proof fn lemma_dead_end_draws_nothing(g: Grid, w: Seq<CellView>, p: int, m: nat)
    ensures
        collected(g, w, p, m) == 0 || (w[p].occupant matches OccupantView::Stem { children, .. }
            && children != 0),
    decreases m,
{
    if m > 0 {
        lemma_dead_end_draws_nothing(g, w, p, (m - 1) as nat);
        let d = dir_at(m - 1);
        let bit = bit_of(d);
        assert(0u8 & bit == 0) by (bit_vector);
        assert(!has_dir(0, d));
    }
}

spec fn drawn_upto(g: Grid, w: Seq<CellView>, p: int, m: nat) -> int
    decreases m,
{
    if m == 0 {
        0
    } else {
        drawn_upto(g, w, p, (m - 1) as nat) + sent(
            g,
            dx_of(dir_at(m - 1)),
            dy_of(dir_at(m - 1)),
            drawn(g, w, m - 1),
            p,
        )
    }
}

proof fn lemma_collected(g: Grid, w: Seq<CellView>, p: int, m: nat)
    ensures
        collected(g, w, p, m) == drawn_upto(g, w, p, m),
        0 <= collected(g, w, p, m),
    decreases m,
{
    if m > 0 {
        lemma_collected(g, w, p, (m - 1) as nat);
    }
}

// ---------------------------------------------------------------------------
// Soil pulls
// ---------------------------------------------------------------------------
/// All that a cell holds: what its occupant stores, and what its soil holds.
pub open spec fn wealth_in(c: CellView) -> int {
    stored_in(c) + c.organic + c.soil_energy
}

/// All that the world holds.
pub open spec fn wealth(w: Seq<CellView>) -> int {
    total(|i: int| wealth_in(w[i]), w.len())
}

/// What a cell that pulls gets of cell `j` through its `k`-th kernel place.
spec fn pulled(g: Grid, kernel: Kernel, field: SoilField, w: Seq<CellView>, k: int) -> spec_fn(
    int,
    int,
) -> int {
    |p: int, j: int|
        if pulls(field, w[p].occupant) {
            share(weight_at(kernel, k), soil(field, w[j]), demand(g, kernel, field, w, j))
        } else {
            0
        }
}

/// What a cell that pulls gets through its first `m` kernel places.
spec fn takes(g: Grid, kernel: Kernel, field: SoilField, w: Seq<CellView>, m: nat) -> spec_fn(
    int,
) -> int {
    |p: int|
        if pulls(field, w[p].occupant) {
            gained(g, kernel, field, w, p, m)
        } else {
            0
        }
}

/// What soil cell `j` hands out to the pullers at its first `m` kernel places.
spec fn handed(g: Grid, kernel: Kernel, field: SoilField, w: Seq<CellView>, j: int, m: nat) -> int
    decreases m,
{
    if m == 0 {
        0
    } else {
        handed(g, kernel, field, w, j, (m - 1) as nat) + got(
            g,
            off_dx(m - 1),
            off_dy(m - 1),
            pulled(g, kernel, field, w, m - 1),
            j,
        )
    }
}

proof fn lemma_pulled_is_handed(
    g: Grid,
    kernel: Kernel,
    field: SoilField,
    w: Seq<CellView>,
    m: nat,
)
    requires
        w.len() == g.cells(),
    ensures
        total(takes(g, kernel, field, w, m), w.len()) == total(
            |j: int| handed(g, kernel, field, w, j, m),
            w.len(),
        ),
    decreases m,
{
    let n = w.len();
    let h = |j: int| handed(g, kernel, field, w, j, m);
    if m == 0 {
        lemma_total_zero(takes(g, kernel, field, w, 0), n);
        lemma_total_zero(h, n);
    } else {
        let l = (m - 1) as nat;
        lemma_pulled_is_handed(g, kernel, field, w, l);
        let flow = pulled(g, kernel, field, w, m - 1);
        let dx = off_dx(m - 1);
        let dy = off_dy(m - 1);
        lemma_sent_is_got(g, dx, dy, flow, n);
        let s = |i: int| sent(g, dx, dy, flow, i);
        let r = |j: int| got(g, dx, dy, flow, j);
        lemma_total_sum(takes(g, kernel, field, w, m), takes(g, kernel, field, w, l), s, n);
        lemma_total_sum(h, |j: int| handed(g, kernel, field, w, j, l), r, n);
    }
}

/// Shares are rounded down, so a soil cell hands out no more than it loses.
proof fn lemma_handed_within_loss(
    g: Grid,
    kernel: Kernel,
    field: SoilField,
    w: Seq<CellView>,
    j: int,
    m: nat,
)
    requires
        m <= 9,
        kernel_sum(kernel, 9) <= 255,
    ensures
        ({
            let d = demand(g, kernel, field, w, j);
            let l = loss(soil(field, w[j]), d);
            &&& 0 <= handed(g, kernel, field, w, j, m)
            &&& handed(g, kernel, field, w, j, m) * d <= l * wanted(g, kernel, field, w, j, m)
            &&& 0 <= wanted(g, kernel, field, w, j, m) <= kernel_sum(kernel, m)
        }),
    decreases m,
{
    let d = demand(g, kernel, field, w, j);
    let l = loss(soil(field, w[j]), d);
    lemma_wanted_bounds(g, kernel, field, w, j, 9);
    if m > 0 {
        lemma_handed_within_loss(g, kernel, field, w, j, (m - 1) as nat);
        lemma_kernel_weight(kernel, (m - 1) as int);
        let wt = weight_at(kernel, m - 1);
        let h = handed(g, kernel, field, w, j, (m - 1) as nat);
        let t = wanted(g, kernel, field, w, j, (m - 1) as nat);
        let x = want(g, kernel, field, w, j, m - 1);
        let y = got(g, off_dx(m - 1), off_dy(m - 1), pulled(g, kernel, field, w, m - 1), j);
        assert(0 <= y && y * d <= l * x) by {
            if y != 0 {
                assert(x == wt && y == share(wt, soil(field, w[j]), d));
                assert(d > 0 && y == (wt * l) / d);
                assert(0 <= y && y * d <= l * x) by (nonlinear_arith)
                    requires
                        d > 0,
                        0 <= l,
                        0 <= wt,
                        x == wt,
                        y == (wt * l) / d,
                ;
            } else {
                assert(0 <= l * x) by (nonlinear_arith)
                    requires
                        0 <= l,
                        0 <= x,
                ;
            }
        }
        assert((h + y) * d == h * d + y * d && l * (t + x) == l * t + l * x) by (nonlinear_arith);
    } else {
        assert(0 * d == 0 && l * 0 == 0);
    }
}

proof fn lemma_kernel_weight(kernel: Kernel, k: int)
    requires
        0 <= k < 9,
        kernel_sum(kernel, 9) <= 255,
    ensures
        weight_at(kernel, k) <= 255,
{
    reveal_with_fuel(kernel_sum, 10);
}

proof fn lemma_wanted_bounds(
    g: Grid,
    kernel: Kernel,
    field: SoilField,
    w: Seq<CellView>,
    j: int,
    m: nat,
)
    ensures
        0 <= wanted(g, kernel, field, w, j, m) <= kernel_sum(kernel, m),
    decreases m,
{
    if m > 0 {
        lemma_wanted_bounds(g, kernel, field, w, j, (m - 1) as nat);
    }
}

/// Whatever the pullers gain was lost by the soil.
proof fn lemma_takes_within_losses(g: Grid, kernel: Kernel, field: SoilField, w: Seq<CellView>)
    requires
        w.len() == g.cells(),
        kernel_sum(kernel, 9) <= 255,
    ensures
        total(takes(g, kernel, field, w, 9), w.len()) <= total(
            |j: int| loss(soil(field, w[j]), demand(g, kernel, field, w, j)),
            w.len(),
        ),
{
    let n = w.len();
    let h = |j: int| handed(g, kernel, field, w, j, 9);
    let lost = |j: int| loss(soil(field, w[j]), demand(g, kernel, field, w, j));
    lemma_pulled_is_handed(g, kernel, field, w, 9);
    assert forall|j: int| 0 <= j < n implies #[trigger] h(j) <= lost(j) by {
        let d = demand(g, kernel, field, w, j);
        let l = lost(j);
        lemma_handed_within_loss(g, kernel, field, w, j, 9);
        assert(d == wanted(g, kernel, field, w, j, 9));
        if d > 0 {
            assert(h(j) <= l) by (nonlinear_arith)
                requires
                    h(j) * d <= l * d,
                    d > 0,
            ;
        } else {
            lemma_nothing_wanted(g, kernel, field, w, j, 9);
        }
    }
    lemma_total_order(h, lost, n);
}

proof fn lemma_nothing_wanted(
    g: Grid,
    kernel: Kernel,
    field: SoilField,
    w: Seq<CellView>,
    j: int,
    m: nat,
)
    requires
        demand(g, kernel, field, w, j) == 0,
    ensures
        handed(g, kernel, field, w, j, m) == 0,
    decreases m,
{
    if m > 0 {
        lemma_nothing_wanted(g, kernel, field, w, j, (m - 1) as nat);
    }
}

/// The soil pulls make nothing: what the pullers gain, the soil has lost. Kernels are
/// taken with weights of at most 255 in all, so that no demand is cut off.
pub proof fn lemma_pulls_make_nothing(g: Grid, params: SimParams, w: Seq<CellView>)
    requires
        w.len() == g.cells(),
        kernel_sum(params.root_pull_kernel, 9) <= 255,
        kernel_sum(params.antenna_pull_kernel, 9) <= 255,
    ensures
        wealth(soil_pulls(g, params, w)) <= wealth(w),
{
    let n = w.len();
    let rk = params.root_pull_kernel;
    let ak = params.antenna_pull_kernel;
    let o = SoilField::Organic;
    let e = SoilField::Energy;
    let lost_o = |j: int| loss(soil(o, w[j]), demand(g, rk, o, w, j));
    let lost_e = |j: int| loss(soil(e, w[j]), demand(g, ak, e, w, j));
    lemma_takes_within_losses(g, rk, o, w);
    lemma_takes_within_losses(g, ak, e, w);
    let before = |i: int| wealth_in(w[i]);
    let after = |i: int| wealth_in(soil_pulls(g, params, w)[i]);
    let won = |i: int| takes(g, rk, o, w, 9)(i) + takes(g, ak, e, w, 9)(i);
    let lost = |i: int| lost_o(i) + lost_e(i);
    let left = |i: int| after(i) + lost(i);
    let bound = |i: int| before(i) + won(i);
    assert forall|i: int| 0 <= i < n implies #[trigger] left(i) <= bound(i) by {
        assert(soil_pulls(g, params, w)[i] == pulled_cell(g, params, w, i));
        assert(gain(g, params, w, i) == won(i));
        lemma_wanted_bounds(g, rk, o, w, i, 9);
        lemma_wanted_bounds(g, ak, e, w, i, 9);
        assert(0 <= lost_o(i) <= w[i].organic && 0 <= lost_e(i) <= w[i].soil_energy);
        lemma_gained_nonneg(g, rk, o, w, i, 9);
        lemma_gained_nonneg(g, ak, e, w, i, 9);
    }
    lemma_total_order(left, bound, n);
    lemma_total_sum(left, after, lost, n);
    lemma_total_sum(bound, before, won, n);
    lemma_total_sum(won, takes(g, rk, o, w, 9), takes(g, ak, e, w, 9), n);
    lemma_total_sum(lost, lost_o, lost_e, n);
}

proof fn lemma_gained_nonneg(
    g: Grid,
    kernel: Kernel,
    field: SoilField,
    w: Seq<CellView>,
    p: int,
    m: nat,
)
    requires
        m <= 9,
    ensures
        0 <= gained(g, kernel, field, w, p, m),
    decreases m,
{
    if m > 0 {
        lemma_gained_nonneg(g, kernel, field, w, p, (m - 1) as nat);
        if let Some(j) = nbr(g, p, off_dx(m - 1), off_dy(m - 1)) {
            let d = demand(g, kernel, field, w, j);
            lemma_wanted_bounds(g, kernel, field, w, j, 9);
            let wt = weight_at(kernel, m - 1);
            let l = loss(soil(field, w[j]), d);
            if d > 0 {
                assert(0 <= (wt * l) / d) by (nonlinear_arith)
                    requires
                        0 <= wt,
                        0 <= l,
                        d > 0,
                ;
            }
        }
    }
}

// ---------------------------------------------------------------------------
// Death
// ---------------------------------------------------------------------------
/// What a dying cell leaves at its `k`-th kernel place.
spec fn left_at(kernel: Kernel, dying: Seq<Option<Energy>>, k: int) -> spec_fn(int, int) -> int {
    |src: int, j: int|
        match dying[src] {
            Some(e) => given(kernel, SoilField::Energy, e, k),
            None => 0,
        }
}

/// What a dying cell leaves at its first `m` kernel places.
spec fn left_by(
    g: Grid,
    kernel: Kernel,
    dying: Seq<Option<Energy>>,
    src: int,
    m: nat,
) -> int
    decreases m,
{
    if m == 0 {
        0
    } else {
        left_by(g, kernel, dying, src, (m - 1) as nat) + sent(
            g,
            off_dx(m - 1),
            off_dy(m - 1),
            left_at(kernel, dying, m - 1),
            src,
        )
    }
}

proof fn lemma_received_is_left(g: Grid, kernel: Kernel, dying: Seq<Option<Energy>>, n: nat, m: nat)
    requires
        n == g.cells(),
    ensures
        total(|j: int| received(g, kernel, SoilField::Energy, dying, j, m), n) == total(
            |src: int| left_by(g, kernel, dying, src, m),
            n,
        ),
    decreases m,
{
    let got_all = |j: int| received(g, kernel, SoilField::Energy, dying, j, m);
    let left_all = |src: int| left_by(g, kernel, dying, src, m);
    if m == 0 {
        lemma_total_zero(got_all, n);
        lemma_total_zero(left_all, n);
    } else {
        let l = (m - 1) as nat;
        lemma_received_is_left(g, kernel, dying, n, l);
        let flow = left_at(kernel, dying, m - 1);
        let dx = off_dx(m - 1);
        let dy = off_dy(m - 1);
        lemma_sent_is_got(g, dx, dy, flow, n);
        lemma_total_sum(
            got_all,
            |j: int| received(g, kernel, SoilField::Energy, dying, j, l),
            |j: int| got(g, dx, dy, flow, j),
            n,
        );
        lemma_total_sum(
            left_all,
            |src: int| left_by(g, kernel, dying, src, l),
            |i: int| sent(g, dx, dy, flow, i),
            n,
        );
    }
}

proof fn lemma_left_by(g: Grid, kernel: Kernel, dying: Seq<Option<Energy>>, src: int, m: nat)
    requires
        m <= 9,
    ensures
        dying[src] is None ==> left_by(g, kernel, dying, src, m) == 0,
        dying[src] matches Some(e) ==> 0 <= left_by(g, kernel, dying, src, m) <= per_unit(kernel, e)
            * kernel_sum(kernel, m),
    decreases m,
{
    if m > 0 {
        lemma_left_by(g, kernel, dying, src, (m - 1) as nat);
        if let Some(e) = dying[src] {
            lemma_deposit_within_energy(kernel, e);
            let u = per_unit(kernel, e);
            let s = kernel_sum(kernel, (m - 1) as nat);
            let wt = weight_at(kernel, m - 1);
            assert(0 <= given(kernel, SoilField::Energy, e, m - 1));
            assert(u * (s + wt) == u * s + u * wt) by (nonlinear_arith);
        }
    } else if let Some(e) = dying[src] {
        assert(per_unit(kernel, e) * 0 == 0);
    }
}

/// The energy that a cell holds: that of its occupant and that of its soil.
pub open spec fn energy_in(c: CellView) -> int {
    stored_in(c) + c.soil_energy
}

/// The energy that the world holds.
pub open spec fn energy(w: Seq<CellView>) -> int {
    total(|i: int| energy_in(w[i]), w.len())
}

/// Death makes no energy: what the dying held goes to the soil or is lost.
pub proof fn lemma_death_makes_no_energy(g: Grid, params: SimParams, w: Seq<CellView>)
    requires
        w.len() == g.cells(),
    ensures
        energy(death(g, params, w)) <= energy(w),
{
    let n = w.len();
    let kernel = params.death_deposit_kernel;
    let dying = dying_energy(g, params, w);
    let came = |j: int| received(g, kernel, SoilField::Energy, dying, j, 9);
    let gone = |src: int| left_by(g, kernel, dying, src, 9);
    let before = |i: int| energy_in(w[i]);
    let after = |i: int| energy_in(death(g, params, w)[i]);
    let lost = |i: int|
        if dies(g, params, w, i) {
            stored_in(w[i])
        } else {
            0
        };
    lemma_received_is_left(g, kernel, dying, n, 9);
    assert forall|i: int| 0 <= i < n implies #[trigger] gone(i) <= lost(i) by {
        lemma_left_by(g, kernel, dying, i, 9);
        if let Some(e) = dying[i] {
            lemma_deposit_within_energy(kernel, e);
        }
    }
    lemma_total_order(gone, lost, n);
    let left = |i: int| after(i) + lost(i);
    let bound = |i: int| before(i) + came(i);
    assert forall|i: int| 0 <= i < n implies #[trigger] left(i) <= bound(i) by {
        assert(death(g, params, w)[i].occupant == bereft(g, params, w, i));
        lemma_received_nonneg(g, kernel, dying, i, 9);
    }
    lemma_total_order(left, bound, n);
    lemma_total_sum(left, after, lost, n);
    lemma_total_sum(bound, before, came, n);
}

proof fn lemma_received_nonneg(g: Grid, kernel: Kernel, dying: Seq<Option<Energy>>, j: int, m: nat)
    requires
        m <= 9,
    ensures
        0 <= received(g, kernel, SoilField::Energy, dying, j, m),
    decreases m,
{
    if m > 0 {
        lemma_received_nonneg(g, kernel, dying, j, (m - 1) as nat);
        if let Some(q) = nbr(g, j, -off_dx(m - 1), -off_dy(m - 1)) {
            if let Some(e) = dying[q] {
                lemma_deposit_within_energy(kernel, e);
                assert(0 <= given(kernel, SoilField::Energy, e, m - 1));
            }
        }
    }
}

} // verus!
