//! What the territory estimate amounts to: a cell gets an owner exactly if
//! a head can reach it over free cells, so the territories together count
//! the free cells in reach.

use vstd::prelude::*;
use crate::grid::{cell_index, in_field, in_grid, DENSE_BOARD_CELLS};
use crate::state::{Position, PLAYER_COUNT};
use crate::territory::{
    claimant, column_of, first_owner, gained, lemma_idle_round, lemma_planted_kept, lemma_planted_ok,
    lemma_spread_keeps, lemma_spread_n_ok, lemma_stable_from, lemma_unowned_splits, newly_owned, owners_ok,
    planted, row_of, settled, spread, spread_n, territory, territory_sum, unowned, visit_x, visit_y,
    FIELD_CELLS, NOT_OWNED,
};

verus! {

/// Whether some agent has its head on `(x, y)`.
pub open spec fn is_head(p: Position, x: int, y: int) -> bool {
    exists|i: int| 0 <= i < PLAYER_COUNT && #[trigger] p.heads[i] == (x, y)
}

/// Whether two cells share a side.
pub open spec fn adjacent(a: (int, int), b: (int, int)) -> bool {
    ||| a.0 == b.0 && (a.1 == b.1 + 1 || a.1 == b.1 - 1)
    ||| a.1 == b.1 && (a.0 == b.0 + 1 || a.0 == b.0 - 1)
}

/// Whether the `j`-th cell of `route` is a free cell of the field next to
/// the cell before it.
pub open spec fn is_step(p: Position, route: Seq<(int, int)>, j: int) -> bool {
    &&& in_field(route[j].0, route[j].1)
    &&& !p.occupied(route[j].0, route[j].1)
    &&& adjacent(route[j - 1], route[j])
}

/// Whether `route` leads from a head over free cells of the field, each
/// next to the one before.
pub open spec fn is_route(p: Position, route: Seq<(int, int)>) -> bool {
    &&& route.len() >= 1
    &&& is_head(p, route[0].0, route[0].1)
    &&& forall|j: int| 1 <= j < route.len() ==> #[trigger] is_step(p, route, j)
}

/// Whether a route leads to `(x, y)`.
pub open spec fn reachable(p: Position, x: int, y: int) -> bool {
    exists|route: Seq<(int, int)>| is_route(p, route) && #[trigger] route.last() == (x, y)
}

/// How many of the first `k` field cells, in visiting order, are in reach
/// without being under a head.
pub open spec fn reach_count(p: Position, k: nat) -> nat
    decreases k,
{
    if k == 0 {
        0
    } else {
        let x = visit_x(k - 1);
        let y = visit_y(k - 1);
        let here: nat = if !is_head(p, x, y) && reachable(p, x, y) {
            1
        } else {
            0
        };
        reach_count(p, (k - 1) as nat) + here
    }
}

/// How many of the first `k` field cells, in visiting order, have no owner
/// in `before` and one of the first `n` agents as owner in `after`.
pub open spec fn gained_by_first(before: Seq<i32>, after: Seq<i32>, n: nat, k: nat) -> nat
    decreases k,
{
    if k == 0 {
        0
    } else {
        let cell = cell_index(visit_x(k - 1), visit_y(k - 1));
        let here: nat = if before[cell] == NOT_OWNED && 0 <= after[cell] < n {
            1
        } else {
            0
        };
        gained_by_first(before, after, n, (k - 1) as nat) + here
    }
}

/// Distinct stored cells have distinct positions.
pub proof fn lemma_cell_index_injective(x: int, y: int, u: int, v: int)
    requires
        in_grid(x, y),
        in_grid(u, v),
        cell_index(x, y) == cell_index(u, v),
    ensures
        x == u,
        y == v,
{
}

/// After planting the first `n` heads exactly their cells are owned.
pub proof fn lemma_planted_owns_heads(heads: Seq<(int, int)>, n: nat, x: int, y: int)
    requires
        n <= PLAYER_COUNT,
        n <= heads.len(),
        forall|i: int| 0 <= i < n ==> in_grid((#[trigger] heads[i]).0, heads[i].1),
        in_grid(x, y),
    ensures
        planted(heads, n).len() == DENSE_BOARD_CELLS,
        (planted(heads, n)[cell_index(x, y)] != NOT_OWNED) == (exists|i: int|
            0 <= i < n && #[trigger] heads[i] == (x, y)),
    decreases n,
{
    if n > 0 {
        lemma_planted_owns_heads(heads, (n - 1) as nat, x, y);
        let last = heads[n - 1];
        assert(in_grid(last.0, last.1));
        if cell_index(last.0, last.1) == cell_index(x, y) {
            lemma_cell_index_injective(last.0, last.1, x, y);
            assert(heads[n - 1] == (x, y));
        } else {
            if exists|i: int| 0 <= i < n && #[trigger] heads[i] == (x, y) {
                let i = choose|i: int| 0 <= i < n && #[trigger] heads[i] == (x, y);
                assert(i < n - 1);
            }
        }
    }
}

/// Before the first round exactly the cells under a head are owned.
pub proof fn lemma_seed_owns_heads(p: Position, x: int, y: int)
    requires
        p.well_formed(),
        in_grid(x, y),
    ensures
        (planted(p.heads, PLAYER_COUNT as nat)[cell_index(x, y)] != NOT_OWNED) == is_head(p, x, y),
{
    lemma_planted_owns_heads(p.heads, PLAYER_COUNT as nat, x, y);
}

/// A cell that has an owner after `n` rounds is in reach.
pub proof fn lemma_owned_is_reachable(p: Position, n: nat, x: int, y: int)
    requires
        p.well_formed(),
        in_grid(x, y),
        spread_n(p, n)[cell_index(x, y)] != NOT_OWNED,
    ensures
        reachable(p, x, y),
    decreases n,
{
    if n == 0 {
        lemma_seed_owns_heads(p, x, y);
        let route = seq![(x, y)];
        assert(is_route(p, route) && route.last() == (x, y));
    } else {
        let before = spread_n(p, (n - 1) as nat);
        lemma_spread_n_ok(p, (n - 1) as nat);
        let k = cell_index(x, y);
        assert(column_of(k) == x && row_of(k) == y);
        if before[k] != NOT_OWNED {
            lemma_owned_is_reachable(p, (n - 1) as nat, x, y);
        } else {
            assert(in_field(x, y));
            assert(first_owner(before, x, y) != NOT_OWNED);
            let (u, v) = if before[cell_index(x - 1, y)] != NOT_OWNED {
                (x - 1, y)
            } else if before[cell_index(x + 1, y)] != NOT_OWNED {
                (x + 1, y)
            } else if before[cell_index(x, y - 1)] != NOT_OWNED {
                (x, y - 1)
            } else {
                (x, y + 1)
            };
            lemma_owned_is_reachable(p, (n - 1) as nat, u, v);
            let to_neighbour = choose|route: Seq<(int, int)>|
                is_route(p, route) && #[trigger] route.last() == (u, v);
            let route = to_neighbour.push((x, y));
            assert forall|j: int| 1 <= j < route.len() implies #[trigger] is_step(p, route, j) by {
                if j < to_neighbour.len() {
                    assert(is_step(p, to_neighbour, j));
                }
            }
            assert(route[0] == to_neighbour[0]);
            assert(is_route(p, route) && route.last() == (x, y));
        }
    }
}

/// Among the first `n` rounds either one changes nothing, or each gives
/// at least one cell its owner. The result is a round that changes
/// nothing if it is at most `n`.
pub proof fn lemma_idle_or_progress(p: Position, n: nat) -> (r: nat)
    requires
        p.well_formed(),
        n <= FIELD_CELLS,
    ensures
        r <= n + 1,
        r <= n ==> spread(p, spread_n(p, r)) == spread_n(p, r),
        r == n + 1 ==> n + unowned(spread_n(p, n), FIELD_CELLS as nat) <= FIELD_CELLS,
    decreases n,
{
    if n == 0 {
        let seed = spread_n(p, 0);
        lemma_spread_n_ok(p, 0);
        lemma_unowned_splits(seed, seed, FIELD_CELLS as nat);
        1
    } else {
        let r = lemma_idle_or_progress(p, (n - 1) as nat);
        if r <= n - 1 {
            r
        } else {
            let before = spread_n(p, (n - 1) as nat);
            let here = spread_n(p, n);
            lemma_spread_n_ok(p, (n - 1) as nat);
            lemma_spread_keeps(p, before);
            lemma_unowned_splits(before, here, FIELD_CELLS as nat);
            if newly_owned(before, here, FIELD_CELLS as nat) == 0 {
                lemma_idle_round(p, before);
                (n - 1) as nat
            } else {
                n + 1
            }
        }
    }
}

/// The settled owners are settled: a further round changes nothing. Each
/// round that changes something gives a cell its owner, and there are no
/// more cells than rounds.
pub proof fn lemma_settled_is_stable(p: Position)
    requires
        p.well_formed(),
    ensures
        spread(p, settled(p)) == settled(p),
        owners_ok(settled(p)),
{
    lemma_spread_n_ok(p, FIELD_CELLS as nat);
    let r = lemma_idle_or_progress(p, FIELD_CELLS as nat);
    if r <= FIELD_CELLS {
        lemma_stable_from(p, r, FIELD_CELLS as nat);
    } else {
        lemma_spread_keeps(p, settled(p));
        lemma_unowned_splits(settled(p), spread(p, settled(p)), FIELD_CELLS as nat);
        lemma_idle_round(p, settled(p));
    }
}

/// Where a further round changes nothing, a free field cell next to an
/// owned cell is owned.
pub proof fn lemma_next_to_owned(p: Position, owners: Seq<i32>, x: int, y: int, u: int, v: int)
    requires
        owners.len() == DENSE_BOARD_CELLS,
        spread(p, owners) == owners,
        in_field(x, y),
        !p.occupied(x, y),
        adjacent((u, v), (x, y)),
        owners[cell_index(u, v)] != NOT_OWNED,
    ensures
        owners[cell_index(x, y)] != NOT_OWNED,
{
    let k = cell_index(x, y);
    assert(column_of(k) == x && row_of(k) == y);
    assert(0 <= k < DENSE_BOARD_CELLS);
    assert(spread(p, owners)[k] == claimant(p, owners, x, y));
    if owners[k] == NOT_OWNED {
        assert(first_owner(owners, x, y) != NOT_OWNED);
    }
}

/// Leaving out the last cell of a route of several cells gives a route.
pub proof fn lemma_route_without_last(p: Position, route: Seq<(int, int)>)
    requires
        is_route(p, route),
        route.len() >= 2,
    ensures
        is_route(p, route.drop_last()),
        route.drop_last().last() == route[route.len() - 2],
{
    let shorter = route.drop_last();
    assert(shorter[0] == route[0]);
    assert forall|j: int| 1 <= j < shorter.len() implies #[trigger] is_step(p, shorter, j) by {
        assert(is_step(p, route, j));
    }
}

/// Every cell on a route has an owner in the end.
pub proof fn lemma_route_is_owned(p: Position, route: Seq<(int, int)>)
    requires
        p.well_formed(),
        is_route(p, route),
    ensures
        in_grid(route.last().0, route.last().1),
        settled(p)[cell_index(route.last().0, route.last().1)] != NOT_OWNED,
    decreases route.len(),
{
    let (x, y) = route.last();
    if route.len() == 1 {
        let i = choose|i: int| 0 <= i < PLAYER_COUNT && #[trigger] p.heads[i] == (x, y);
        assert(in_grid(p.heads[i].0, p.heads[i].1));
        lemma_seed_owns_heads(p, x, y);
        lemma_planted_kept(p, FIELD_CELLS as nat);
        lemma_planted_ok(p.heads, PLAYER_COUNT as nat);
    } else {
        let last = route.len() - 1;
        let (u, v) = route[last - 1];
        lemma_route_without_last(p, route);
        lemma_route_is_owned(p, route.drop_last());
        lemma_settled_is_stable(p);
        assert(is_step(p, route, last));
        lemma_next_to_owned(p, settled(p), x, y, u, v);
    }
}

/// A cell has an owner in the end exactly if it is in reach.
pub proof fn lemma_owned_iff_reachable(p: Position, x: int, y: int)
    requires
        p.well_formed(),
        in_grid(x, y),
    ensures
        (settled(p)[cell_index(x, y)] != NOT_OWNED) == reachable(p, x, y),
{
    if settled(p)[cell_index(x, y)] != NOT_OWNED {
        lemma_owned_is_reachable(p, FIELD_CELLS as nat, x, y);
    }
    if reachable(p, x, y) {
        let route = choose|route: Seq<(int, int)>| is_route(p, route) && #[trigger] route.last() == (x, y);
        lemma_route_is_owned(p, route);
    }
}

/// What the first `n + 1` agents gained is what the first `n` gained and
/// what agent `n` gained.
pub proof fn lemma_gained_by_one_more(before: Seq<i32>, after: Seq<i32>, n: nat, k: nat)
    ensures
        gained_by_first(before, after, n + 1, k) == gained_by_first(before, after, n, k) + gained(
            before,
            after,
            n as int,
            k,
        ),
    decreases k,
{
    if k > 0 {
        lemma_gained_by_one_more(before, after, n, (k - 1) as nat);
    }
}

/// The territories of the first `n` agents together are the cells that
/// the first `n` agents gained.
pub proof fn lemma_territory_sum_is_gained(p: Position, n: nat)
    ensures
        territory_sum(p, n) == gained_by_first(
            planted(p.heads, PLAYER_COUNT as nat),
            settled(p),
            n,
            FIELD_CELLS as nat,
        ),
    decreases n,
{
    let seed = planted(p.heads, PLAYER_COUNT as nat);
    if n == 0 {
        lemma_none_gained_by_nobody(seed, settled(p), FIELD_CELLS as nat);
    } else {
        lemma_territory_sum_is_gained(p, (n - 1) as nat);
        lemma_gained_by_one_more(seed, settled(p), (n - 1) as nat, FIELD_CELLS as nat);
    }
}

/// No agents gain no cells.
pub proof fn lemma_none_gained_by_nobody(before: Seq<i32>, after: Seq<i32>, k: nat)
    ensures
        gained_by_first(before, after, 0, k) == 0,
    decreases k,
{
    if k > 0 {
        lemma_none_gained_by_nobody(before, after, (k - 1) as nat);
    }
}

/// The cells that all agents gained are the cells in reach that are not
/// under a head.
pub proof fn lemma_gained_is_reach_count(p: Position, k: nat)
    requires
        p.well_formed(),
        k <= FIELD_CELLS,
    ensures
        gained_by_first(planted(p.heads, PLAYER_COUNT as nat), settled(p), PLAYER_COUNT as nat, k)
            == reach_count(p, k),
    decreases k,
{
    if k > 0 {
        lemma_gained_is_reach_count(p, (k - 1) as nat);
        let x = visit_x(k - 1);
        let y = visit_y(k - 1);
        assert(in_field(x, y));
        lemma_seed_owns_heads(p, x, y);
        lemma_owned_iff_reachable(p, x, y);
        lemma_settled_is_stable(p);
        assert(0 <= cell_index(x, y) < DENSE_BOARD_CELLS);
    }
}

/// The territories of all agents together are the number of free cells
/// that some head can reach, the cells under the heads not counted.
pub proof fn lemma_territories_count_reach(p: Position)
    requires
        p.well_formed(),
    ensures
        territory_sum(p, PLAYER_COUNT as nat) == reach_count(p, FIELD_CELLS as nat),
        territory_sum(p, PLAYER_COUNT as nat) <= FIELD_CELLS,
{
    lemma_territory_sum_is_gained(p, PLAYER_COUNT as nat);
    lemma_gained_is_reach_count(p, FIELD_CELLS as nat);
    lemma_reach_count_bound(p, FIELD_CELLS as nat);
}

/// No more cells are in reach than were looked at.
pub proof fn lemma_reach_count_bound(p: Position, k: nat)
    ensures
        reach_count(p, k) <= k,
    decreases k,
{
    if k > 0 {
        lemma_reach_count_bound(p, (k - 1) as nat);
    }
}

} // verus!
