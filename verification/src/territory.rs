//! The territory estimate: which agent reaches each free cell first, found
//! by spreading ownership from the heads in synchronous rounds.

use vstd::prelude::*;
use crate::grid::{cell_index, in_field, in_grid, Coord, DenseBoard, BOARD_SIZE, DENSE_BOARD_CELLS, DENSE_BOARD_LENGTH};
use crate::reach::{lemma_territories_count_reach, reach_count};
use crate::state::{Node, Position, PLAYER_COUNT};
use crate::symmetry::{is_mirror, lemma_mirrored_heads_own_the_same, mirrored_position, uncontested, CellMap};

verus! {

/// Owner of a cell that no agent has claimed.
pub const NOT_OWNED: i32 = -1;

/// Number of cells of the field, `BOARD_SIZE` squared.
pub const FIELD_CELLS: usize = 121;

/// Column of the stored cell at position `k`.
pub open spec fn column_of(k: int) -> int {
    k % (DENSE_BOARD_LENGTH as int) - 1
}

/// Row of the stored cell at position `k`.
pub open spec fn row_of(k: int) -> int {
    k / (DENSE_BOARD_LENGTH as int) - 1
}

/// Column of the `k`-th field cell in the order in which a round visits
/// the field: column by column, each from row 0 on.
pub open spec fn visit_x(k: int) -> int {
    k / (BOARD_SIZE as int)
}

/// Row of the `k`-th field cell in the order in which a round visits the field.
pub open spec fn visit_y(k: int) -> int {
    k % (BOARD_SIZE as int)
}

/// An owner per stored cell, each `NOT_OWNED` or an agent.
pub open spec fn owners_ok(owners: Seq<i32>) -> bool {
    &&& owners.len() == DENSE_BOARD_CELLS
    &&& forall|k: int| 0 <= k < DENSE_BOARD_CELLS ==> NOT_OWNED <= #[trigger] owners[k] < PLAYER_COUNT
}

/// The owners before the first round, with the first `n` heads planted:
/// each head's cell belongs to its agent, a later agent's head displacing
/// an earlier one on the same cell, and no other cell is owned.
pub open spec fn planted(heads: Seq<(int, int)>, n: nat) -> Seq<i32>
    decreases n,
{
    if n == 0 {
        Seq::new(DENSE_BOARD_CELLS as nat, |k: int| NOT_OWNED)
    } else {
        planted(heads, (n - 1) as nat).update(
            cell_index(heads[n - 1].0, heads[n - 1].1),
            (n - 1) as i32,
        )
    }
}

/// The first of four owners that is an agent; `NOT_OWNED` if none is.
pub open spec fn first_of(left: i32, right: i32, up: i32, down: i32) -> i32 {
    if left != NOT_OWNED {
        left
    } else if right != NOT_OWNED {
        right
    } else if up != NOT_OWNED {
        up
    } else {
        down
    }
}

/// The owner of the first owned neighbour of `(x, y)`, looking left, right,
/// up and down in that order; `NOT_OWNED` if no neighbour is owned.
pub open spec fn first_owner(owners: Seq<i32>, x: int, y: int) -> i32 {
    first_of(
        owners[cell_index(x - 1, y)],
        owners[cell_index(x + 1, y)],
        owners[cell_index(x, y - 1)],
        owners[cell_index(x, y + 1)],
    )
}

/// The owner of field cell `(x, y)` after one round: an owned cell keeps
/// its owner, an occupied cell stays as it is, and a free cell without
/// owner goes to the owner of its first owned neighbour.
pub open spec fn claimant(p: Position, owners: Seq<i32>, x: int, y: int) -> i32 {
    if owners[cell_index(x, y)] != NOT_OWNED || p.occupied(x, y) {
        owners[cell_index(x, y)]
    } else {
        first_owner(owners, x, y)
    }
}

/// The owners after one round on `owners`. Every field cell is judged by
/// the owners before the round; halo cells never change.
pub open spec fn spread(p: Position, owners: Seq<i32>) -> Seq<i32> {
    Seq::new(
        DENSE_BOARD_CELLS as nat,
        |k: int|
            if in_field(column_of(k), row_of(k)) {
                claimant(p, owners, column_of(k), row_of(k))
            } else {
                owners[k]
            },
    )
}

/// The owners after `n` rounds from the planted heads.
pub open spec fn spread_n(p: Position, n: nat) -> Seq<i32>
    decreases n,
{
    if n == 0 {
        planted(p.heads, PLAYER_COUNT as nat)
    } else {
        spread(p, spread_n(p, (n - 1) as nat))
    }
}

/// The owners when no round changes anything any more. One round per field
/// cell is enough for that: see `lemma_settled_is_stable`.
pub open spec fn settled(p: Position) -> Seq<i32> {
    spread_n(p, FIELD_CELLS as nat)
}

/// How many of the first `k` field cells, in visiting order, have no owner
/// in `before` and belong to `agent` in `after`.
pub open spec fn gained(before: Seq<i32>, after: Seq<i32>, agent: int, k: nat) -> nat
    decreases k,
{
    if k == 0 {
        0
    } else {
        let cell = cell_index(visit_x(k - 1), visit_y(k - 1));
        let here: nat = if before[cell] == NOT_OWNED && after[cell] == agent {
            1
        } else {
            0
        };
        gained(before, after, agent, (k - 1) as nat) + here
    }
}

/// How many of the first `k` field cells, in visiting order, have no owner.
pub open spec fn unowned(owners: Seq<i32>, k: nat) -> nat
    decreases k,
{
    if k == 0 {
        0
    } else {
        let cell = cell_index(visit_x(k - 1), visit_y(k - 1));
        let here: nat = if owners[cell] == NOT_OWNED {
            1
        } else {
            0
        };
        unowned(owners, (k - 1) as nat) + here
    }
}

/// The territory of `agent`: the number of field cells that it comes to
/// own, its head's own cell not counted.
pub open spec fn territory(p: Position, agent: int) -> nat {
    gained(planted(p.heads, PLAYER_COUNT as nat), settled(p), agent, FIELD_CELLS as nat)
}

/// The territories of the first `n` agents together.
pub open spec fn territory_sum(p: Position, n: nat) -> nat
    decreases n,
{
    if n == 0 {
        0
    } else {
        territory_sum(p, (n - 1) as nat) + territory(p, n - 1)
    }
}

/// Planting heads on stored cells gives an owner grid.
pub proof fn lemma_planted_ok(heads: Seq<(int, int)>, n: nat)
    requires
        n <= PLAYER_COUNT,
        n <= heads.len(),
        forall|i: int| 0 <= i < n ==> in_grid((#[trigger] heads[i]).0, heads[i].1),
    ensures
        owners_ok(planted(heads, n)),
    decreases n,
{
    if n > 0 {
        lemma_planted_ok(heads, (n - 1) as nat);
    }
}

/// A round keeps an owner grid an owner grid, and never takes a cell from
/// its owner.
pub proof fn lemma_spread_keeps(p: Position, owners: Seq<i32>)
    requires
        owners_ok(owners),
    ensures
        owners_ok(spread(p, owners)),
        forall|k: int|
            0 <= k < DENSE_BOARD_CELLS && owners[k] != NOT_OWNED ==> #[trigger] spread(p, owners)[k]
                == owners[k],
{
    let next = spread(p, owners);
    assert forall|k: int| 0 <= k < DENSE_BOARD_CELLS implies NOT_OWNED <= #[trigger] next[k]
        < PLAYER_COUNT && (owners[k] != NOT_OWNED ==> next[k] == owners[k]) by {
        let x = column_of(k);
        let y = row_of(k);
        assert(cell_index(x, y) == k);
        if in_field(x, y) {
            assert(0 <= cell_index(x - 1, y) < DENSE_BOARD_CELLS);
            assert(0 <= cell_index(x + 1, y) < DENSE_BOARD_CELLS);
            assert(0 <= cell_index(x, y - 1) < DENSE_BOARD_CELLS);
            assert(0 <= cell_index(x, y + 1) < DENSE_BOARD_CELLS);
        }
    }
}

/// Every round from the planted heads gives an owner grid.
pub proof fn lemma_spread_n_ok(p: Position, n: nat)
    requires
        p.well_formed(),
    ensures
        owners_ok(spread_n(p, n)),
    decreases n,
{
    if n == 0 {
        lemma_planted_ok(p.heads, PLAYER_COUNT as nat);
    } else {
        lemma_spread_n_ok(p, (n - 1) as nat);
        lemma_spread_keeps(p, spread_n(p, (n - 1) as nat));
    }
}

/// Whether every cell that has an owner in `before` has the same owner in
/// `after`.
pub open spec fn kept(before: Seq<i32>, after: Seq<i32>) -> bool {
    forall|k: int| 0 <= k < DENSE_BOARD_CELLS && before[k] != NOT_OWNED ==> #[trigger] after[k] == before[k]
}

/// How many of the first `k` field cells, in visiting order, have no owner
/// in `before` and one in `after`.
pub open spec fn newly_owned(before: Seq<i32>, after: Seq<i32>, k: nat) -> nat
    decreases k,
{
    if k == 0 {
        0
    } else {
        let cell = cell_index(visit_x(k - 1), visit_y(k - 1));
        let here: nat = if before[cell] == NOT_OWNED && after[cell] != NOT_OWNED {
            1
        } else {
            0
        };
        newly_owned(before, after, (k - 1) as nat) + here
    }
}

/// No agent gains more cells than were looked at.
pub proof fn lemma_gained_bound(before: Seq<i32>, after: Seq<i32>, agent: int, k: nat)
    ensures
        gained(before, after, agent, k) <= k,
    decreases k,
{
    if k > 0 {
        lemma_gained_bound(before, after, agent, (k - 1) as nat);
    }
}

/// Cells gained up to a middle grid and cells gained from there on add up.
pub proof fn lemma_gained_adds(before: Seq<i32>, middle: Seq<i32>, after: Seq<i32>, agent: int, k: nat)
    requires
        kept(before, middle),
        kept(middle, after),
        agent != NOT_OWNED,
        k <= FIELD_CELLS,
    ensures
        gained(before, after, agent, k) == gained(before, middle, agent, k) + gained(middle, after, agent, k),
    decreases k,
{
    if k > 0 {
        lemma_gained_adds(before, middle, after, agent, (k - 1) as nat);
        let cell = cell_index(visit_x(k - 1), visit_y(k - 1));
        assert(0 <= cell < DENSE_BOARD_CELLS);
    }
}

/// The cells without owner before a change are those without owner after
/// it and those that got one.
pub proof fn lemma_unowned_splits(before: Seq<i32>, after: Seq<i32>, k: nat)
    requires
        kept(before, after),
        k <= FIELD_CELLS,
    ensures
        unowned(before, k) == unowned(after, k) + newly_owned(before, after, k),
        unowned(before, k) <= k,
    decreases k,
{
    if k > 0 {
        lemma_unowned_splits(before, after, (k - 1) as nat);
        let cell = cell_index(visit_x(k - 1), visit_y(k - 1));
        assert(0 <= cell < DENSE_BOARD_CELLS);
    }
}

/// Where no cell got an owner, none of the cells looked at did.
pub proof fn lemma_none_newly_owned(before: Seq<i32>, after: Seq<i32>, k: nat, j: int)
    requires
        newly_owned(before, after, k) == 0,
        0 <= j < k,
    ensures
        !(before[cell_index(visit_x(j), visit_y(j))] == NOT_OWNED && after[cell_index(
            visit_x(j),
            visit_y(j),
        )] != NOT_OWNED),
    decreases k,
{
    if j < k - 1 {
        lemma_none_newly_owned(before, after, (k - 1) as nat, j);
    }
}

/// A round in which no cell gets an owner changes nothing.
pub proof fn lemma_idle_round(p: Position, owners: Seq<i32>)
    requires
        owners_ok(owners),
        newly_owned(owners, spread(p, owners), FIELD_CELLS as nat) == 0,
    ensures
        spread(p, owners) == owners,
{
    let next = spread(p, owners);
    lemma_spread_keeps(p, owners);
    assert forall|k: int| 0 <= k < DENSE_BOARD_CELLS implies next[k] == owners[k] by {
        let x = column_of(k);
        let y = row_of(k);
        assert(cell_index(x, y) == k);
        if in_field(x, y) && owners[k] == NOT_OWNED {
            let j = x * BOARD_SIZE + y;
            assert(visit_x(j) == x && visit_y(j) == y);
            lemma_none_newly_owned(owners, next, FIELD_CELLS as nat, j);
        }
    }
    assert(next =~= owners);
}

/// Once a round changes nothing, no later round does.
pub proof fn lemma_stable_from(p: Position, r: nat, n: nat)
    requires
        spread(p, spread_n(p, r)) == spread_n(p, r),
        r <= n,
    ensures
        spread_n(p, n) == spread_n(p, r),
    decreases n,
{
    if n > r {
        lemma_stable_from(p, r, (n - 1) as nat);
    }
}

/// Whatever the heads own at the start, they own after every round.
pub proof fn lemma_planted_kept(p: Position, n: nat)
    requires
        p.well_formed(),
    ensures
        kept(planted(p.heads, PLAYER_COUNT as nat), spread_n(p, n)),
    decreases n,
{
    if n > 0 {
        lemma_planted_kept(p, (n - 1) as nat);
        lemma_spread_n_ok(p, (n - 1) as nat);
        lemma_spread_keeps(p, spread_n(p, (n - 1) as nat));
    }
}

/// The owner of the first owned neighbour of field cell `(x, y)`.
fn first_owned_neighbour(owned_by: &DenseBoard<i32>, x: i32, y: i32) -> (owner: i32)
    requires
        in_field(x as int, y as int),
    ensures
        owner == first_owner(owned_by@, x as int, y as int),
{
    let left = owned_by.get_coord(Coord { x: x - 1, y });
    if left != NOT_OWNED {
        return left;
    }
    let right = owned_by.get_coord(Coord { x: x + 1, y });
    if right != NOT_OWNED {
        return right;
    }
    let up = owned_by.get_coord(Coord { x, y: y - 1 });
    if up != NOT_OWNED {
        return up;
    }
    owned_by.get_coord(Coord { x, y: y + 1 })
}

/// One round: `owned_by_new`, which comes in equal to `owned_by`, leaves as
/// the owners after the round, and each agent's score grows by the cells it
/// gained. Returns whether any cell got an owner.
fn claim_round(
    node: &Node,
    owned_by: &DenseBoard<i32>,
    owned_by_new: &mut DenseBoard<i32>,
    scores: &mut [i32; PLAYER_COUNT],
) -> (changed: bool)
    requires
        owners_ok(owned_by@),
        *old(owned_by_new) == *owned_by,
        forall|a: int| 0 <= a < PLAYER_COUNT ==> 0 <= (#[trigger] old(scores)[a]) <= i32::MAX - FIELD_CELLS,
    ensures
        final(owned_by_new)@ == spread(node@, owned_by@),
        forall|a: int|
            0 <= a < PLAYER_COUNT ==> (#[trigger] final(scores)[a]) == old(scores)[a] + gained(
                owned_by@,
                spread(node@, owned_by@),
                a,
                FIELD_CELLS as nat,
            ),
        changed == (newly_owned(owned_by@, spread(node@, owned_by@), FIELD_CELLS as nat) > 0),
{
    let ghost before = owned_by@;
    let ghost after = spread(node@, before);
    let ghost start = *scores;
    let mut changed = false;
    let mut x: i32 = 0;
    while x < BOARD_SIZE as i32
        invariant
            0 <= x <= BOARD_SIZE,
            owners_ok(before),
            before == owned_by@,
            after == spread(node@, before),
            forall|a: int| 0 <= a < PLAYER_COUNT ==> 0 <= (#[trigger] start[a]) <= i32::MAX - FIELD_CELLS,
            forall|k: int|
                0 <= k < DENSE_BOARD_CELLS ==> (#[trigger] owned_by_new@[k]) == (if in_field(
                    column_of(k),
                    row_of(k),
                ) && column_of(k) < x {
                    after[k]
                } else {
                    before[k]
                }),
            forall|a: int|
                0 <= a < PLAYER_COUNT ==> (#[trigger] scores[a]) == start[a] + gained(
                    before,
                    after,
                    a,
                    (x * BOARD_SIZE) as nat,
                ),
            changed == (newly_owned(before, after, (x * BOARD_SIZE) as nat) > 0),
        decreases BOARD_SIZE - x,
    {
        let mut y: i32 = 0;
        while y < BOARD_SIZE as i32
            invariant
                0 <= x < BOARD_SIZE,
                0 <= y <= BOARD_SIZE,
                owners_ok(before),
                before == owned_by@,
                after == spread(node@, before),
                forall|a: int| 0 <= a < PLAYER_COUNT ==> 0 <= (#[trigger] start[a]) <= i32::MAX - FIELD_CELLS,
                forall|k: int|
                    0 <= k < DENSE_BOARD_CELLS ==> (#[trigger] owned_by_new@[k]) == (if in_field(
                        column_of(k),
                        row_of(k),
                    ) && (column_of(k) < x || (column_of(k) == x && row_of(k) < y)) {
                        after[k]
                    } else {
                        before[k]
                    }),
                forall|a: int|
                    0 <= a < PLAYER_COUNT ==> (#[trigger] scores[a]) == start[a] + gained(
                        before,
                        after,
                        a,
                        (x * BOARD_SIZE + y) as nat,
                    ),
                changed == (newly_owned(before, after, (x * BOARD_SIZE + y) as nat) > 0),
            decreases BOARD_SIZE - y,
        {
            let coord = Coord { x, y };
            let ghost k = x * BOARD_SIZE + y;
            let ghost cell = cell_index(x as int, y as int);
            proof {
                assert(visit_x(k) == x && visit_y(k) == y);
                assert(column_of(cell) == x && row_of(cell) == y);
                lemma_spread_keeps(node@, before);
                assert(after[cell] == claimant(node@, before, x as int, y as int));
                assert(node@.stamp(x as int, y as int) == node.board@[cell]);
                assert forall|a: int| 0 <= a < PLAYER_COUNT implies #[trigger] gained(
                    before,
                    after,
                    a,
                    k as nat,
                ) <= k by {
                    lemma_gained_bound(before, after, a, k as nat);
                }
            }
            if node.board.get_coord(coord) <= node.turn && owned_by.get_coord(coord) == NOT_OWNED {
                let owner = first_owned_neighbour(owned_by, x, y);
                if owner != NOT_OWNED {
                    *owned_by_new.get_coord_mut(coord) = owner;
                    scores[owner as usize] += 1;
                    changed = true;
                }
            }
            y += 1;
        }
        x += 1;
    }
    proof {
        assert(owned_by_new@ =~= after);
    }
    changed
}

/// The first `n` of `scores` together.
pub open spec fn total(scores: Seq<i32>, n: nat) -> int
    decreases n,
{
    if n == 0 {
        0
    } else {
        total(scores, (n - 1) as nat) + scores[n - 1]
    }
}

/// Scores that are the territories add up to the territories' sum.
pub proof fn lemma_total_is_territory_sum(p: Position, scores: Seq<i32>, n: nat)
    requires
        forall|a: int| 0 <= a < n ==> (#[trigger] scores[a]) == territory(p, a),
    ensures
        total(scores, n) == territory_sum(p, n),
    decreases n,
{
    if n > 0 {
        lemma_total_is_territory_sum(p, scores, (n - 1) as nat);
    }
}

/// The territory of each agent: the number of cells that it reaches before
/// any other agent, where a cell that two agents reach in the same round
/// goes to the one found first when looking left, right, up and down.
///
/// Together the territories are the free cells that some head can reach.
/// On a board that is its own mirror image, two agents with mirrored heads
/// that never meet own the same.
pub fn voronoi(node: &Node) -> (scores: [i32; PLAYER_COUNT])
    requires
        node@.well_formed(),
    ensures
        forall|a: int| 0 <= a < PLAYER_COUNT ==> (#[trigger] scores[a]) == territory(node@, a),
        total(scores@, PLAYER_COUNT as nat) == reach_count(node@, FIELD_CELLS as nat),
        forall|m: CellMap|
            #[trigger] is_mirror(m) && mirrored_position(node@, m) && uncontested(node@) ==> scores[0]
                == scores[1],
{
    proof {
        lemma_territories_count_reach(node@);
        assert forall|m: CellMap|
            #[trigger] is_mirror(m) && mirrored_position(node@, m) && uncontested(node@) implies territory(
            node@,
            0,
        ) == territory(node@, 1) by {
            lemma_mirrored_heads_own_the_same(node@, m);
        }
    }
    let mut owned_by = DenseBoard::init(NOT_OWNED);
    let mut scores = [0i32; PLAYER_COUNT];
    let mut i: usize = 0;
    while i < PLAYER_COUNT
        invariant
            i <= PLAYER_COUNT,
            node@.well_formed(),
            owned_by@ == planted(node@.heads, i as nat),
        decreases PLAYER_COUNT - i,
    {
        assert(in_grid(node@.heads[i as int].0, node@.heads[i as int].1));
        *owned_by.get_coord_mut(node.heads[i]) = i as i32;
        i += 1;
    }
    let mut owned_by_new = owned_by;
    let ghost seed = planted(node@.heads, PLAYER_COUNT as nat);
    let ghost mut rounds: nat = 0;
    let mut not_done = true;
    proof {
        lemma_planted_ok(node@.heads, PLAYER_COUNT as nat);
        lemma_unowned_splits(seed, seed, FIELD_CELLS as nat);
        assert forall|a: int| 0 <= a < PLAYER_COUNT implies #[trigger] gained(
            seed,
            seed,
            a,
            FIELD_CELLS as nat,
        ) == 0 by {
            lemma_gained_adds(seed, seed, seed, a, FIELD_CELLS as nat);
        }
    }
    while not_done
        invariant
            node@.well_formed(),
            seed == planted(node@.heads, PLAYER_COUNT as nat),
            owned_by_new == owned_by,
            owned_by@ == spread_n(node@, rounds),
            rounds + unowned(owned_by@, FIELD_CELLS as nat) <= FIELD_CELLS,
            forall|a: int|
                0 <= a < PLAYER_COUNT ==> (#[trigger] scores[a]) == gained(
                    seed,
                    owned_by@,
                    a,
                    FIELD_CELLS as nat,
                ),
            !not_done ==> spread(node@, owned_by@) == owned_by@,
        decreases unowned(owned_by@, FIELD_CELLS as nat) + (if not_done { 1nat } else { 0nat }),
    {
        let ghost before = owned_by@;
        proof {
            lemma_spread_n_ok(node@, rounds);
            lemma_spread_keeps(node@, before);
            lemma_planted_kept(node@, rounds);
            lemma_unowned_splits(before, spread(node@, before), FIELD_CELLS as nat);
            assert forall|a: int| 0 <= a < PLAYER_COUNT implies 0 <= (#[trigger] scores[a]) <= i32::MAX
                - FIELD_CELLS by {
                lemma_gained_bound(seed, before, a, FIELD_CELLS as nat);
            }
        }
        not_done = claim_round(node, &owned_by, &mut owned_by_new, &mut scores);
        proof {
            let after = spread(node@, before);
            assert forall|a: int| 0 <= a < PLAYER_COUNT implies (#[trigger] scores[a]) == gained(
                seed,
                after,
                a,
                FIELD_CELLS as nat,
            ) by {
                lemma_gained_adds(seed, before, after, a, FIELD_CELLS as nat);
            }
            if not_done {
                rounds = rounds + 1;
            } else {
                lemma_idle_round(node@, before);
            }
        }
        owned_by = owned_by_new;
    }
    proof {
        lemma_stable_from(node@, rounds, FIELD_CELLS as nat);
        lemma_total_is_territory_sum(node@, scores@, PLAYER_COUNT as nat);
    }
    scores
}

} // verus!
