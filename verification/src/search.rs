//! The evaluation of a position and the depth-bounded adversarial search:
//! plain minimax as the specification, alpha-beta pruning as the program.

use vstd::prelude::*;
use crate::grid::{in_grid, Direction, DIRECTION_COUNT};
use crate::joint::{direction_at, enemy_turns, joint_moves, lemma_joint_moves_shape, nth_direction};
use crate::state::{Node, Position, EXHAUSTION_THRESHOLD, OPPONENT_COUNT, PLAYER_COUNT};
use crate::territory::{lemma_gained_bound, planted, settled, territory, territory_sum, voronoi, FIELD_CELLS};

verus! {

/// Score of a position that is lost at turn 0. A loss at a later turn
/// scores higher by the number of turns survived.
pub const LOSS_SCORE: i32 = -1000000000;

impl Position {
    /// The worth of a position to the controlled agent. A lost position is
    /// worth `LOSS_SCORE` plus the turn; any other is worth the controlled
    /// agent's territory minus the territory of all the others.
    pub open spec fn score(self) -> int {
        if self.lost() {
            LOSS_SCORE + self.turn
        } else {
            2 * territory(self, 0) - territory_sum(self, PLAYER_COUNT as nat)
        }
    }
}

/// Number of replies to a position: four moves of the controlled agent on
/// a maximising ply, every joint move of the opponents on a minimising one.
pub open spec fn child_count(maximising: bool) -> nat {
    if maximising {
        DIRECTION_COUNT as nat
    } else {
        joint_moves(OPPONENT_COUNT as nat).len()
    }
}

/// The position after the `k`-th reply.
pub open spec fn child(p: Position, maximising: bool, k: int) -> Position {
    if maximising {
        p.step(0, direction_at(k))
    } else {
        p.joint_step(joint_moves(OPPONENT_COUNT as nat)[k])
    }
}

/// The greater of two values on a maximising ply, the lesser on a
/// minimising one.
pub open spec fn better(maximising: bool, a: int, b: int) -> int {
    if maximising {
        if a >= b {
            a
        } else {
            b
        }
    } else {
        if a <= b {
            a
        } else {
            b
        }
    }
}

/// The value of a position by plain minimax to `depth` plies: the score at
/// depth 0, else the best value among all replies, where the controlled
/// agent maximises and the opponents, moving jointly, minimise.
pub open spec fn minimax(p: Position, depth: nat, maximising: bool) -> int
    decreases depth, 1nat, 0nat,
{
    if depth == 0 {
        p.score()
    } else {
        best_from(p, depth, maximising, 0)
    }
}

/// The best value among the replies from the `k`-th on.
pub open spec fn best_from(p: Position, depth: nat, maximising: bool, k: nat) -> int
    decreases depth, 0nat, child_count(maximising) - k,
{
    if depth == 0 || k >= child_count(maximising) {
        0
    } else {
        let value = minimax(child(p, maximising, k as int), (depth - 1) as nat, !maximising);
        if k + 1 >= child_count(maximising) {
            value
        } else {
            better(maximising, value, best_from(p, depth, maximising, k + 1))
        }
    }
}

/// The value that the pruned search returns for the window from `alpha`
/// to `beta`.
pub open spec fn pruned(p: Position, depth: nat, alpha: int, beta: int, maximising: bool) -> int
    decreases depth, 1nat, 0nat,
{
    if depth == 0 {
        p.score()
    } else {
        let start: int = if maximising {
            i32::MIN as int
        } else {
            i32::MAX as int
        };
        pruned_from(p, depth, alpha, beta, maximising, start, 0)
    }
}

/// The value that the pruned search returns when it has come to the
/// `k`-th reply with the running value `value`: it takes the reply's value
/// into the running value, stops if that leaves the window on the far
/// side, and else narrows the window to it and goes on.
pub open spec fn pruned_from(
    p: Position,
    depth: nat,
    alpha: int,
    beta: int,
    maximising: bool,
    value: int,
    k: nat,
) -> int
    decreases depth, 0nat, child_count(maximising) - k,
{
    if depth == 0 || k >= child_count(maximising) {
        value
    } else {
        let reply = pruned(child(p, maximising, k as int), (depth - 1) as nat, alpha, beta, !maximising);
        let next = better(maximising, value, reply);
        if maximising {
            if next >= beta {
                next
            } else {
                pruned_from(p, depth, better(true, alpha, next), beta, maximising, next, k + 1)
            }
        } else {
            if next <= alpha {
                next
            } else {
                pruned_from(p, depth, alpha, better(false, beta, next), maximising, next, k + 1)
            }
        }
    }
}

/// What a value `found` by a search in the window from `alpha` to `beta`
/// says of the true value `exact`: inside the window it is the true value,
/// at or below `alpha` it is an upper bound, at or above `beta` a lower one.
pub open spec fn stands_for(found: int, exact: int, alpha: int, beta: int) -> bool {
    &&& found <= alpha ==> exact <= found
    &&& found >= beta ==> exact >= found
    &&& alpha < found < beta ==> found == exact
}

/// A move leaves a well-formed position well-formed.
pub proof fn lemma_step_well_formed(p: Position, i: int, d: Direction)
    requires
        p.well_formed(),
        0 <= i < PLAYER_COUNT,
    ensures
        p.step(i, d).well_formed(),
        p.step(i, d).turn == p.turn,
{
    let q = p.step(i, d);
    assert forall|j: int| 0 <= j < PLAYER_COUNT implies in_grid((#[trigger] q.heads[j]).0, q.heads[j].1) by {
        assert(in_grid(p.heads[j].0, p.heads[j].1));
    }
}

/// The moves of the first `n` opponents leave a well-formed position
/// well-formed.
pub proof fn lemma_step_opponents_well_formed(p: Position, moves: Seq<Direction>, n: nat)
    requires
        p.well_formed(),
        n < PLAYER_COUNT,
    ensures
        p.step_opponents(moves, n).well_formed(),
        p.step_opponents(moves, n).turn == p.turn,
    decreases n,
{
    if n > 0 {
        lemma_step_opponents_well_formed(p, moves, (n - 1) as nat);
        lemma_step_well_formed(p.step_opponents(moves, (n - 1) as nat), n as int, moves[n - 1]);
    }
}

/// Every reply leaves a well-formed position well-formed; a joint move of
/// the opponents counts the turn up by one, a move of the controlled agent
/// leaves it as it is.
pub proof fn lemma_child_well_formed(p: Position, maximising: bool, k: int)
    requires
        p.well_formed(),
    ensures
        child(p, maximising, k).well_formed(),
        child(p, maximising, k).turn == p.turn + (if maximising { 0int } else { 1int }),
{
    if maximising {
        lemma_step_well_formed(p, 0, direction_at(k));
    } else {
        let moves = joint_moves(OPPONENT_COUNT as nat)[k];
        lemma_step_opponents_well_formed(p, moves, OPPONENT_COUNT as nat);
        let moved = p.step_opponents(moves, OPPONENT_COUNT as nat);
        let q = p.joint_step(moves);
        assert forall|j: int| 0 <= j < PLAYER_COUNT implies in_grid((#[trigger] q.heads[j]).0, q.heads[j].1) by {
            assert(in_grid(moved.heads[j].0, moved.heads[j].1));
        }
    }
}

/// The territories of the first `n` agents together are at most one field
/// each.
pub proof fn lemma_territory_sum_bound(p: Position, n: nat)
    ensures
        territory_sum(p, n) <= n * FIELD_CELLS,
    decreases n,
{
    if n > 0 {
        lemma_territory_sum_bound(p, (n - 1) as nat);
        lemma_gained_bound(
            planted(p.heads, PLAYER_COUNT as nat),
            settled(p),
            n - 1,
            FIELD_CELLS as nat,
        );
    }
}

/// The score of a position whose turn fits in `i32` lies strictly within
/// `i32`.
pub proof fn lemma_score_bounds(p: Position)
    requires
        0 <= p.turn <= i32::MAX,
    ensures
        i32::MIN < p.score() < i32::MAX,
{
    lemma_territory_sum_bound(p, PLAYER_COUNT as nat);
    lemma_gained_bound(planted(p.heads, PLAYER_COUNT as nat), settled(p), 0, FIELD_CELLS as nat);
}

/// The minimax value of a position whose turn fits in `i32` throughout the
/// search lies strictly within `i32`.
pub proof fn lemma_minimax_bounds(p: Position, depth: nat, maximising: bool)
    requires
        p.well_formed(),
        p.turn + depth <= i32::MAX,
    ensures
        i32::MIN < minimax(p, depth, maximising) < i32::MAX,
    decreases depth, 1nat, 0nat,
{
    if depth == 0 {
        lemma_score_bounds(p);
    } else {
        lemma_joint_moves_shape(OPPONENT_COUNT as nat);
        lemma_best_from_bounds(p, depth, maximising, 0);
    }
}

/// The best value among the replies from the `k`-th on lies strictly
/// within `i32`.
pub proof fn lemma_best_from_bounds(p: Position, depth: nat, maximising: bool, k: nat)
    requires
        p.well_formed(),
        p.turn + depth <= i32::MAX,
        depth > 0,
        k < child_count(maximising),
    ensures
        i32::MIN < best_from(p, depth, maximising, k) < i32::MAX,
    decreases depth, 0nat, child_count(maximising) - k,
{
    lemma_child_well_formed(p, maximising, k as int);
    lemma_minimax_bounds(child(p, maximising, k as int), (depth - 1) as nat, !maximising);
    if k + 1 < child_count(maximising) {
        lemma_best_from_bounds(p, depth, maximising, k + 1);
    }
}

/// Pruning does not change the value: within its window the pruned search
/// finds the minimax value, and outside it a bound on the side where the
/// minimax value lies.
pub proof fn lemma_pruning_keeps_value(p: Position, depth: nat, alpha: int, beta: int, maximising: bool)
    requires
        p.well_formed(),
        p.turn + depth <= i32::MAX,
        i32::MIN <= alpha < beta <= i32::MAX,
    ensures
        stands_for(pruned(p, depth, alpha, beta, maximising), minimax(p, depth, maximising), alpha, beta),
    decreases depth, 1nat, 0nat,
{
    if depth > 0 {
        lemma_joint_moves_shape(OPPONENT_COUNT as nat);
        lemma_best_from_bounds(p, depth, maximising, 0);
        let start: int = if maximising {
            i32::MIN as int
        } else {
            i32::MAX as int
        };
        lemma_pruned_from_keeps_value(p, depth, alpha, beta, alpha, beta, maximising, start, start, 0);
    }
}

/// The step of `lemma_pruning_keeps_value` along the replies. The search
/// began with the window from `alpha0` to `beta0` and has come to the
/// `k`-th reply with the running value `value`; `seen` is the best minimax
/// value among the replies before the `k`-th.
pub proof fn lemma_pruned_from_keeps_value(
    p: Position,
    depth: nat,
    alpha0: int,
    beta0: int,
    alpha: int,
    beta: int,
    maximising: bool,
    value: int,
    seen: int,
    k: nat,
)
    requires
        p.well_formed(),
        p.turn + depth <= i32::MAX,
        depth > 0,
        i32::MIN <= alpha0 < beta0 <= i32::MAX,
        k <= child_count(maximising),
        i32::MIN <= seen <= i32::MAX,
        maximising ==> beta == beta0 && alpha == better(true, alpha0, value) && value < beta0 && (value
            <= alpha0 ==> seen <= value) && (value > alpha0 ==> value == seen),
        !maximising ==> alpha == alpha0 && beta == better(false, beta0, value) && value > alpha0 && (
        value >= beta0 ==> seen >= value) && (value < beta0 ==> value == seen),
    ensures
        stands_for(
            pruned_from(p, depth, alpha, beta, maximising, value, k),
            if k == child_count(maximising) {
                seen
            } else {
                better(maximising, seen, best_from(p, depth, maximising, k))
            },
            alpha0,
            beta0,
        ),
    decreases depth, 0nat, child_count(maximising) - k,
{
    if k < child_count(maximising) {
        let c = child(p, maximising, k as int);
        lemma_child_well_formed(p, maximising, k as int);
        lemma_minimax_bounds(c, (depth - 1) as nat, !maximising);
        lemma_pruning_keeps_value(c, (depth - 1) as nat, alpha, beta, !maximising);
        let exact = minimax(c, (depth - 1) as nat, !maximising);
        let reply = pruned(c, (depth - 1) as nat, alpha, beta, !maximising);
        let next = better(maximising, value, reply);
        let seen_next = better(maximising, seen, exact);
        if k + 1 < child_count(maximising) {
            lemma_best_from_bounds(p, depth, maximising, k + 1);
        }
        if maximising {
            if next < beta {
                lemma_pruned_from_keeps_value(
                    p,
                    depth,
                    alpha0,
                    beta0,
                    better(true, alpha, next),
                    beta,
                    maximising,
                    next,
                    seen_next,
                    k + 1,
                );
            }
        } else {
            if next > alpha {
                lemma_pruned_from_keeps_value(
                    p,
                    depth,
                    alpha0,
                    beta0,
                    alpha,
                    better(false, beta, next),
                    maximising,
                    next,
                    seen_next,
                    k + 1,
                );
            }
        }
    }
}

/// With the widest window the pruned search returns the minimax value.
pub proof fn lemma_full_window_is_minimax(p: Position, depth: nat, maximising: bool)
    requires
        p.well_formed(),
        p.turn + depth <= i32::MAX,
    ensures
        pruned(p, depth, i32::MIN as int, i32::MAX as int, maximising) == minimax(p, depth, maximising),
{
    lemma_pruning_keeps_value(p, depth, i32::MIN as int, i32::MAX as int, maximising);
    lemma_minimax_bounds(p, depth, maximising);
}

/// Of two lost positions the one lost at the later turn scores higher.
pub proof fn lemma_later_loss_scores_higher(earlier: Position, later: Position)
    requires
        earlier.lost(),
        later.lost(),
        earlier.turn < later.turn,
    ensures
        earlier.score() < later.score(),
{
}

/// A lost position scores below every position that is not lost, until
/// the turns survived make up for all the cells of the field.
pub proof fn lemma_loss_scores_lowest(lost: Position, other: Position)
    requires
        lost.lost(),
        !other.lost(),
        lost.turn + PLAYER_COUNT * FIELD_CELLS < -LOSS_SCORE,
    ensures
        lost.score() < other.score(),
{
    lemma_territory_sum_bound(other, PLAYER_COUNT as nat);
}

impl Node {
    /// The worth of this state to the controlled agent: `LOSS_SCORE` plus
    /// the turn where the agent has lost, else its territory minus the
    /// territory of all the others.
    pub fn evaluate(&self) -> (score: i32)
        requires
            self@.well_formed(),
        ensures
            score == self@.score(),
    {
        if self.is_head_colliding_wall(0) || self.is_head_colliding_snake(0) || self.our_health
            <= EXHAUSTION_THRESHOLD {
            LOSS_SCORE + self.turn
        } else {
            let scores = voronoi(self);
            let mut total: i32 = 0;
            let mut a: usize = 0;
            while a < PLAYER_COUNT
                invariant
                    a <= PLAYER_COUNT,
                    total == territory_sum(self@, a as nat),
                    forall|b: int| 0 <= b < PLAYER_COUNT ==> (#[trigger] scores[b]) == territory(self@, b),
                decreases PLAYER_COUNT - a,
            {
                proof {
                    lemma_territory_sum_bound(self@, a as nat);
                    lemma_territory_sum_bound(self@, (a + 1) as nat);
                }
                total += scores[a];
                a += 1;
            }
            proof {
                lemma_territory_sum_bound(self@, PLAYER_COUNT as nat);
                lemma_gained_bound(
                    planted(self@.heads, PLAYER_COUNT as nat),
                    settled(self@),
                    0,
                    FIELD_CELLS as nat,
                );
            }
            2 * scores[0] - total
        }
    }
}

/// The value of `node` by a search to `depth` plies in the window from
/// `alpha` to `beta`. On a maximising ply the controlled agent moves, on a
/// minimising one all opponents move jointly and the turn is counted.
/// Replies that cannot matter within the window are left out, which does
/// not change the value: within the window the result is the minimax
/// value, and with the widest window it always is.
pub fn alphabeta(node: Node, depth: i32, alpha: i32, beta: i32, maximising_player: bool) -> (value: i32)
    requires
        depth >= 0,
        node@.well_formed(),
        node.room_for(depth as int),
    ensures
        value == pruned(node@, depth as nat, alpha as int, beta as int, maximising_player),
        alpha < beta ==> stands_for(
            value as int,
            minimax(node@, depth as nat, maximising_player),
            alpha as int,
            beta as int,
        ),
        alpha == i32::MIN && beta == i32::MAX ==> value == minimax(node@, depth as nat, maximising_player),
    decreases depth,
{
    proof {
        if alpha < beta {
            lemma_pruning_keeps_value(node@, depth as nat, alpha as int, beta as int, maximising_player);
        }
        lemma_full_window_is_minimax(node@, depth as nat, maximising_player);
    }
    if depth == 0 {
        return node.evaluate();
    }
    let ghost p = node@;
    let ghost d = depth as nat;
    if maximising_player {
        let mut alpha = alpha;
        let ghost alpha0 = alpha as int;
        let mut value = i32::MIN;
        let mut k: usize = 0;
        while k < DIRECTION_COUNT
            invariant_except_break
                k <= DIRECTION_COUNT,
                pruned_from(p, d, alpha0, beta as int, true, i32::MIN as int, 0) == pruned_from(
                    p,
                    d,
                    alpha as int,
                    beta as int,
                    true,
                    value as int,
                    k as nat,
                ),
            invariant
                depth > 0,
                d == depth,
                p == node@,
                node@.well_formed(),
                node.room_for(depth as int),
            ensures
                value == pruned_from(p, d, alpha0, beta as int, true, i32::MIN as int, 0),
            decreases DIRECTION_COUNT - k,
        {
            let new_node = node.apply_move(0, nth_direction(k));
            proof {
                lemma_child_well_formed(p, true, k as int);
            }
            let reply = alphabeta(new_node, depth - 1, alpha, beta, false);
            if reply > value {
                value = reply;
            }
            if value >= beta {
                break ;
            }
            if value > alpha {
                alpha = value;
            }
            k += 1;
        }
        value
    } else {
        let mut beta = beta;
        let ghost beta0 = beta as int;
        let mut value = i32::MAX;
        let turns = enemy_turns();
        let mut k: usize = 0;
        while k < turns.len()
            invariant_except_break
                k <= turns@.len(),
                pruned_from(p, d, alpha as int, beta0, false, i32::MAX as int, 0) == pruned_from(
                    p,
                    d,
                    alpha as int,
                    beta as int,
                    false,
                    value as int,
                    k as nat,
                ),
            invariant
                depth > 0,
                d == depth,
                p == node@,
                node@.well_formed(),
                node.room_for(depth as int),
                turns@.len() == child_count(false),
                forall|j: int|
                    0 <= j < turns@.len() ==> (#[trigger] turns@[j])@ == joint_moves(
                        OPPONENT_COUNT as nat,
                    )[j],
            ensures
                value == pruned_from(p, d, alpha as int, beta0, false, i32::MAX as int, 0),
            decreases turns@.len() - k,
        {
            proof {
                lemma_joint_moves_shape(OPPONENT_COUNT as nat);
            }
            let new_node = node.apply_move_array(&turns[k]);
            proof {
                lemma_child_well_formed(p, false, k as int);
            }
            let reply = alphabeta(new_node, depth - 1, alpha, beta, true);
            if reply < value {
                value = reply;
            }
            if value <= alpha {
                break ;
            }
            if value < beta {
                beta = value;
            }
            k += 1;
        }
        value
    }
}

/// Whether the `i`-th direction is the choice at `p` for a search to
/// `depth` plies: no direction leads to a position of greater minimax
/// value, and every direction tried before it leads to one of smaller
/// value.
pub open spec fn first_best(p: Position, depth: nat, i: int) -> bool {
    &&& 0 <= i < DIRECTION_COUNT
    &&& forall|j: int|
        0 <= j < DIRECTION_COUNT ==> #[trigger] minimax(p.step(0, direction_at(j)), depth, false) <= minimax(
            p.step(0, direction_at(i)),
            depth,
            false,
        )
    &&& forall|j: int|
        0 <= j < i ==> #[trigger] minimax(p.step(0, direction_at(j)), depth, false) < minimax(
            p.step(0, direction_at(i)),
            depth,
            false,
        )
}

/// The direction to take at `node`: each of the four is valued by a search
/// to `depth` plies of the position it leads to, the opponents to move, and
/// the first of greatest value is chosen. A move into the wall or into a
/// body is valued like any other, so there always is a choice.
pub fn best_move(node: &Node, depth: i32) -> (choice: Direction)
    requires
        depth >= 0,
        node@.well_formed(),
        node.room_for(depth as int),
    ensures
        exists|i: int| first_best(node@, depth as nat, i) && choice == direction_at(i),
{
    let ghost p = node@;
    let ghost d = depth as nat;
    let mut best: usize = 0;
    let mut best_score: i32 = i32::MIN;
    let mut k: usize = 0;
    while k < DIRECTION_COUNT
        invariant
            k <= DIRECTION_COUNT,
            depth >= 0,
            d == depth,
            p == node@,
            node@.well_formed(),
            node.room_for(depth as int),
            k == 0 ==> best == 0 && best_score == i32::MIN,
            k > 0 ==> best < k && best_score == minimax(p.step(0, direction_at(best as int)), d, false),
            forall|j: int| 0 <= j < k ==> #[trigger] minimax(p.step(0, direction_at(j)), d, false) <= best_score,
            forall|j: int| 0 <= j < best ==> #[trigger] minimax(p.step(0, direction_at(j)), d, false) < best_score,
        decreases DIRECTION_COUNT - k,
    {
        let new_node = node.apply_move(0, nth_direction(k));
        proof {
            lemma_step_well_formed(p, 0, direction_at(k as int));
            lemma_full_window_is_minimax(new_node@, d, false);
            lemma_minimax_bounds(new_node@, d, false);
        }
        let score = alphabeta(new_node, depth, i32::MIN, i32::MAX, false);
        if score > best_score {
            best_score = score;
            best = k;
        }
        k += 1;
    }
    proof {
        assert(first_best(p, d, best as int));
    }
    nth_direction(best)
}

} // verus!
