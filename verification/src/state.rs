//! The game position at one turn: its mathematical model, the executable
//! state that the search copies from ply to ply, and the move and collision
//! rules.

use vstd::prelude::*;
use crate::grid::{cell_index, in_field, in_grid, Coord, DenseBoard, Direction, BOARD_SIZE, DENSE_BOARD_CELLS};
use crate::joint::{joint_get, JointMove};

verus! {

/// Number of agents in a position; agent 0 is the controlled one.
pub const PLAYER_COUNT: usize = 2;

/// Number of agents other than the controlled one.
pub const OPPONENT_COUNT: usize = 1;

/// Health at or below which the controlled agent counts as lost.
pub const EXHAUSTION_THRESHOLD: i32 = 2;

/// Stamp of a cell that never becomes free.
pub const WALL: i32 = i32::MAX;

/// A position as plain mathematics: what `Node` stands for.
#[verifier::ext_equal]
pub struct Position {
    /// Ply counter.
    pub turn: int,
    /// Per stored cell, the turn from which the cell is free again.
    pub stamps: Seq<int>,
    /// Head cell `(x, y)` of each agent.
    pub heads: Seq<(int, int)>,
    /// Body length of each agent.
    pub lengths: Seq<int>,
    /// Remaining health of the controlled agent.
    pub health: int,
}

/// Change of `x` that a move in direction `d` makes.
pub open spec fn dx(d: Direction) -> int {
    match d {
        Direction::Left => -1,
        Direction::Right => 1,
        _ => 0,
    }
}

/// Change of `y` that a move in direction `d` makes.
pub open spec fn dy(d: Direction) -> int {
    match d {
        Direction::Up => -1,
        Direction::Down => 1,
        _ => 0,
    }
}

/// The direction that undoes `d`.
pub open spec fn opposite(d: Direction) -> Direction {
    match d {
        Direction::Up => Direction::Down,
        Direction::Down => Direction::Up,
        Direction::Left => Direction::Right,
        Direction::Right => Direction::Left,
    }
}

/// Whether `(x, y)` lies on the outermost ring of the field or beyond it.
pub open spec fn on_ring(x: int, y: int) -> bool {
    x <= 0 || x >= BOARD_SIZE - 1 || y <= 0 || y >= BOARD_SIZE - 1
}

impl Position {
    /// The shape every position has: a turn that is not negative, one stamp
    /// per stored cell, one head and one length per agent, every head on a
    /// stored cell.
    pub open spec fn well_formed(self) -> bool {
        &&& 0 <= self.turn
        &&& self.stamps.len() == DENSE_BOARD_CELLS
        &&& self.heads.len() == PLAYER_COUNT
        &&& self.lengths.len() == PLAYER_COUNT
        &&& forall|i: int| 0 <= i < PLAYER_COUNT ==> in_grid((#[trigger] self.heads[i]).0, self.heads[i].1)
    }

    /// The stamp of cell `(x, y)`.
    pub open spec fn stamp(self, x: int, y: int) -> int {
        self.stamps[cell_index(x, y)]
    }

    /// Whether some body segment still lies on `(x, y)` at this turn.
    pub open spec fn occupied(self, x: int, y: int) -> bool {
        self.stamp(x, y) > self.turn
    }

    /// Whether the head of agent `i` touches the wall.
    pub open spec fn hits_wall(self, i: int) -> bool {
        on_ring(self.heads[i].0, self.heads[i].1)
    }

    /// Whether the head of agent `i` touches the wall or lies on a body.
    pub open spec fn hits_body(self, i: int) -> bool {
        self.hits_wall(i) || self.occupied(self.heads[i].0, self.heads[i].1)
    }

    /// Whether the controlled agent has lost in this position.
    pub open spec fn lost(self) -> bool {
        self.hits_wall(0) || self.hits_body(0) || self.health <= EXHAUSTION_THRESHOLD
    }

    /// The position after agent `i` has moved one cell in direction `d`: the
    /// cell it leaves is stamped with the agent's length plus the turn. An
    /// agent whose head touches the wall stays where it is.
    pub open spec fn step(self, i: int, d: Direction) -> Position {
        if self.hits_wall(i) {
            self
        } else {
            let (x, y) = self.heads[i];
            Position {
                stamps: self.stamps.update(cell_index(x, y), self.lengths[i] + self.turn),
                heads: self.heads.update(i, (x + dx(d), y + dy(d))),
                ..self
            }
        }
    }

    /// The position after agents `1..=n` have moved, agent `k` by `moves[k - 1]`.
    pub open spec fn step_opponents(self, moves: Seq<Direction>, n: nat) -> Position
        decreases n,
    {
        if n == 0 {
            self
        } else {
            self.step_opponents(moves, (n - 1) as nat).step(n as int, moves[n - 1])
        }
    }

    /// The position after every opponent has moved and the ply is counted:
    /// the turn goes up by one and the controlled agent's health down by one.
    pub open spec fn joint_step(self, moves: Seq<Direction>) -> Position {
        let moved = self.step_opponents(moves, OPPONENT_COUNT as nat);
        Position { turn: moved.turn + 1, health: moved.health - 1, ..moved }
    }
}

/// A move and then the opposite move bring the head back to its cell and
/// leave every other head, the turn, the lengths and the health as they
/// were. The stamps are not restored: the two cells that the head left on
/// the way hold the agent's length plus the turn, all others are unchanged.
/// This holds unless the first move ends on the ring, from which no head
/// moves on.
pub proof fn lemma_move_and_back(p: Position, i: int, d: Direction)
    requires
        p.well_formed(),
        0 <= i < PLAYER_COUNT,
        p.hits_wall(i) || !p.step(i, d).hits_wall(i),
    ensures
        p.step(i, d).step(i, opposite(d)).heads == p.heads,
        p.step(i, d).step(i, opposite(d)).turn == p.turn,
        p.step(i, d).step(i, opposite(d)).lengths == p.lengths,
        p.step(i, d).step(i, opposite(d)).health == p.health,
        p.hits_wall(i) ==> p.step(i, d).step(i, opposite(d)) == p,
        !p.hits_wall(i) ==> p.step(i, d).step(i, opposite(d)).stamps == p.stamps.update(
            cell_index(p.heads[i].0, p.heads[i].1),
            p.lengths[i] + p.turn,
        ).update(cell_index(p.heads[i].0 + dx(d), p.heads[i].1 + dy(d)), p.lengths[i] + p.turn),
{
    let there = p.step(i, d);
    let back = there.step(i, opposite(d));
    if !p.hits_wall(i) {
        assert(in_grid(p.heads[i].0, p.heads[i].1));
        assert(back.heads =~= p.heads);
    }
}

/// `lemma_move_and_back` for states: where `there` is what a move of agent
/// `i` in direction `d` makes of `start`, and `back` what the opposite
/// move makes of `there`, the head of agent `i` is back on its cell, and
/// the other heads, the turn, the lengths and the health are those of
/// `start`. The two cells that the head left hold the agent's length plus
/// the turn, and every other cell is as in `start`.
pub proof fn lemma_node_move_and_back(start: Node, there: Node, back: Node, i: int, d: Direction)
    requires
        0 <= i < PLAYER_COUNT,
        in_grid(start.heads[i].x as int, start.heads[i].y as int),
        there@ == start@.step(i, d),
        back@ == there@.step(i, opposite(d)),
        start@.hits_wall(i) || !there@.hits_wall(i),
    ensures
        back.heads == start.heads,
        back.turn == start.turn,
        back.lengths == start.lengths,
        back.our_health == start.our_health,
        start@.hits_wall(i) ==> back.board == start.board,
        !start@.hits_wall(i) ==> forall|x: int, y: int|
            in_grid(x, y) ==> (#[trigger] back.board.at(x, y)) as int == (if (x, y) == start@.heads[i] || (x, y)
                == there@.heads[i] {
                start.lengths[i] + start.turn
            } else {
                start.board.at(x, y) as int
            }),
{
    let p = start@;
    let q = back@;
    assert(q.turn == p.turn && q.health == p.health);
    if p.hits_wall(i) {
        assert(q == p);
    } else {
        assert(q.heads =~= p.heads);
        assert(q.lengths =~= p.lengths);
    }
    assert forall|k: int| 0 <= k < PLAYER_COUNT implies back.heads[k] == start.heads[k] by {
        assert(q.heads[k] == p.heads[k]);
    }
    assert forall|k: int| 0 <= k < PLAYER_COUNT implies back.lengths[k] == start.lengths[k] by {
        assert(q.lengths[k] == p.lengths[k]);
    }
    assert(back.heads =~= start.heads);
    assert(back.lengths =~= start.lengths);
    if p.hits_wall(i) {
        assert forall|k: int| 0 <= k < DENSE_BOARD_CELLS implies back.board.board[k] == start.board.board[k] by {
            assert(q.stamps[k] == p.stamps[k]);
        }
        assert(back.board.board =~= start.board.board);
    } else {
        assert forall|x: int, y: int| in_grid(x, y) implies (#[trigger] back.board.at(x, y)) as int == (if (
        x,
        y,
        ) == p.heads[i] || (x, y) == there@.heads[i] {
            start.lengths[i] + start.turn
        } else {
            start.board.at(x, y) as int
        }) by {
            let k = cell_index(x, y);
            assert(0 <= k < DENSE_BOARD_CELLS);
            assert(q.stamps[k] == back.board.at(x, y));
            assert(p.stamps[k] == start.board.at(x, y));
            assert(p.lengths[i] == start.lengths[i]);
            let (hx, hy) = p.heads[i];
            let (mx, my) = there@.heads[i];
            assert(in_grid(hx, hy) && in_grid(mx, my));
        }
    }
}

/// The state of the game at one turn, as the search copies it.
#[derive(Clone, Copy, Debug, PartialEq, Eq)]
pub struct Node {
    pub turn: i32,
    pub board: DenseBoard<i32>,
    pub heads: [Coord; PLAYER_COUNT],
    pub lengths: [i32; PLAYER_COUNT],
    pub our_health: i32,
}

impl View for Node {
    type V = Position;

    open spec fn view(&self) -> Position {
        Position {
            turn: self.turn as int,
            stamps: Seq::new(DENSE_BOARD_CELLS as nat, |k: int| self.board@[k] as int),
            heads: Seq::new(PLAYER_COUNT as nat, |i: int| (self.heads[i].x as int, self.heads[i].y as int)),
            lengths: Seq::new(PLAYER_COUNT as nat, |i: int| self.lengths[i] as int),
            health: self.our_health as int,
        }
    }
}

impl Node {
    /// Whether the counters can take `plies` more joint moves: every stamp
    /// that a move writes, the turn and the health stay within `i32`.
    pub open spec fn room_for(&self, plies: int) -> bool {
        &&& self.turn + plies <= i32::MAX
        &&& self.our_health - plies >= i32::MIN
        &&& forall|i: int|
            0 <= i < PLAYER_COUNT ==> i32::MIN <= (#[trigger] self.lengths[i]) + self.turn
                && self.lengths[i] + self.turn + plies <= i32::MAX
    }

    /// A state at `turn` with the given stamps, heads and health, and with
    /// every length zero.
    pub fn new(turn: i32, board: DenseBoard<i32>, heads: [Coord; PLAYER_COUNT], our_health: i32) -> (node: Node)
        ensures
            node.turn == turn,
            node.board == board,
            node.heads == heads,
            node.our_health == our_health,
            forall|i: int| 0 <= i < PLAYER_COUNT ==> node.lengths[i] == 0,
    {
        Node { turn, board, heads, lengths: [0; PLAYER_COUNT], our_health }
    }

    /// True iff the head of agent `snake_idx` lies on the outermost ring of
    /// the field or beyond it. For a head on the field that is: in the
    /// first or last column or in the first or last row.
    pub fn is_head_colliding_wall(&self, snake_idx: usize) -> (hit: bool)
        requires
            snake_idx < PLAYER_COUNT,
        ensures
            hit == self@.hits_wall(snake_idx as int),
            hit == on_ring(self.heads[snake_idx as int].x as int, self.heads[snake_idx as int].y as int),
            in_field(self.heads[snake_idx as int].x as int, self.heads[snake_idx as int].y as int) ==> hit
                == (self.heads[snake_idx as int].x == 0 || self.heads[snake_idx as int].x == BOARD_SIZE - 1
                || self.heads[snake_idx as int].y == 0 || self.heads[snake_idx as int].y == BOARD_SIZE - 1),
    {
        self.heads[snake_idx].x <= 0 || self.heads[snake_idx].x >= (BOARD_SIZE - 1) as i32
            || self.heads[snake_idx].y <= 0 || self.heads[snake_idx].y >= (BOARD_SIZE - 1) as i32
    }

    /// The state after agent `snake_idx` has moved one cell in `direction`:
    /// the cell that the head leaves is stamped with the agent's length
    /// plus the turn, which must fit in `i32`. An agent whose head touches
    /// the wall stays where it is, and moving into the wall or into a body
    /// is a move like any other. The turn and the health stay as they are.
    pub fn apply_move(&self, snake_idx: usize, direction: Direction) -> (next: Node)
        requires
            snake_idx < PLAYER_COUNT,
            self@.hits_wall(snake_idx as int) || i32::MIN <= self.lengths[snake_idx as int] + self.turn
                <= i32::MAX,
        ensures
            next@ == self@.step(snake_idx as int, direction),
            next.turn == self.turn,
            next.our_health == self.our_health,
            next.lengths == self.lengths,
    {
        let mut new_node = *self;
        if new_node.is_head_colliding_wall(snake_idx) {
            return *self;
        }
        match direction {
            Direction::Up => new_node.heads[snake_idx].y -= 1,
            Direction::Down => new_node.heads[snake_idx].y += 1,
            Direction::Left => new_node.heads[snake_idx].x -= 1,
            Direction::Right => new_node.heads[snake_idx].x += 1,
        }
        *new_node.board.get_coord_mut(self.heads[snake_idx]) = self.lengths[snake_idx] + self.turn;
        proof {
            assert(new_node@.stamps =~= self@.step(snake_idx as int, direction).stamps);
            assert(new_node@.heads =~= self@.step(snake_idx as int, direction).heads);
            assert(new_node@.lengths =~= self@.step(snake_idx as int, direction).lengths);
        }
        new_node
    }

    /// True iff the head of agent `snake_idx` touches the wall or lies on a
    /// cell that a body still occupies at this turn.
    pub fn is_head_colliding_snake(&self, snake_idx: usize) -> (hit: bool)
        requires
            snake_idx < PLAYER_COUNT,
        ensures
            hit == self@.hits_body(snake_idx as int),
    {
        if self.is_head_colliding_wall(snake_idx) {
            return true;
        }
        let Coord { x, y } = self.heads[snake_idx];
        self.board.get_xy(x as isize, y as isize) > self.turn
    }

    /// The state after every opponent has moved, opponent `k + 1` by the
    /// `k`-th direction of `directions`, and the ply is counted: the turn
    /// goes up by one, the controlled agent's health down by one.
    pub fn apply_move_array(&self, directions: &JointMove) -> (next: Node)
        requires
            directions@.len() == OPPONENT_COUNT,
            self.room_for(1),
        ensures
            next@ == self@.joint_step(directions@),
            next.turn == self.turn + 1,
            next.our_health == self.our_health - 1,
            next.lengths == self.lengths,
    {
        let mut node = *self;
        let mut i: usize = 1;
        while i < PLAYER_COUNT
            invariant
                1 <= i <= PLAYER_COUNT,
                directions@.len() == OPPONENT_COUNT,
                self.room_for(1),
                node@ == self@.step_opponents(directions@, (i - 1) as nat),
                node.turn == self.turn,
                node.our_health == self.our_health,
                node.lengths == self.lengths,
            decreases PLAYER_COUNT - i,
        {
            node = node.apply_move(i, joint_get(directions, i - 1));
            i += 1;
        }
        node.turn += 1;
        node.our_health -= 1;
        proof {
            assert(node@.stamps =~= self@.joint_step(directions@).stamps);
            assert(node@.heads =~= self@.joint_step(directions@).heads);
            assert(node@.lengths =~= self@.joint_step(directions@).lengths);
        }
        node
    }
}

} // verus!
