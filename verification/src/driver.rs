//! The entry points that a game server's turn requests are handed to: the
//! root state is built from the snapshot, the controlled snake as agent 0,
//! and the search picks the move.

use vstd::prelude::*;
use crate::grid::{cell_index, in_field, in_grid, Coord, DenseBoard, Direction, BOARD_SIZE, DENSE_BOARD_CELLS};
use crate::joint::direction_at;
use crate::search::{best_move, first_best};
use crate::snapshot::{Battlesnake, Board, Game};
use crate::state::{Node, Position, PLAYER_COUNT, WALL};
use crate::territory::{column_of, row_of};

verus! {

/// Number of plies that the search looks ahead from each of the four root
/// moves.
pub const SEARCH_DEPTH: i32 = 2;

/// Whether a body has a head and lies on the field with every segment.
pub open spec fn on_field(body: Seq<Coord>) -> bool {
    &&& body.len() >= 1
    &&& forall|i: int| 0 <= i < body.len() ==> in_field((#[trigger] body[i]).x as int, body[i].y as int)
}

/// Whether a body can be put on the board at `turn`: it lies on the field,
/// and its stamps stay within `i32` throughout the search.
pub open spec fn body_ok(turn: i32, body: Seq<Coord>) -> bool {
    &&& on_field(body)
    &&& turn + body.len() + SEARCH_DEPTH <= i32::MAX
}

/// The place in `snakes` of the first snake with the id `id`; the length of
/// `snakes` if none has it. The search starts at `from`.
pub open spec fn place_of(snakes: Seq<Battlesnake>, id: Seq<char>, from: int) -> int
    decreases snakes.len() - from,
{
    if from < 0 || from >= snakes.len() {
        snakes.len() as int
    } else if snakes[from].id@ == id {
        from
    } else {
        place_of(snakes, id, from + 1)
    }
}

/// The bodies of the agents of a snapshot, agent by agent. Agent 0 is the
/// controlled snake `you`, wherever the board lists it and even if the
/// board does not list it. The other agents are the board's snakes in
/// their order, the first one with `you`'s id left out.
pub open spec fn agent_bodies(snakes: Seq<Battlesnake>, you: Battlesnake) -> Seq<Seq<Coord>> {
    let place = place_of(snakes, you.id@, 0);
    let count = if place < snakes.len() {
        snakes.len()
    } else {
        snakes.len() + 1
    };
    Seq::new(
        count,
        |k: int|
            if k == 0 {
                you.body@
            } else if k <= place {
                snakes[k - 1].body@
            } else {
                snakes[k].body@
            },
    )
}

/// The bodies of `snakes`, snake by snake.
pub open spec fn bodies_of(snakes: Seq<Battlesnake>) -> Seq<Seq<Coord>> {
    Seq::new(snakes.len(), |k: int| snakes[k].body@)
}

/// The first snake with the id `id` from `from` on is found at its place.
pub proof fn lemma_place_found(snakes: Seq<Battlesnake>, id: Seq<char>, from: int, place: int)
    requires
        0 <= from <= place < snakes.len(),
        snakes[place].id@ == id,
        forall|j: int| from <= j < place ==> (#[trigger] snakes[j]).id@ != id,
    ensures
        place_of(snakes, id, from) == place,
    decreases place - from,
{
    if from < place {
        assert(snakes[from].id@ != id);
        lemma_place_found(snakes, id, from + 1, place);
    }
}

/// Where no snake from `from` on has the id `id`, none is found.
pub proof fn lemma_place_missing(snakes: Seq<Battlesnake>, id: Seq<char>, from: int)
    requires
        0 <= from <= snakes.len(),
        forall|j: int| from <= j < snakes.len() ==> (#[trigger] snakes[j]).id@ != id,
    ensures
        place_of(snakes, id, from) == snakes.len(),
    decreases snakes.len() - from,
{
    if from < snakes.len() {
        assert(snakes[from].id@ != id);
        lemma_place_missing(snakes, id, from + 1);
    }
}

/// The place of the controlled snake on the board makes no difference.
/// Whether the board lists it first, last, between the others or not at
/// all, the agents are the controlled snake and then the others in their
/// order.
pub proof fn lemma_controlled_snake_comes_first(
    others: Seq<Battlesnake>,
    listed: Battlesnake,
    place: int,
    you: Battlesnake,
)
    requires
        0 <= place <= others.len(),
        listed.id@ == you.id@,
        forall|j: int| 0 <= j < others.len() ==> (#[trigger] others[j]).id@ != you.id@,
    ensures
        agent_bodies(others.insert(place, listed), you) == seq![you.body@] + bodies_of(others),
        agent_bodies(others, you) == seq![you.body@] + bodies_of(others),
{
    let snakes = others.insert(place, listed);
    assert(snakes.len() == others.len() + 1);
    assert(snakes[place] == listed);
    assert forall|j: int| 0 <= j < place implies (#[trigger] snakes[j]).id@ != you.id@ by {
        assert(snakes[j] == others[j]);
    }
    lemma_place_found(snakes, you.id@, 0, place);
    lemma_place_missing(others, you.id@, 0);
    let agents = seq![you.body@] + bodies_of(others);
    assert(agent_bodies(snakes, you) =~= agents) by {
        assert forall|k: int| 0 <= k < agents.len() implies agent_bodies(snakes, you)[k] == agents[k] by {
            if k > place {
                assert(snakes[k] == others[k - 1]);
            } else if k > 0 {
                assert(snakes[k - 1] == others[k - 1]);
            }
        }
    }
    assert(agent_bodies(others, you) =~= agents);
}

/// Whether a snapshot is one that the engine decides on: the turn is not
/// negative and stays within `i32` throughout the search, the controlled
/// agent's health fits in `i32`, there are no more agents than the engine
/// is built for, and every agent's body can be put on the board.
pub open spec fn snapshot_ok(turn: i32, board: Board, you: Battlesnake) -> bool {
    &&& 0 <= turn
    &&& turn + SEARCH_DEPTH <= i32::MAX
    &&& you.health <= i32::MAX
    &&& agent_bodies(board.snakes@, you).len() <= PLAYER_COUNT
    &&& forall|k: int|
        0 <= k < agent_bodies(board.snakes@, you).len() ==> body_ok(
            turn,
            #[trigger] agent_bodies(board.snakes@, you)[k],
        )
}

/// The stamps after the first `n` segments of `body` have been put on
/// `stamps`: the segment at offset `i` from the head is stamped with the
/// turn plus the body's length minus `i`, a later segment on the same cell
/// displacing an earlier one.
pub open spec fn stamp_segments(stamps: Seq<int>, turn: int, body: Seq<Coord>, n: nat) -> Seq<int>
    decreases n,
{
    if n == 0 {
        stamps
    } else {
        stamp_segments(stamps, turn, body, (n - 1) as nat).update(
            cell_index(body[n - 1].x as int, body[n - 1].y as int),
            turn + body.len() - (n - 1),
        )
    }
}

/// The stamps after all of `body` has been put on `stamps` and the head's
/// cell has been stamped with the turn again: the head is about to leave
/// it, so it is no obstacle.
pub open spec fn stamp_body(stamps: Seq<int>, turn: int, body: Seq<Coord>) -> Seq<int> {
    stamp_segments(stamps, turn, body, body.len()).update(
        cell_index(body[0].x as int, body[0].y as int),
        turn,
    )
}

/// The stamps after the bodies of the first `n` agents have been put on an
/// empty grid, one after the other.
pub open spec fn stamp_bodies(turn: int, bodies: Seq<Seq<Coord>>, n: nat) -> Seq<int>
    decreases n,
{
    if n == 0 {
        Seq::new(DENSE_BOARD_CELLS as nat, |k: int| 0int)
    } else {
        stamp_body(stamp_bodies(turn, bodies, (n - 1) as nat), turn, bodies[n - 1])
    }
}

/// `stamps` with every halo cell stamped as wall.
pub open spec fn walled(stamps: Seq<int>) -> Seq<int> {
    Seq::new(
        DENSE_BOARD_CELLS as nat,
        |k: int|
            if in_field(column_of(k), row_of(k)) {
                stamps[k]
            } else {
                WALL as int
            },
    )
}

/// The position with the given bodies on the board. Agent `s` has the
/// `s`-th body, with its head on the body's first segment and with the
/// body's length. An agent for which there is no body has its head on the
/// corner `(0, 0)` and the length 0.
pub open spec fn root_position(turn: i32, bodies: Seq<Seq<Coord>>, health: i32) -> Position {
    Position {
        turn: turn as int,
        stamps: walled(stamp_bodies(turn as int, bodies, bodies.len())),
        heads: Seq::new(
            PLAYER_COUNT as nat,
            |s: int|
                if s < bodies.len() {
                    (bodies[s][0].x as int, bodies[s][0].y as int)
                } else {
                    (0int, 0int)
                },
        ),
        lengths: Seq::new(
            PLAYER_COUNT as nat,
            |s: int|
                if s < bodies.len() {
                    bodies[s].len() as int
                } else {
                    0int
                },
        ),
        health: health as int,
    }
}

/// Two snapshots that differ only in where the board lists the controlled
/// snake are taken or turned down alike and describe the same position, so
/// that `get_move` answers both alike.
pub proof fn lemma_snapshot_whatever_the_place(
    turn: i32,
    first: Board,
    second: Board,
    you: Battlesnake,
    others: Seq<Battlesnake>,
    listed: Battlesnake,
    place: int,
    other_place: int,
)
    requires
        0 <= place <= others.len(),
        0 <= other_place <= others.len(),
        listed.id@ == you.id@,
        forall|j: int| 0 <= j < others.len() ==> (#[trigger] others[j]).id@ != you.id@,
        first.snakes@ == others.insert(place, listed),
        second.snakes@ == others.insert(other_place, listed) || second.snakes@ == others,
    ensures
        snapshot_ok(turn, first, you) == snapshot_ok(turn, second, you),
        snapshot_position(turn, first, you) == snapshot_position(turn, second, you),
{
    lemma_controlled_snake_comes_first(others, listed, place, you);
    lemma_controlled_snake_comes_first(others, listed, other_place, you);
}

/// The position that a snapshot describes: the bodies of its agents, the
/// controlled one first, at the snapshot's turn and with the controlled
/// agent's health.
pub open spec fn snapshot_position(turn: i32, board: Board, you: Battlesnake) -> Position {
    root_position(turn, agent_bodies(board.snakes@, you), you.health as i32)
}

/// Putting segments on a grid leaves it a grid.
pub proof fn lemma_stamp_segments_len(stamps: Seq<int>, turn: int, body: Seq<Coord>, n: nat)
    requires
        stamps.len() == DENSE_BOARD_CELLS,
        on_field(body),
        n <= body.len(),
    ensures
        stamp_segments(stamps, turn, body, n).len() == stamps.len(),
    decreases n,
{
    if n > 0 {
        lemma_stamp_segments_len(stamps, turn, body, (n - 1) as nat);
    }
}

/// Putting bodies on the empty grid gives a grid.
pub proof fn lemma_stamp_bodies_len(turn: int, bodies: Seq<Seq<Coord>>, n: nat)
    requires
        n <= bodies.len(),
        forall|s: int| 0 <= s < n ==> on_field(#[trigger] bodies[s]),
    ensures
        stamp_bodies(turn, bodies, n).len() == DENSE_BOARD_CELLS,
    decreases n,
{
    if n > 0 {
        lemma_stamp_bodies_len(turn, bodies, (n - 1) as nat);
        assert(on_field(bodies[n - 1]));
        lemma_stamp_segments_len(
            stamp_bodies(turn, bodies, (n - 1) as nat),
            turn,
            bodies[n - 1],
            bodies[n - 1].len(),
        );
    }
}

/// The stored cell under segment `i` of `body`.
pub open spec fn segment_cell(body: Seq<Coord>, i: int) -> int {
    cell_index(body[i].x as int, body[i].y as int)
}

/// Whether a segment of `body` lies on the stored cell `c`.
pub open spec fn covers(body: Seq<Coord>, c: int) -> bool {
    exists|j: int| 0 <= j < body.len() && #[trigger] segment_cell(body, j) == c
}

/// Putting segments on a grid leaves the cells under none of them as
/// they were.
pub proof fn lemma_segments_leave(stamps: Seq<int>, turn: int, body: Seq<Coord>, n: nat, c: int)
    requires
        stamps.len() == DENSE_BOARD_CELLS,
        on_field(body),
        n <= body.len(),
        0 <= c < DENSE_BOARD_CELLS,
        forall|j: int| 0 <= j < n ==> #[trigger] segment_cell(body, j) != c,
    ensures
        stamp_segments(stamps, turn, body, n)[c] == stamps[c],
    decreases n,
{
    if n > 0 {
        lemma_segments_leave(stamps, turn, body, (n - 1) as nat, c);
        lemma_stamp_segments_len(stamps, turn, body, (n - 1) as nat);
        assert(segment_cell(body, n - 1) != c);
    }
}

/// The cell under segment `i`, where no later one of the first `n`
/// segments lies, holds the turn plus the body's length minus `i`.
pub proof fn lemma_segments_stamp(stamps: Seq<int>, turn: int, body: Seq<Coord>, n: nat, i: int)
    requires
        stamps.len() == DENSE_BOARD_CELLS,
        on_field(body),
        0 <= i < n <= body.len(),
        forall|j: int| i < j < n ==> #[trigger] segment_cell(body, j) != segment_cell(body, i),
    ensures
        stamp_segments(stamps, turn, body, n)[segment_cell(body, i)] == turn + body.len() - i,
    decreases n,
{
    lemma_stamp_segments_len(stamps, turn, body, (n - 1) as nat);
    assert(in_field(body[i].x as int, body[i].y as int));
    assert(in_field(body[n - 1].x as int, body[n - 1].y as int));
    if i < n - 1 {
        lemma_segments_stamp(stamps, turn, body, (n - 1) as nat, i);
        assert(segment_cell(body, n - 1) != segment_cell(body, i));
    }
}

/// Putting a body on a grid leaves the cells under none of its segments
/// as they were.
pub proof fn lemma_body_leaves(stamps: Seq<int>, turn: int, body: Seq<Coord>, c: int)
    requires
        stamps.len() == DENSE_BOARD_CELLS,
        on_field(body),
        0 <= c < DENSE_BOARD_CELLS,
        !covers(body, c),
    ensures
        stamp_body(stamps, turn, body)[c] == stamps[c],
        stamp_body(stamps, turn, body).len() == DENSE_BOARD_CELLS,
{
    lemma_stamp_segments_len(stamps, turn, body, body.len());
    assert(in_field(body[0].x as int, body[0].y as int));
    assert forall|j: int| 0 <= j < body.len() implies #[trigger] segment_cell(body, j) != c by {}
    assert(segment_cell(body, 0) != c);
    lemma_segments_leave(stamps, turn, body, body.len(), c);
}

/// After a body has been put on a grid, the cell under its segment `i`,
/// where no later segment lies, holds the turn if it is the head's cell,
/// and else the turn plus the body's length minus `i`.
pub proof fn lemma_body_stamp(stamps: Seq<int>, turn: int, body: Seq<Coord>, i: int)
    requires
        stamps.len() == DENSE_BOARD_CELLS,
        on_field(body),
        0 <= i < body.len(),
        forall|j: int| i < j < body.len() ==> #[trigger] segment_cell(body, j) != segment_cell(body, i),
    ensures
        stamp_body(stamps, turn, body)[segment_cell(body, i)] == (if segment_cell(body, i) == segment_cell(
            body,
            0,
        ) {
            turn
        } else {
            turn + body.len() - i
        }),
{
    lemma_stamp_segments_len(stamps, turn, body, body.len());
    assert(in_field(body[0].x as int, body[0].y as int));
    assert(in_field(body[i].x as int, body[i].y as int));
    lemma_segments_stamp(stamps, turn, body, body.len(), i);
}

/// A cell under none of the first `n` bodies holds 0.
pub proof fn lemma_bodies_leave(turn: int, bodies: Seq<Seq<Coord>>, n: nat, c: int)
    requires
        n <= bodies.len(),
        forall|s: int| 0 <= s < n ==> on_field(#[trigger] bodies[s]),
        0 <= c < DENSE_BOARD_CELLS,
        forall|s: int| 0 <= s < n ==> !covers(#[trigger] bodies[s], c),
    ensures
        stamp_bodies(turn, bodies, n)[c] == 0,
    decreases n,
{
    if n > 0 {
        lemma_bodies_leave(turn, bodies, (n - 1) as nat, c);
        lemma_stamp_bodies_len(turn, bodies, (n - 1) as nat);
        assert(on_field(bodies[n - 1]) && !covers(bodies[n - 1], c));
        lemma_body_leaves(stamp_bodies(turn, bodies, (n - 1) as nat), turn, bodies[n - 1], c);
    }
}

/// A cell under none of the bodies after the `s`-th, among the first `n`,
/// holds what it held when the `s`-th body had been put on.
pub proof fn lemma_later_bodies_leave(turn: int, bodies: Seq<Seq<Coord>>, n: nat, s: int, c: int)
    requires
        0 <= s < n <= bodies.len(),
        forall|t: int| 0 <= t < n ==> on_field(#[trigger] bodies[t]),
        0 <= c < DENSE_BOARD_CELLS,
        forall|t: int| s < t < n ==> !covers(#[trigger] bodies[t], c),
    ensures
        stamp_bodies(turn, bodies, n)[c] == stamp_bodies(turn, bodies, (s + 1) as nat)[c],
    decreases n,
{
    if n > s + 1 {
        lemma_later_bodies_leave(turn, bodies, (n - 1) as nat, s, c);
        lemma_stamp_bodies_len(turn, bodies, (n - 1) as nat);
        assert(on_field(bodies[n - 1]) && !covers(bodies[n - 1], c));
        lemma_body_leaves(stamp_bodies(turn, bodies, (n - 1) as nat), turn, bodies[n - 1], c);
    }
}

/// The stamps of the position with the given bodies, cell by cell. A
/// halo cell is wall. A field cell under no segment holds 0. The cell
/// under segment `i` of agent `s` holds the turn if it is the cell of that
/// agent's head, and else the turn plus the body's length minus `i`,
/// provided that no later segment of the agent and no segment of a later
/// agent lies on it.
pub proof fn lemma_root_stamps(turn: i32, bodies: Seq<Seq<Coord>>, health: i32)
    requires
        forall|s: int| 0 <= s < bodies.len() ==> on_field(#[trigger] bodies[s]),
    ensures
        root_position(turn, bodies, health).stamps.len() == DENSE_BOARD_CELLS,
        forall|x: int, y: int|
            in_grid(x, y) && !in_field(x, y) ==> #[trigger] root_position(turn, bodies, health).stamp(x, y)
                == WALL,
        forall|x: int, y: int|
            in_field(x, y) && (forall|s: int|
                0 <= s < bodies.len() ==> !covers(#[trigger] bodies[s], cell_index(x, y)))
                ==> #[trigger] root_position(turn, bodies, health).stamp(x, y) == 0,
        forall|s: int, i: int|
            0 <= s < bodies.len() && 0 <= i < bodies[s].len() && (forall|j: int|
                i < j < bodies[s].len() ==> #[trigger] segment_cell(bodies[s], j)
                    != segment_cell(bodies[s], i)) && (forall|t: int|
                s < t < bodies.len() ==> !covers(
                    #[trigger] bodies[t],
                    segment_cell(bodies[s], i),
                )) ==> root_position(turn, bodies, health).stamps[#[trigger] segment_cell(
                bodies[s],
                i,
            )] == (if segment_cell(bodies[s], i) == segment_cell(bodies[s], 0) {
                turn as int
            } else {
                turn + bodies[s].len() - i
            }),
{
    let root = root_position(turn, bodies, health);
    let put = stamp_bodies(turn as int, bodies, bodies.len());
    lemma_stamp_bodies_len(turn as int, bodies, bodies.len());
    assert forall|x: int, y: int| in_grid(x, y) implies #[trigger] root.stamp(x, y) == (if in_field(x, y) {
        put[cell_index(x, y)]
    } else {
        WALL as int
    }) by {
        let c = cell_index(x, y);
        assert(0 <= c < DENSE_BOARD_CELLS);
        assert(column_of(c) == x && row_of(c) == y);
    }
    assert forall|x: int, y: int|
        in_field(x, y) && (forall|s: int|
            0 <= s < bodies.len() ==> !covers(#[trigger] bodies[s], cell_index(x, y)))
        implies #[trigger] root.stamp(x, y) == 0 by {
        lemma_bodies_leave(turn as int, bodies, bodies.len(), cell_index(x, y));
    }
    assert forall|s: int, i: int|
        0 <= s < bodies.len() && 0 <= i < bodies[s].len() && (forall|j: int|
            i < j < bodies[s].len() ==> #[trigger] segment_cell(bodies[s], j) != segment_cell(
                bodies[s],
                i,
            )) && (forall|t: int|
            s < t < bodies.len() ==> !covers(
                #[trigger] bodies[t],
                segment_cell(bodies[s], i),
            )) implies root.stamps[#[trigger] segment_cell(bodies[s], i)] == (if segment_cell(
        bodies[s],
        i,
    ) == segment_cell(bodies[s], 0) {
        turn as int
    } else {
        turn + bodies[s].len() - i
    }) by {
        let body = bodies[s];
        let c = segment_cell(body, i);
        assert(on_field(body));
        let x = body[i].x as int;
        let y = body[i].y as int;
        assert(in_field(x, y));
        assert(root.stamp(x, y) == put[c]);
        lemma_later_bodies_leave(turn as int, bodies, bodies.len(), s, c);
        lemma_stamp_bodies_len(turn as int, bodies, s as nat);
        lemma_body_stamp(stamp_bodies(turn as int, bodies, s as nat), turn as int, body, i);
    }
}

/// Checks `body_ok`.
fn is_body_ok(turn: i32, body: &Vec<Coord>) -> (ok: bool)
    requires
        0 <= turn,
    ensures
        ok == body_ok(turn, body@),
{
    if body.len() == 0 || turn >= i32::MAX - SEARCH_DEPTH {
        return false;
    }
    let room: i32 = i32::MAX - SEARCH_DEPTH - turn;
    if body.len() > room as usize {
        return false;
    }
    let mut i: usize = 0;
    while i < body.len()
        invariant
            i <= body@.len(),
            forall|j: int| 0 <= j < i ==> in_field((#[trigger] body@[j]).x as int, body@[j].y as int),
        decreases body@.len() - i,
    {
        let c = body[i];
        if c.x < 0 || c.x >= BOARD_SIZE as i32 || c.y < 0 || c.y >= BOARD_SIZE as i32 {
            return false;
        }
        i += 1;
    }
    true
}

/// Finds the place of the controlled snake among the board's snakes.
fn place_of_you(snakes: &Vec<Battlesnake>, you: &Battlesnake) -> (place: usize)
    ensures
        place == place_of(snakes@, you.id@, 0),
        place <= snakes@.len(),
{
    let mut i: usize = 0;
    while i < snakes.len()
        invariant
            i <= snakes@.len(),
            place_of(snakes@, you.id@, 0) == place_of(snakes@, you.id@, i as int),
        decreases snakes@.len() - i,
    {
        if snakes[i].id == you.id {
            return i;
        }
        i += 1;
    }
    i
}

/// The body of agent `k` of a snapshot in which the controlled snake has
/// the place `place` on the board.
fn agent_body<'a>(board: &'a Board, you: &'a Battlesnake, place: usize, k: usize) -> (body: &'a Vec<Coord>)
    requires
        place == place_of(board.snakes@, you.id@, 0),
        k < agent_bodies(board.snakes@, *you).len(),
    ensures
        body@ == agent_bodies(board.snakes@, *you)[k as int],
{
    if k == 0 {
        &you.body
    } else if k <= place {
        &board.snakes[k - 1].body
    } else {
        &board.snakes[k].body
    }
}

/// Checks `snapshot_ok`.
pub fn is_snapshot_ok(turn: i32, board: &Board, you: &Battlesnake) -> (ok: bool)
    ensures
        ok == snapshot_ok(turn, *board, *you),
{
    if turn < 0 || turn > i32::MAX - SEARCH_DEPTH || you.health > i32::MAX as u32 || board.snakes.len()
        > PLAYER_COUNT {
        return false;
    }
    let place = place_of_you(&board.snakes, you);
    let count: usize = if place < board.snakes.len() {
        board.snakes.len()
    } else {
        board.snakes.len() + 1
    };
    if count > PLAYER_COUNT {
        return false;
    }
    let mut k: usize = 0;
    while k < count
        invariant
            0 <= turn,
            k <= count,
            place == place_of(board.snakes@, you.id@, 0),
            count == agent_bodies(board.snakes@, *you).len(),
            forall|t: int| 0 <= t < k ==> body_ok(turn, #[trigger] agent_bodies(board.snakes@, *you)[t]),
        decreases count - k,
    {
        if !is_body_ok(turn, agent_body(board, you, place, k)) {
            return false;
        }
        k += 1;
    }
    true
}

/// Puts `body` on `board` as `stamp_body` says.
fn put_body(board: &mut DenseBoard<i32>, turn: i32, body: &Vec<Coord>)
    requires
        0 <= turn,
        body_ok(turn, body@),
    ensures
        forall|k: int|
            0 <= k < DENSE_BOARD_CELLS ==> (#[trigger] final(board)@[k]) as int == stamp_body(
                Seq::new(DENSE_BOARD_CELLS as nat, |j: int| old(board)@[j] as int),
                turn as int,
                body@,
            )[k],
{
    let ghost start = Seq::new(DENSE_BOARD_CELLS as nat, |j: int| old(board)@[j] as int);
    let len: i32 = body.len() as i32;
    let mut i: usize = 0;
    while i < body.len()
        invariant
            0 <= turn,
            body_ok(turn, body@),
            len == body@.len(),
            i <= body@.len(),
            start.len() == DENSE_BOARD_CELLS,
            forall|k: int|
                0 <= k < DENSE_BOARD_CELLS ==> (#[trigger] board@[k]) as int == stamp_segments(
                    start,
                    turn as int,
                    body@,
                    i as nat,
                )[k],
        decreases body@.len() - i,
    {
        let c = body[i];
        proof {
            assert(in_field(body@[i as int].x as int, body@[i as int].y as int));
            lemma_stamp_segments_len(start, turn as int, body@, i as nat);
        }
        *board.get_coord_mut(c) = turn + len - i as i32;
        i += 1;
    }
    let head = body[0];
    proof {
        assert(in_field(body@[0].x as int, body@[0].y as int));
        lemma_stamp_segments_len(start, turn as int, body@, body@.len());
    }
    *board.get_coord_mut(head) = turn;
}

/// Stamps every halo cell of `board` as wall.
fn put_walls(board: &mut DenseBoard<i32>)
    ensures
        forall|k: int|
            0 <= k < DENSE_BOARD_CELLS ==> (#[trigger] final(board)@[k]) as int == walled(
                Seq::new(DENSE_BOARD_CELLS as nat, |j: int| old(board)@[j] as int),
            )[k],
{
    let ghost start = board@;
    let mut x: i32 = -1;
    while x < BOARD_SIZE as i32 + 1
        invariant
            -1 <= x <= BOARD_SIZE + 1,
            forall|k: int|
                0 <= k < DENSE_BOARD_CELLS ==> (#[trigger] board@[k]) == (if column_of(k) < x && (row_of(k)
                    == -1 || row_of(k) == BOARD_SIZE) {
                    WALL
                } else {
                    start[k]
                }),
        decreases BOARD_SIZE + 1 - x,
    {
        *board.get_xy_mut(x as isize, -1) = WALL;
        *board.get_xy_mut(x as isize, BOARD_SIZE as isize) = WALL;
        x += 1;
    }
    let mut y: i32 = -1;
    while y < BOARD_SIZE as i32 + 1
        invariant
            -1 <= y <= BOARD_SIZE + 1,
            forall|k: int|
                0 <= k < DENSE_BOARD_CELLS ==> (#[trigger] board@[k]) == (if (row_of(k) == -1 || row_of(k)
                    == BOARD_SIZE) || (row_of(k) < y && (column_of(k) == -1 || column_of(k) == BOARD_SIZE)) {
                    WALL
                } else {
                    start[k]
                }),
        decreases BOARD_SIZE + 1 - y,
    {
        *board.get_xy_mut(-1, y as isize) = WALL;
        *board.get_xy_mut(BOARD_SIZE as isize, y as isize) = WALL;
        y += 1;
    }
}

/// The state that the search starts from: the body of every agent is on
/// the board, the controlled one's first, each head's cell is open, the
/// halo is wall, and each agent has its body's length.
pub fn root_node(turn: i32, board: &Board, you: &Battlesnake) -> (node: Node)
    requires
        snapshot_ok(turn, *board, *you),
    ensures
        node@ == snapshot_position(turn, *board, *you),
{
    let ghost bodies = agent_bodies(board.snakes@, *you);
    let place = place_of_you(&board.snakes, you);
    let count: usize = if place < board.snakes.len() {
        board.snakes.len()
    } else {
        board.snakes.len() + 1
    };
    let mut stamps = DenseBoard::init(0i32);
    let mut heads = [Coord { x: 0, y: 0 };PLAYER_COUNT];
    let mut lengths = [0i32;PLAYER_COUNT];
    let mut s: usize = 0;
    while s < count
        invariant
            0 <= turn,
            s <= count <= PLAYER_COUNT,
            place == place_of(board.snakes@, you.id@, 0),
            bodies == agent_bodies(board.snakes@, *you),
            count == bodies.len(),
            forall|t: int| 0 <= t < bodies.len() ==> body_ok(turn, #[trigger] bodies[t]),
            forall|k: int|
                0 <= k < DENSE_BOARD_CELLS ==> (#[trigger] stamps@[k]) as int == stamp_bodies(
                    turn as int,
                    bodies,
                    s as nat,
                )[k],
            forall|t: int|
                0 <= t < PLAYER_COUNT ==> (#[trigger] heads[t]) == (if t < s {
                    bodies[t][0]
                } else {
                    Coord { x: 0, y: 0 }
                }),
            forall|t: int|
                0 <= t < PLAYER_COUNT ==> (#[trigger] lengths[t]) as int == (if t < s {
                    bodies[t].len() as int
                } else {
                    0int
                }),
        decreases count - s,
    {
        let body = agent_body(board, you, place, s);
        assert(body_ok(turn, bodies[s as int]));
        let ghost before = Seq::new(DENSE_BOARD_CELLS as nat, |j: int| stamps@[j] as int);
        proof {
            lemma_stamp_bodies_len(turn as int, bodies, s as nat);
            assert(before =~= stamp_bodies(turn as int, bodies, s as nat));
        }
        put_body(&mut stamps, turn, body);
        heads[s] = body[0];
        lengths[s] = body.len() as i32;
        s += 1;
    }
    let ghost put = Seq::new(DENSE_BOARD_CELLS as nat, |j: int| stamps@[j] as int);
    proof {
        lemma_stamp_bodies_len(turn as int, bodies, bodies.len());
        assert(put =~= stamp_bodies(turn as int, bodies, bodies.len()));
    }
    put_walls(&mut stamps);
    let mut node = Node::new(turn, stamps, heads, you.health as i32);
    node.lengths = lengths;
    proof {
        let root = snapshot_position(turn, *board, *you);
        assert(node@.stamps =~= root.stamps);
        assert(node@.heads =~= root.heads);
        assert(node@.lengths =~= root.lengths);
    }
    node
}

/// Called when a game begins. The engine rebuilds its state from each
/// turn's snapshot, so nothing is kept here.
pub fn start(_game: &Game, _turn: &i32, _board: &Board, _you: &Battlesnake) {
}

/// Called when a game is over. Nothing was kept, so nothing is released.
pub fn end(_game: &Game, _turn: &i32, _board: &Board, _you: &Battlesnake) {
}

/// The move for this turn, decided for the controlled snake `you`: of the
/// four directions the first whose position is of greatest minimax value
/// at `SEARCH_DEPTH` plies, found from the position that the snapshot
/// describes. Where the board lists `you` makes no difference. A snapshot
/// that is not `snapshot_ok` is turned down with `None`.
pub fn get_move(_game: &Game, turn: &i32, _board: &Board, you: &Battlesnake) -> (choice: Option<Direction>)
    ensures
        snapshot_ok(*turn, *_board, *you) ==> choice is Some && exists|i: int|
            first_best(snapshot_position(*turn, *_board, *you), SEARCH_DEPTH as nat, i) && choice->0
                == direction_at(i),
        !snapshot_ok(*turn, *_board, *you) ==> choice is None,
{
    if !is_snapshot_ok(*turn, _board, you) {
        return None;
    }
    let node = root_node(*turn, _board, you);
    proof {
        let bodies = agent_bodies(_board.snakes@, *you);
        let root = snapshot_position(*turn, *_board, *you);
        assert forall|s: int| 0 <= s < PLAYER_COUNT implies in_grid(
            (#[trigger] root.heads[s]).0,
            root.heads[s].1,
        ) by {
            if s < bodies.len() {
                assert(body_ok(*turn, bodies[s]));
            }
        }
        assert forall|s: int| 0 <= s < PLAYER_COUNT implies 0 <= (#[trigger] node.lengths[s]) && node.lengths[s]
            + node.turn + SEARCH_DEPTH <= i32::MAX by {
            assert(node@.lengths[s] == root.lengths[s]);
            if s < bodies.len() {
                assert(body_ok(*turn, bodies[s]));
            }
        }
    }
    Some(best_move(&node, SEARCH_DEPTH))
}

} // verus!
