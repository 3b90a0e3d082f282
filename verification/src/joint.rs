//! Joint moves: one direction per opponent, held in a `SmallVec` that stays
//! inline for the number of opponents the engine is built for.

use vstd::prelude::*;
use vstd::arithmetic::power::pow;
use smallvec::SmallVec;
use crate::grid::{Direction, DIRECTION_COUNT};
use crate::state::{OPPONENT_COUNT, PLAYER_COUNT};

verus! {

/// One direction for each of the first few opponents, agent 1 first. The
/// directions lie in a `SmallVec`, which the verifier does not look into:
/// what it knows of a joint move is what `joint_view` names.
#[derive(Debug)]
#[verifier::external_body]
pub struct JointMove {
    moves: SmallVec<[Direction; OPPONENT_COUNT]>,
}

/// The directions that a joint move holds, in order.
pub uninterp spec fn joint_view(joint: JointMove) -> Seq<Direction>;

impl View for JointMove {
    type V = Seq<Direction>;

    open spec fn view(&self) -> Seq<Direction> {
        joint_view(*self)
    }
}

/// Trusted wrapper of `SmallVec::new`: the new joint move holds no
/// direction.
#[verifier::external_body]
fn joint_empty() -> (joint: JointMove)
    ensures
        joint_view(joint) == Seq::<Direction>::empty(),
{
    JointMove { moves: SmallVec::new() }
}

/// Trusted wrapper of `SmallVec::push`, called within the inline capacity
/// only, where it does not allocate: `direction` is appended and what was
/// held stays in place.
#[verifier::external_body]
fn joint_push(joint: &mut JointMove, direction: Direction)
    requires
        joint_view(*old(joint)).len() < OPPONENT_COUNT,
    ensures
        joint_view(*final(joint)) == joint_view(*old(joint)).push(direction),
{
    joint.moves.push(direction)
}

/// Trusted wrapper of `SmallVec::clone`: the copy holds the same
/// directions in the same order.
#[verifier::external_body]
fn joint_clone(joint: &JointMove) -> (copy: JointMove)
    ensures
        joint_view(copy) == joint_view(*joint),
{
    JointMove { moves: joint.moves.clone() }
}

/// Trusted wrapper of `SmallVec::len`: the number of directions held.
#[verifier::external_body]
fn joint_len(joint: &JointMove) -> (len: usize)
    ensures
        len == joint_view(*joint).len(),
{
    joint.moves.len()
}

/// Trusted wrapper of indexing a `SmallVec`, which goes by the slice of
/// its items: the direction held at `index`, which must be in range.
#[verifier::external_body]
pub(crate) fn joint_get(joint: &JointMove, index: usize) -> (direction: Direction)
    requires
        index < joint_view(*joint).len(),
    ensures
        direction == joint_view(*joint)[index as int],
{
    joint.moves[index]
}

/// The four directions in the order in which they are tried.
pub open spec fn direction_at(k: int) -> Direction {
    if k == 0 {
        Direction::Up
    } else if k == 1 {
        Direction::Down
    } else if k == 2 {
        Direction::Left
    } else {
        Direction::Right
    }
}

/// Every way to give one direction to each of `n` opponents. The joint
/// moves for `n` opponents extend those for `n - 1`, each in turn by each
/// of the four directions.
pub open spec fn joint_moves(n: nat) -> Seq<Seq<Direction>>
    decreases n,
{
    if n == 0 {
        seq![Seq::<Direction>::empty()]
    } else {
        let shorter = joint_moves((n - 1) as nat);
        Seq::new(
            shorter.len() * DIRECTION_COUNT as nat,
            |k: int| shorter[k / DIRECTION_COUNT as int].push(direction_at(k % DIRECTION_COUNT as int)),
        )
    }
}

/// Each joint move for `n` opponents holds `n` directions, and there is at
/// least one.
pub proof fn lemma_joint_moves_shape(n: nat)
    ensures
        joint_moves(n).len() >= 1,
        forall|k: int| 0 <= k < joint_moves(n).len() ==> (#[trigger] joint_moves(n)[k]).len() == n,
    decreases n,
{
    if n > 0 {
        lemma_joint_moves_shape((n - 1) as nat);
    }
}

/// The place of `d` among the four directions.
pub open spec fn direction_index(d: Direction) -> int {
    match d {
        Direction::Up => 0,
        Direction::Down => 1,
        Direction::Left => 2,
        Direction::Right => 3,
    }
}

/// There are four joint moves for each joint move of one opponent less.
pub proof fn lemma_joint_moves_count(n: nat)
    ensures
        joint_moves(n).len() == pow(DIRECTION_COUNT as int, n),
    decreases n,
{
    reveal(pow);
    if n > 0 {
        lemma_joint_moves_count((n - 1) as nat);
    }
}

/// The joint moves are all there are: whatever directions `n` opponents
/// take, they take them in one of the joint moves for `n` opponents.
pub proof fn lemma_joint_moves_complete(n: nat, moves: Seq<Direction>) -> (k: int)
    requires
        moves.len() == n,
    ensures
        0 <= k < joint_moves(n).len(),
        joint_moves(n)[k] == moves,
    decreases n,
{
    if n == 0 {
        assert(moves =~= Seq::<Direction>::empty());
        0
    } else {
        let shorter = lemma_joint_moves_complete((n - 1) as nat, moves.drop_last());
        let k = shorter * DIRECTION_COUNT + direction_index(moves.last());
        assert(k / DIRECTION_COUNT as int == shorter && k % DIRECTION_COUNT as int == direction_index(
            moves.last(),
        ));
        assert(joint_moves(n)[k] =~= moves);
        k
    }
}

/// The `k`-th of the four directions.
pub fn nth_direction(k: usize) -> (direction: Direction)
    requires
        k < DIRECTION_COUNT,
    ensures
        direction == direction_at(k as int),
{
    if k == 0 {
        Direction::Up
    } else if k == 1 {
        Direction::Down
    } else if k == 2 {
        Direction::Left
    } else {
        Direction::Right
    }
}

impl JointMove {
    /// The joint move that gives opponent `k + 1` the direction
    /// `directions[k]`, if there is one direction per opponent.
    pub fn from_directions(directions: &Vec<Direction>) -> (joint: Option<JointMove>)
        ensures
            directions@.len() == OPPONENT_COUNT ==> joint is Some && joint->0@ == directions@,
            directions@.len() != OPPONENT_COUNT ==> joint is None,
    {
        if directions.len() != OPPONENT_COUNT {
            return None;
        }
        let mut joint = joint_empty();
        let mut k: usize = 0;
        while k < OPPONENT_COUNT
            invariant
                k <= OPPONENT_COUNT,
                directions@.len() == OPPONENT_COUNT,
                joint@ == directions@.take(k as int),
            decreases OPPONENT_COUNT - k,
        {
            joint_push(&mut joint, directions[k]);
            k += 1;
        }
        Some(joint)
    }

    /// The directions held, in order.
    pub fn directions(&self) -> (directions: Vec<Direction>)
        ensures
            directions@ == self@,
    {
        let len = joint_len(self);
        let mut directions: Vec<Direction> = Vec::new();
        let mut k: usize = 0;
        while k < len
            invariant
                k <= len,
                len == self@.len(),
                directions@ == self@.take(k as int),
            decreases len - k,
        {
            directions.push(joint_get(self, k));
            k += 1;
        }
        directions
    }
}

/// Every joint move of the opponents, in the order in which the search
/// tries them.
pub fn enemy_turns() -> (turns: Vec<JointMove>)
    ensures
        turns@.len() == joint_moves(OPPONENT_COUNT as nat).len(),
        forall|k: int| 0 <= k < turns@.len() ==> (#[trigger] turns@[k])@ == joint_moves(OPPONENT_COUNT as nat)[k],
{
    let mut turns: Vec<JointMove> = Vec::new();
    turns.push(joint_empty());
    let mut i: usize = 1;
    while i < PLAYER_COUNT
        invariant
            1 <= i <= PLAYER_COUNT,
            turns@.len() == joint_moves((i - 1) as nat).len(),
            forall|k: int| 0 <= k < turns@.len() ==> (#[trigger] turns@[k])@ == joint_moves((i - 1) as nat)[k],
        decreases PLAYER_COUNT - i,
    {
        let mut longer: Vec<JointMove> = Vec::new();
        let mut j: usize = 0;
        while j < turns.len()
            invariant
                1 <= i < PLAYER_COUNT,
                j <= turns@.len(),
                turns@.len() == joint_moves((i - 1) as nat).len(),
                forall|k: int| 0 <= k < turns@.len() ==> (#[trigger] turns@[k])@ == joint_moves((i - 1) as nat)[k],
                longer@.len() == j * DIRECTION_COUNT,
                forall|k: int| 0 <= k < longer@.len() ==> (#[trigger] longer@[k])@ == joint_moves(i as nat)[k],
            decreases turns@.len() - j,
        {
            let mut d: usize = 0;
            while d < DIRECTION_COUNT
                invariant
                    1 <= i < PLAYER_COUNT,
                    j < turns@.len(),
                    d <= DIRECTION_COUNT,
                    turns@.len() == joint_moves((i - 1) as nat).len(),
                    forall|k: int| 0 <= k < turns@.len() ==> (#[trigger] turns@[k])@ == joint_moves((i - 1) as nat)[k],
                    longer@.len() == j * DIRECTION_COUNT + d,
                    forall|k: int| 0 <= k < longer@.len() ==> (#[trigger] longer@[k])@ == joint_moves(i as nat)[k],
                decreases DIRECTION_COUNT - d,
            {
                proof {
                    lemma_joint_moves_shape((i - 1) as nat);
                }
                let mut joint = joint_clone(&turns[j]);
                joint_push(&mut joint, nth_direction(d));
                longer.push(joint);
                d += 1;
            }
            j += 1;
        }
        turns = longer;
        i += 1;
    }
    turns
}

} // verus!
