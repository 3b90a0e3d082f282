//! Territory on a mirrored board: two agents whose heads are mirror images
//! of one another own the same number of cells, as long as no cell is
//! reached by both in the same round.

use vstd::prelude::*;
use vstd::relations::injective_on;
use vstd::set_lib::lemma_map_size;
use crate::grid::{cell_index, in_field, in_grid, BOARD_SIZE, DENSE_BOARD_CELLS};
use crate::reach::{adjacent, lemma_cell_index_injective};
use crate::state::{Position, PLAYER_COUNT};
use crate::territory::{
    claimant, column_of, first_of, first_owner, gained, lemma_spread_n_ok, owners_ok, planted, row_of,
    settled, spread, spread_n, territory, visit_x, visit_y, FIELD_CELLS, NOT_OWNED,
};

verus! {

/// A map of the stored cells onto themselves.
pub type CellMap = spec_fn((int, int)) -> (int, int);

/// Whether `m` is a mirror of the grid: it maps the field onto the field
/// and the halo onto the halo, it is its own inverse, and it maps
/// neighbours onto neighbours.
pub open spec fn is_mirror(m: CellMap) -> bool {
    &&& forall|c: (int, int)|
        in_grid(c.0, c.1) ==> {
            let image = #[trigger] m(c);
            &&& in_grid(image.0, image.1)
            &&& in_field(image.0, image.1) == in_field(c.0, c.1)
            &&& m(image) == c
        }
    &&& forall|a: (int, int), b: (int, int)|
        in_grid(a.0, a.1) && in_grid(b.0, b.1) && adjacent(a, b) ==> adjacent(#[trigger] m(a), #[trigger] m(b))
}

/// The mirror that exchanges left and right.
pub open spec fn left_right() -> CellMap {
    |c: (int, int)| (BOARD_SIZE - 1 - c.0, c.1)
}

/// The mirror that exchanges up and down.
pub open spec fn up_down() -> CellMap {
    |c: (int, int)| (c.0, BOARD_SIZE - 1 - c.1)
}

/// The mirror through the centre of the field.
pub open spec fn through_centre() -> CellMap {
    |c: (int, int)| (BOARD_SIZE - 1 - c.0, BOARD_SIZE - 1 - c.1)
}

/// The mirror along the diagonal from the corner `(0, 0)`.
pub open spec fn diagonal() -> CellMap {
    |c: (int, int)| (c.1, c.0)
}

/// Each of the four named maps is a mirror.
pub proof fn lemma_named_mirrors()
    ensures
        is_mirror(left_right()),
        is_mirror(up_down()),
        is_mirror(through_centre()),
        is_mirror(diagonal()),
{
}

/// The owner that takes the place of `owner` when the two agents change
/// places.
pub open spec fn exchanged(owner: i32) -> i32 {
    if owner == 0 {
        1
    } else if owner == 1 {
        0
    } else {
        owner
    }
}

/// Whether two owners do not contradict one another: one of them is
/// `NOT_OWNED`, or they are the same.
pub open spec fn agree(a: i32, b: i32) -> bool {
    a == NOT_OWNED || b == NOT_OWNED || a == b
}

/// Whether no two agents are about to claim field cell `(x, y)`: it is
/// owned or occupied, or its owned neighbours all have the same owner.
pub open spec fn quiet(p: Position, owners: Seq<i32>, x: int, y: int) -> bool {
    let left = owners[cell_index(x - 1, y)];
    let right = owners[cell_index(x + 1, y)];
    let up = owners[cell_index(x, y - 1)];
    let down = owners[cell_index(x, y + 1)];
    ||| owners[cell_index(x, y)] != NOT_OWNED
    ||| p.occupied(x, y)
    ||| all_agree(left, right, up, down)
}

/// Whether the agents never meet: their heads are on different cells, and
/// in no round is a cell claimed from neighbours of different owners.
pub open spec fn uncontested(p: Position) -> bool {
    &&& p.heads[0] != p.heads[1]
    &&& forall|n: nat, x: int, y: int| in_field(x, y) ==> #[trigger] quiet(p, spread_n(p, n), x, y)
}

/// Whether `owners` is its own mirror image with the agents exchanged.
pub open spec fn mirrored(owners: Seq<i32>, m: CellMap) -> bool {
    forall|x: int, y: int|
        in_grid(x, y) ==> owners[cell_index(m((x, y)).0, m((x, y)).1)] == exchanged(
            #[trigger] owners[cell_index(x, y)],
        )
}

/// Whether `p` is its own mirror image with the two agents exchanged: the
/// heads are images of one another, and a field cell is occupied exactly if
/// its image is.
pub open spec fn mirrored_position(p: Position, m: CellMap) -> bool {
    &&& p.heads[1] == m(p.heads[0])
    &&& forall|x: int, y: int|
        in_field(x, y) ==> p.occupied(m((x, y)).0, m((x, y)).1) == #[trigger] p.occupied(x, y)
}

/// The planted heads of a mirrored position are mirrored.
pub proof fn lemma_seed_mirrored(p: Position, m: CellMap)
    requires
        p.well_formed(),
        is_mirror(m),
        p.heads[1] == m(p.heads[0]),
        p.heads[0] != p.heads[1],
    ensures
        mirrored(planted(p.heads, PLAYER_COUNT as nat), m),
{
    reveal_with_fuel(planted, 3);
    let seed = planted(p.heads, PLAYER_COUNT as nat);
    let h0 = p.heads[0];
    let h1 = p.heads[1];
    assert(in_grid(h0.0, h0.1) && in_grid(h1.0, h1.1));
    assert(m(h0) == h1 && m(h1) == h0);
    assert forall|x: int, y: int| in_grid(x, y) implies seed[cell_index(m((x, y)).0, m((x, y)).1)]
        == exchanged(#[trigger] seed[cell_index(x, y)]) by {
        let image = m((x, y));
        assert(m(image) == (x, y));
        if cell_index(x, y) == cell_index(h0.0, h0.1) {
            lemma_cell_index_injective(x, y, h0.0, h0.1);
        }
        if cell_index(x, y) == cell_index(h1.0, h1.1) {
            lemma_cell_index_injective(x, y, h1.0, h1.1);
        }
        if cell_index(image.0, image.1) == cell_index(h0.0, h0.1) {
            lemma_cell_index_injective(image.0, image.1, h0.0, h0.1);
        }
        if cell_index(image.0, image.1) == cell_index(h1.0, h1.1) {
            lemma_cell_index_injective(image.0, image.1, h1.0, h1.1);
        }
    }
}

/// A cell next to field cell `(x, y)` is one of its four neighbours.
pub proof fn lemma_adjacent_is_neighbour(c: (int, int), x: int, y: int)
    requires
        adjacent(c, (x, y)),
    ensures
        c == (x - 1, y) || c == (x + 1, y) || c == (x, y - 1) || c == (x, y + 1),
{
}

/// Whether `owner` is one of four owners.
pub open spec fn among(owner: i32, left: i32, right: i32, up: i32, down: i32) -> bool {
    owner == left || owner == right || owner == up || owner == down
}

/// Whether four owners agree with one another.
pub open spec fn all_agree(left: i32, right: i32, up: i32, down: i32) -> bool {
    agree(left, right) && agree(left, up) && agree(left, down) && agree(right, up) && agree(right, down)
        && agree(up, down)
}

/// Where the owners around one cell agree and are, with the agents
/// exchanged, the owners around another cell, the first owner found at the
/// one is the first found at the other, exchanged.
pub proof fn lemma_first_of_exchanged(
    left: i32,
    right: i32,
    up: i32,
    down: i32,
    left2: i32,
    right2: i32,
    up2: i32,
    down2: i32,
)
    requires
        all_agree(left, right, up, down),
        among(exchanged(left), left2, right2, up2, down2),
        among(exchanged(right), left2, right2, up2, down2),
        among(exchanged(up), left2, right2, up2, down2),
        among(exchanged(down), left2, right2, up2, down2),
        among(exchanged(left2), left, right, up, down),
        among(exchanged(right2), left, right, up, down),
        among(exchanged(up2), left, right, up, down),
        among(exchanged(down2), left, right, up, down),
    ensures
        first_of(left2, right2, up2, down2) == exchanged(first_of(left, right, up, down)),
{
}

/// The owners around the image of a field cell are the owners around the
/// cell with the agents exchanged, in some order.
pub proof fn lemma_neighbours_mirrored(owners: Seq<i32>, m: CellMap, x: int, y: int)
    requires
        is_mirror(m),
        mirrored(owners, m),
        in_field(x, y),
    ensures
        ({
            let (u, v) = m((x, y));
            let left2 = owners[cell_index(u - 1, v)];
            let right2 = owners[cell_index(u + 1, v)];
            let up2 = owners[cell_index(u, v - 1)];
            let down2 = owners[cell_index(u, v + 1)];
            &&& among(exchanged(owners[cell_index(x - 1, y)]), left2, right2, up2, down2)
            &&& among(exchanged(owners[cell_index(x + 1, y)]), left2, right2, up2, down2)
            &&& among(exchanged(owners[cell_index(x, y - 1)]), left2, right2, up2, down2)
            &&& among(exchanged(owners[cell_index(x, y + 1)]), left2, right2, up2, down2)
        }),
{
    let (u, v) = m((x, y));
    lemma_adjacent_is_neighbour(m((x - 1, y)), u, v);
    lemma_adjacent_is_neighbour(m((x + 1, y)), u, v);
    lemma_adjacent_is_neighbour(m((x, y - 1)), u, v);
    lemma_adjacent_is_neighbour(m((x, y + 1)), u, v);
    assert(owners[cell_index(m((x - 1, y)).0, m((x - 1, y)).1)] == exchanged(owners[cell_index(x - 1, y)]));
    assert(owners[cell_index(m((x + 1, y)).0, m((x + 1, y)).1)] == exchanged(owners[cell_index(x + 1, y)]));
    assert(owners[cell_index(m((x, y - 1)).0, m((x, y - 1)).1)] == exchanged(owners[cell_index(x, y - 1)]));
    assert(owners[cell_index(m((x, y + 1)).0, m((x, y + 1)).1)] == exchanged(owners[cell_index(x, y + 1)]));
}

/// The first owner found around the image of a quiet field cell is the
/// first found around the cell, exchanged.
pub proof fn lemma_first_owner_mirrored(p: Position, owners: Seq<i32>, m: CellMap, x: int, y: int)
    requires
        is_mirror(m),
        mirrored(owners, m),
        in_field(x, y),
        owners[cell_index(x, y)] == NOT_OWNED,
        !p.occupied(x, y),
        quiet(p, owners, x, y),
    ensures
        first_owner(owners, m((x, y)).0, m((x, y)).1) == exchanged(first_owner(owners, x, y)),
{
    let (u, v) = m((x, y));
    assert(in_field(u, v) && m((u, v)) == (x, y));
    lemma_neighbours_mirrored(owners, m, x, y);
    lemma_neighbours_mirrored(owners, m, u, v);
    lemma_first_of_exchanged(
        owners[cell_index(x - 1, y)],
        owners[cell_index(x + 1, y)],
        owners[cell_index(x, y - 1)],
        owners[cell_index(x, y + 1)],
        owners[cell_index(u - 1, v)],
        owners[cell_index(u + 1, v)],
        owners[cell_index(u, v - 1)],
        owners[cell_index(u, v + 1)],
    );
}

/// After a round on mirrored owners the owner of the image of a quiet
/// cell is the owner of the cell, exchanged.
pub proof fn lemma_claimant_mirrored(p: Position, owners: Seq<i32>, m: CellMap, x: int, y: int)
    requires
        owners.len() == DENSE_BOARD_CELLS,
        is_mirror(m),
        mirrored(owners, m),
        in_grid(x, y),
        in_field(x, y) ==> p.occupied(m((x, y)).0, m((x, y)).1) == p.occupied(x, y),
        in_field(x, y) ==> quiet(p, owners, x, y),
    ensures
        spread(p, owners)[cell_index(m((x, y)).0, m((x, y)).1)] == exchanged(
            spread(p, owners)[cell_index(x, y)],
        ),
{
    let (u, v) = m((x, y));
    let c = cell_index(x, y);
    let d = cell_index(u, v);
    assert(in_grid(u, v) && in_field(u, v) == in_field(x, y));
    assert(0 <= c < DENSE_BOARD_CELLS && 0 <= d < DENSE_BOARD_CELLS);
    assert(column_of(c) == x && row_of(c) == y);
    assert(column_of(d) == u && row_of(d) == v);
    assert(owners[d] == exchanged(owners[c]));
    if in_field(x, y) {
        assert(spread(p, owners)[c] == claimant(p, owners, x, y));
        assert(spread(p, owners)[d] == claimant(p, owners, u, v));
        if owners[c] == NOT_OWNED && !p.occupied(x, y) {
            lemma_first_owner_mirrored(p, owners, m, x, y);
        }
    }
}

/// A round on mirrored owners in which no cell is contested gives
/// mirrored owners.
pub proof fn lemma_spread_mirrored(p: Position, owners: Seq<i32>, m: CellMap)
    requires
        owners_ok(owners),
        is_mirror(m),
        mirrored(owners, m),
        forall|x: int, y: int|
            in_field(x, y) ==> p.occupied(m((x, y)).0, m((x, y)).1) == #[trigger] p.occupied(x, y),
        forall|x: int, y: int| in_field(x, y) ==> #[trigger] quiet(p, owners, x, y),
    ensures
        mirrored(spread(p, owners), m),
{
    let next = spread(p, owners);
    assert forall|x: int, y: int| in_grid(x, y) implies next[cell_index(m((x, y)).0, m((x, y)).1)]
        == exchanged(#[trigger] next[cell_index(x, y)]) by {
        if in_field(x, y) {
            assert(p.occupied(m((x, y)).0, m((x, y)).1) == p.occupied(x, y));
            assert(quiet(p, owners, x, y));
        }
        lemma_claimant_mirrored(p, owners, m, x, y);
    }
}

/// The owners of a mirrored position whose agents never meet are mirrored
/// after every round.
pub proof fn lemma_spread_n_mirrored(p: Position, m: CellMap, n: nat)
    requires
        p.well_formed(),
        is_mirror(m),
        mirrored_position(p, m),
        uncontested(p),
    ensures
        mirrored(spread_n(p, n), m),
    decreases n,
{
    if n == 0 {
        lemma_seed_mirrored(p, m);
    } else {
        let before = spread_n(p, (n - 1) as nat);
        lemma_spread_n_mirrored(p, m, (n - 1) as nat);
        lemma_spread_n_ok(p, (n - 1) as nat);
        assert forall|x: int, y: int| in_field(x, y) implies #[trigger] quiet(p, before, x, y) by {
            assert(quiet(p, spread_n(p, (n - 1) as nat), x, y));
        }
        lemma_spread_mirrored(p, before, m);
    }
}

/// The places in visiting order, among the first `k`, of the field cells
/// that have no owner in `before` and belong to `agent` in `after`.
pub open spec fn gained_places(before: Seq<i32>, after: Seq<i32>, agent: int, k: nat) -> Set<int> {
    Set::new(
        |j: int|
            0 <= j < k && before[cell_index(visit_x(j), visit_y(j))] == NOT_OWNED && after[cell_index(
                visit_x(j),
                visit_y(j),
            )] == agent,
    )
}

/// `gained` counts `gained_places`.
pub proof fn lemma_gained_counts_places(before: Seq<i32>, after: Seq<i32>, agent: int, k: nat)
    ensures
        gained_places(before, after, agent, k).finite(),
        gained_places(before, after, agent, k).len() == gained(before, after, agent, k),
    decreases k,
{
    let places = gained_places(before, after, agent, k);
    if k == 0 {
        assert(places =~= Set::<int>::empty());
    } else {
        let fewer = gained_places(before, after, agent, (k - 1) as nat);
        lemma_gained_counts_places(before, after, agent, (k - 1) as nat);
        let cell = cell_index(visit_x(k - 1), visit_y(k - 1));
        if before[cell] == NOT_OWNED && after[cell] == agent {
            assert(places =~= fewer.insert(k - 1));
        } else {
            assert(places =~= fewer);
        }
    }
}

/// The place in visiting order of the image of the field cell at place `j`.
pub open spec fn place_across(m: CellMap, j: int) -> int {
    let image = m((visit_x(j), visit_y(j)));
    image.0 * BOARD_SIZE + image.1
}

/// A mirror exchanges the places of the field in pairs.
pub proof fn lemma_place_across(m: CellMap, j: int)
    requires
        is_mirror(m),
        0 <= j < FIELD_CELLS,
    ensures
        0 <= place_across(m, j) < FIELD_CELLS,
        place_across(m, place_across(m, j)) == j,
        (visit_x(place_across(m, j)), visit_y(place_across(m, j))) == m((visit_x(j), visit_y(j))),
{
    let x = visit_x(j);
    let y = visit_y(j);
    assert(in_field(x, y));
    let (u, v) = m((x, y));
    assert(in_field(u, v));
    assert(m((u, v)) == (x, y));
    let i = u * BOARD_SIZE + v;
    assert(visit_x(i) == u && visit_y(i) == v);
}

/// What one agent gained at a place, the other gained at the place across.
pub proof fn lemma_gains_across(before: Seq<i32>, after: Seq<i32>, m: CellMap, j: int)
    requires
        is_mirror(m),
        mirrored(before, m),
        mirrored(after, m),
        0 <= j < FIELD_CELLS,
    ensures
        gained_places(before, after, 0, FIELD_CELLS as nat).contains(j) == gained_places(
            before,
            after,
            1,
            FIELD_CELLS as nat,
        ).contains(place_across(m, j)),
{
    lemma_place_across(m, j);
    let x = visit_x(j);
    let y = visit_y(j);
    assert(in_field(x, y));
    let (u, v) = m((x, y));
    assert(before[cell_index(u, v)] == exchanged(before[cell_index(x, y)]));
    assert(after[cell_index(u, v)] == exchanged(after[cell_index(x, y)]));
}

/// Mirrored owners give both agents the same number of cells.
pub proof fn lemma_mirrored_gains(before: Seq<i32>, after: Seq<i32>, m: CellMap)
    requires
        is_mirror(m),
        mirrored(before, m),
        mirrored(after, m),
    ensures
        gained(before, after, 0, FIELD_CELLS as nat) == gained(before, after, 1, FIELD_CELLS as nat),
{
    let ours = gained_places(before, after, 0, FIELD_CELLS as nat);
    let theirs = gained_places(before, after, 1, FIELD_CELLS as nat);
    lemma_gained_counts_places(before, after, 0, FIELD_CELLS as nat);
    lemma_gained_counts_places(before, after, 1, FIELD_CELLS as nat);
    let across = |j: int| place_across(m, j);
    assert forall|i: int, j: int|
        ours.contains(i) && ours.contains(j) && #[trigger] across(i) == #[trigger] across(j) implies i
        == j by {
        lemma_place_across(m, i);
        lemma_place_across(m, j);
    }
    assert(injective_on(across, ours));
    assert forall|j: int| theirs.contains(j) implies #[trigger] ours.map(across).contains(j) by {
        lemma_place_across(m, j);
        lemma_gains_across(before, after, m, place_across(m, j));
        assert(ours.contains(place_across(m, j)));
        assert(across(place_across(m, j)) == j);
    }
    assert forall|j: int| #[trigger] ours.map(across).contains(j) implies theirs.contains(j) by {
        let i = choose|i: int| ours.contains(i) && across(i) == j;
        lemma_gains_across(before, after, m, i);
    }
    assert(ours.map(across) =~= theirs);
    lemma_map_size(ours, theirs, across);
}

/// On a board that is its own mirror image, two agents whose heads are
/// mirror images of one another have the same territory, provided they
/// never meet. Where they do meet, the cell between them goes to the
/// neighbour that is looked at first, and its mirror image need not be
/// looked at first on the other side.
pub proof fn lemma_mirrored_heads_own_the_same(p: Position, m: CellMap)
    requires
        p.well_formed(),
        is_mirror(m),
        mirrored_position(p, m),
        uncontested(p),
    ensures
        territory(p, 0) == territory(p, 1),
{
    lemma_spread_n_mirrored(p, m, 0);
    lemma_spread_n_mirrored(p, m, FIELD_CELLS as nat);
    lemma_mirrored_gains(planted(p.heads, PLAYER_COUNT as nat), settled(p), m);
}

} // verus!
