use battlesnake_logic::grid::{Coord, DenseBoard};
use battlesnake_logic::state::Node;
use battlesnake_logic::territory::voronoi;

fn walled_board() -> DenseBoard<i32> {
    let mut board = DenseBoard::init(0i32);
    for k in -1..12 {
        *board.get_xy_mut(k, -1) = i32::MAX;
        *board.get_xy_mut(k, 11) = i32::MAX;
        *board.get_xy_mut(-1, k) = i32::MAX;
        *board.get_xy_mut(11, k) = i32::MAX;
    }
    board
}

fn position(turn: i32, board: DenseBoard<i32>, ours: (i32, i32), theirs: (i32, i32)) -> Node {
    let heads = [Coord { x: ours.0, y: ours.1 }, Coord { x: theirs.0, y: theirs.1 }];
    Node::new(turn, board, heads, 100)
}

/// Spreads ownership round by round on plain arrays, as the estimate is
/// described, and counts what each agent comes to own.
fn by_rounds(node: &Node) -> [i32; 2] {
    let mut owner = [[-1i32; 13]; 13];
    for (agent, head) in node.heads.iter().enumerate() {
        owner[(head.x + 1) as usize][(head.y + 1) as usize] = agent as i32;
    }
    let mut scores = [0i32; 2];
    loop {
        let before = owner;
        let mut changed = false;
        for x in 1..12usize {
            for y in 1..12usize {
                let free = node.board.get_xy(x as isize - 1, y as isize - 1) <= node.turn;
                if before[x][y] != -1 || !free {
                    continue;
                }
                let around = [before[x - 1][y], before[x + 1][y], before[x][y - 1], before[x][y + 1]];
                if let Some(&first) = around.iter().find(|&&o| o != -1) {
                    owner[x][y] = first;
                    scores[first as usize] += 1;
                    changed = true;
                }
            }
        }
        if !changed {
            return scores;
        }
    }
}

#[test]
fn adjacent_heads_split_the_empty_board_along_their_border() {
    let node = position(0, walled_board(), (5, 5), (6, 5));
    assert_eq!(voronoi(&node), [65, 54]);
    let node = position(0, walled_board(), (6, 5), (5, 5));
    assert_eq!(voronoi(&node), [54, 65]);
    let node = position(0, walled_board(), (5, 5), (5, 6));
    assert_eq!(voronoi(&node), [65, 54]);
}

#[test]
fn adjacent_heads_differ_by_one_cell_in_each_row() {
    let node = position(0, walled_board(), (5, 5), (6, 5));
    let scores = voronoi(&node);
    // Six cells of each row lie on one side of the border, five on the other.
    assert_eq!(scores[0] + 1, 6 * 11);
    assert_eq!(scores[1] + 1, 5 * 11);
    assert_eq!(scores[0] - scores[1], 11);
}

#[test]
fn contested_cells_go_to_the_neighbour_seen_first() {
    // The column between the heads is reached by both in the same round;
    // its left neighbour is looked at first.
    let node = position(0, walled_board(), (4, 5), (6, 5));
    assert_eq!(voronoi(&node), [65, 54]);
    // Between heads above one another the row is contested; the upper
    // neighbour is looked at before the lower one.
    let node = position(0, walled_board(), (5, 4), (5, 6));
    assert_eq!(voronoi(&node), [65, 54]);
    let node = position(0, walled_board(), (5, 6), (5, 4));
    assert_eq!(voronoi(&node), [54, 65]);
}

#[test]
fn mirrored_heads_behind_a_closed_column_own_the_same() {
    let mut board = walled_board();
    for y in 0..11 {
        *board.get_xy_mut(5, y) = 1000;
    }
    let node = position(3, board, (2, 5), (8, 5));
    assert_eq!(voronoi(&node), [54, 54]);
    let node = position(3, board, (1, 9), (9, 9));
    assert_eq!(voronoi(&node), [54, 54]);
}

#[test]
fn territories_add_up_to_the_free_cells_in_reach() {
    let mut board = walled_board();
    for y in 0..11 {
        *board.get_xy_mut(5, y) = 1000;
    }
    // A closed room in the corner that no head can enter.
    *board.get_xy_mut(8, 10) = 1000;
    *board.get_xy_mut(8, 9) = 1000;
    *board.get_xy_mut(9, 8) = 1000;
    *board.get_xy_mut(10, 8) = 1000;
    let node = position(3, board, (2, 5), (8, 5));
    let scores = voronoi(&node);
    // 121 cells, 15 of them occupied, 2 under the heads, 4 shut in the room.
    assert_eq!(scores[0] + scores[1], 121 - 15 - 2 - 4);
    assert_eq!(scores, [54, 46]);
}

#[test]
fn a_cell_is_free_from_the_turn_of_its_stamp_on() {
    let mut board = walled_board();
    for y in 0..11 {
        *board.get_xy_mut(5, y) = 8;
    }
    let shut = position(7, board, (2, 5), (8, 5));
    assert_eq!(voronoi(&shut), [54, 54]);
    let open = position(8, board, (2, 5), (8, 5));
    assert_eq!(voronoi(&open), [65, 54]);
}

#[test]
fn a_boxed_in_head_owns_nothing() {
    let mut board = walled_board();
    *board.get_xy_mut(4, 5) = 50;
    *board.get_xy_mut(6, 5) = 50;
    *board.get_xy_mut(5, 4) = 50;
    *board.get_xy_mut(5, 6) = 50;
    let node = position(0, board, (5, 5), (1, 1));
    assert_eq!(voronoi(&node), [0, 121 - 4 - 2]);
}

#[test]
fn heads_on_one_cell_leave_it_to_the_later_agent() {
    let node = position(0, walled_board(), (5, 5), (5, 5));
    assert_eq!(voronoi(&node), [0, 120]);
}

#[test]
fn the_estimate_does_not_need_the_halo_stamped() {
    let node = position(0, DenseBoard::init(0i32), (5, 5), (6, 5));
    assert_eq!(voronoi(&node), [65, 54]);
}

#[test]
fn estimate_agrees_with_spreading_on_plain_arrays() {
    let mut board = walled_board();
    let blocks = [(3, 3), (3, 4), (3, 5), (4, 5), (7, 2), (7, 3), (8, 3), (2, 8), (9, 9), (6, 6), (6, 7)];
    for (i, &(x, y)) in blocks.iter().enumerate() {
        *board.get_xy_mut(x, y) = 5 + i as i32;
    }
    let heads = [(1, 1), (5, 5), (9, 1), (0, 0), (10, 10), (4, 4), (6, 5), (2, 9)];
    for turn in [0, 6, 9, 12, 40] {
        for &ours in &heads {
            for &theirs in &heads {
                let node = position(turn, board, ours, theirs);
                assert_eq!(voronoi(&node), by_rounds(&node), "{:?} {:?} {}", ours, theirs, turn);
            }
        }
    }
}

#[test]
fn mirrored_heads_behind_a_closed_row_own_the_same() {
    let mut board = walled_board();
    for x in 0..11 {
        *board.get_xy_mut(x, 5) = 1000;
    }
    let node = position(0, board, (5, 2), (5, 8));
    assert_eq!(voronoi(&node), [54, 54]);
    let node = position(0, board, (0, 0), (0, 10));
    assert_eq!(voronoi(&node), [54, 54]);
}

#[test]
fn mirrored_heads_behind_a_closed_diagonal_own_the_same() {
    let mut board = walled_board();
    for k in 0..11 {
        *board.get_xy_mut(k, k) = 1000;
    }
    // Cells next to the diagonal touch one another only across it.
    let node = position(0, board, (7, 2), (2, 7));
    assert_eq!(voronoi(&node), [54, 54]);
}

#[test]
fn a_winding_corridor_is_followed_to_its_end() {
    // Every other column is closed but for one cell, at the top and at the
    // bottom in turn, so that the free cells form one long corridor.
    let mut board = walled_board();
    for x in [1, 3, 5, 7, 9] {
        let gap = if x % 4 == 1 { 0 } else { 10 };
        for y in 0..11 {
            if y != gap {
                *board.get_xy_mut(x, y) = 1000;
            }
        }
    }
    let free = 121 - 5 * 10;
    // From our head in one corner the corridor takes 60 steps to the other
    // head in the last column, which also has the ten cells below it. We
    // own the 29 cells that are nearer to us. The cell half way is reached
    // by both in the same round and goes to the neighbour above it, which
    // is the other agent's.
    let node = position(0, board, (0, 10), (10, 0));
    let scores = voronoi(&node);
    assert_eq!(scores, by_rounds(&node));
    assert_eq!(scores[0] + scores[1], free - 2);
    assert_eq!(scores, [29, 30 + 10]);
    // Shut in, the other agent owns nothing, and ours follows the corridor
    // for 58 steps up to the closed cell before the other head.
    *board.get_xy_mut(10, 1) = 1000;
    *board.get_xy_mut(9, 0) = 1000;
    let node = position(0, board, (0, 10), (10, 0));
    assert_eq!(voronoi(&node), [58, 0]);
}
