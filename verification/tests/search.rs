use battlesnake_logic::grid::{Coord, DenseBoard, Direction};
use battlesnake_logic::joint::enemy_turns;
use battlesnake_logic::search::{alphabeta, best_move, LOSS_SCORE};
use battlesnake_logic::state::Node;
use battlesnake_logic::territory::voronoi;

const DIRECTIONS: [Direction; 4] = [Direction::Up, Direction::Down, Direction::Left, Direction::Right];

fn walled_board() -> DenseBoard<i32> {
    let mut board = DenseBoard::init(0i32);
    for k in -1..12 {
        *board.get_xy_mut(k, -1) = i32::MAX;
        *board.get_xy_mut(k, 11) = i32::MAX;
        *board.get_xy_mut(-1, k) = i32::MAX;
        *board.get_xy_mut(11, k) = i32::MAX;
    }
    board
}

fn position(turn: i32, board: DenseBoard<i32>, ours: (i32, i32), theirs: (i32, i32), health: i32) -> Node {
    let heads = [Coord { x: ours.0, y: ours.1 }, Coord { x: theirs.0, y: theirs.1 }];
    let mut node = Node::new(turn, board, heads, health);
    node.lengths = [3, 4];
    node
}

fn cluttered_board() -> DenseBoard<i32> {
    let mut board = walled_board();
    let blocks = [(3, 3), (3, 4), (3, 5), (4, 5), (7, 2), (7, 3), (8, 3), (2, 8), (6, 6), (6, 7)];
    for (i, &(x, y)) in blocks.iter().enumerate() {
        *board.get_xy_mut(x, y) = 3 + i as i32;
    }
    board
}

/// Minimax without a window, every reply looked at.
fn plain_minimax(node: Node, depth: i32, maximising: bool) -> i32 {
    if depth == 0 {
        return node.evaluate();
    }
    if maximising {
        DIRECTIONS.iter().map(|&d| plain_minimax(node.apply_move(0, d), depth - 1, false)).max().unwrap()
    } else {
        enemy_turns()
            .iter()
            .map(|joint| plain_minimax(node.apply_move_array(joint), depth - 1, true))
            .min()
            .unwrap()
    }
}

#[test]
fn a_head_on_the_wall_is_a_loss_at_its_turn() {
    let node = position(17, walled_board(), (0, 5), (5, 5), 100);
    assert_eq!(node.evaluate(), -1_000_000_000 + 17);
    assert_eq!(LOSS_SCORE, -1_000_000_000);
}

#[test]
fn a_head_on_a_body_is_a_loss() {
    let mut board = walled_board();
    *board.get_xy_mut(5, 5) = 4;
    assert_eq!(position(3, board, (5, 5), (6, 5), 100).evaluate(), -1_000_000_000 + 3);
    assert_eq!(position(4, board, (5, 5), (6, 5), 100).evaluate(), 65 - 54);
}

#[test]
fn health_at_the_threshold_is_a_loss() {
    let board = walled_board();
    assert_eq!(position(8, board, (5, 5), (6, 5), 2).evaluate(), -1_000_000_000 + 8);
    assert_eq!(position(8, board, (5, 5), (6, 5), 0).evaluate(), -1_000_000_000 + 8);
    assert_eq!(position(8, board, (5, 5), (6, 5), -5).evaluate(), -1_000_000_000 + 8);
    assert_eq!(position(8, board, (5, 5), (6, 5), 3).evaluate(), 65 - 54);
}

#[test]
fn a_later_loss_ranks_above_an_earlier_one() {
    let early = position(10, walled_board(), (0, 0), (5, 5), 100);
    let late = position(50, walled_board(), (0, 0), (5, 5), 100);
    assert!(late.evaluate() > early.evaluate());
    assert_eq!(late.evaluate() - early.evaluate(), 40);
    let starved_late = position(50, walled_board(), (5, 5), (6, 5), 1);
    assert!(starved_late.evaluate() > early.evaluate());
}

#[test]
fn any_loss_ranks_below_any_territory() {
    let loss = position(1_000_000, walled_board(), (0, 0), (5, 5), 100);
    let mut board = walled_board();
    *board.get_xy_mut(4, 5) = 5_000_000;
    *board.get_xy_mut(6, 5) = 5_000_000;
    *board.get_xy_mut(5, 4) = 5_000_000;
    *board.get_xy_mut(5, 6) = 5_000_000;
    let boxed_in = position(0, board, (5, 5), (1, 1), 100);
    assert_eq!(boxed_in.evaluate(), -115);
    assert!(loss.evaluate() < boxed_in.evaluate());
}

#[test]
fn evaluation_is_own_territory_minus_the_others() {
    let node = position(0, walled_board(), (5, 5), (6, 5), 100);
    let scores = voronoi(&node);
    assert_eq!(node.evaluate(), 2 * scores[0] - (scores[0] + scores[1]));
    assert_eq!(node.evaluate(), 11);
    let node = position(0, walled_board(), (6, 5), (5, 5), 100);
    assert_eq!(node.evaluate(), -11);
}

#[test]
fn depth_zero_is_the_evaluation() {
    let node = position(4, cluttered_board(), (5, 5), (8, 8), 100);
    assert_eq!(alphabeta(node, 0, i32::MIN, i32::MAX, true), node.evaluate());
    assert_eq!(alphabeta(node, 0, i32::MIN, i32::MAX, false), node.evaluate());
    assert_eq!(alphabeta(node, 0, 5, 6, false), node.evaluate());
}

#[test]
fn one_maximising_ply_takes_the_best_move() {
    let node = position(0, walled_board(), (1, 5), (8, 5), 100);
    let values: Vec<i32> = DIRECTIONS.iter().map(|&d| node.apply_move(0, d).evaluate()).collect();
    assert_eq!(values[2], -1_000_000_000);
    assert_eq!(alphabeta(node, 1, i32::MIN, i32::MAX, true), *values.iter().max().unwrap());
}

#[test]
fn one_minimising_ply_takes_the_worst_reply_and_counts_the_turn() {
    let node = position(0, walled_board(), (5, 5), (6, 5), 100);
    let values: Vec<i32> = enemy_turns().iter().map(|j| node.apply_move_array(j).evaluate()).collect();
    assert_eq!(alphabeta(node, 1, i32::MIN, i32::MAX, false), *values.iter().min().unwrap());
    // The opponent stepping onto our head's cell is no collision for us: the
    // cell is open, and the estimate leaves it to the later agent.
    let lost = position(0, walled_board(), (0, 5), (6, 5), 100);
    assert_eq!(alphabeta(lost, 1, i32::MIN, i32::MAX, false), -1_000_000_000 + 1);
}

#[test]
fn a_ply_of_losses_only_keeps_the_loss_score() {
    let mut board = walled_board();
    *board.get_xy_mut(4, 5) = 1000;
    *board.get_xy_mut(6, 5) = 1000;
    *board.get_xy_mut(5, 4) = 1000;
    *board.get_xy_mut(5, 6) = 1000;
    let node = position(30, board, (5, 5), (1, 1), 100);
    assert_eq!(alphabeta(node, 1, i32::MIN, i32::MAX, true), -1_000_000_000 + 30);
    assert_eq!(alphabeta(node, 2, i32::MIN, i32::MAX, false), -1_000_000_000 + 31);
}

#[test]
fn pruned_search_equals_plain_minimax() {
    let boards = [walled_board(), cluttered_board()];
    let heads = [((5, 5), (6, 5)), ((1, 1), (9, 9)), ((4, 4), (5, 4)), ((2, 5), (8, 5)), ((1, 5), (3, 5)), ((9, 9), (2, 2))];
    for board in boards {
        for &(ours, theirs) in &heads {
            for depth in 0..4 {
                for maximising in [true, false] {
                    let node = position(2, board, ours, theirs, 100);
                    assert_eq!(
                        alphabeta(node, depth, i32::MIN, i32::MAX, maximising),
                        plain_minimax(node, depth, maximising),
                        "{:?} {:?} depth {} {}",
                        ours,
                        theirs,
                        depth,
                        maximising
                    );
                }
            }
        }
    }
}

#[test]
fn pruned_search_with_low_health_equals_plain_minimax() {
    for health in [2, 3, 4, 5] {
        let node = position(2, cluttered_board(), (5, 5), (8, 8), health);
        for depth in 0..5 {
            assert_eq!(
                alphabeta(node, depth, i32::MIN, i32::MAX, false),
                plain_minimax(node, depth, false)
            );
        }
    }
}

#[test]
fn a_narrow_window_bounds_the_minimax_value() {
    let node = position(2, cluttered_board(), (5, 5), (8, 8), 100);
    for depth in 1..4 {
        for maximising in [true, false] {
            let exact = plain_minimax(node, depth, maximising);
            for (alpha, beta) in [(exact - 1, exact + 1), (exact, exact + 5), (exact - 5, exact), (exact + 3, exact + 9), (exact - 9, exact - 3), (-1, 1)] {
                let found = alphabeta(node, depth, alpha, beta, maximising);
                if found <= alpha {
                    assert!(exact <= found);
                } else if found >= beta {
                    assert!(exact >= found);
                } else {
                    assert_eq!(found, exact);
                }
            }
        }
    }
}

#[test]
fn lone_agent_at_the_centre_keeps_off_the_ring() {
    // The second agent's head rests on the corner, as for a snapshot with
    // one snake.
    let node = position(0, walled_board(), (5, 5), (0, 0), 100);
    let choice = best_move(&node, 2);
    assert!(!node.apply_move(0, choice).is_head_colliding_wall(0));
}

#[test]
fn driver_avoids_the_ring_where_it_can() {
    for &(head, bad) in &[((1, 5), Direction::Left), ((9, 5), Direction::Right), ((5, 1), Direction::Up), ((5, 9), Direction::Down)] {
        let node = position(0, walled_board(), head, (0, 0), 100);
        let choice = best_move(&node, 2);
        assert_ne!(choice, bad);
        assert!(!node.apply_move(0, choice).is_head_colliding_wall(0));
    }
}

#[test]
fn driver_takes_the_first_of_the_best_directions() {
    for &(ours, theirs) in &[((5, 5), (6, 5)), ((3, 3), (8, 8)), ((1, 1), (9, 9)), ((5, 5), (0, 0))] {
        for depth in 0..3 {
            let node = position(0, cluttered_board(), ours, theirs, 100);
            let values: Vec<i32> = DIRECTIONS.iter().map(|&d| plain_minimax(node.apply_move(0, d), depth, false)).collect();
            let best = *values.iter().max().unwrap();
            let first = values.iter().position(|&v| v == best).unwrap();
            assert_eq!(best_move(&node, depth), DIRECTIONS[first]);
        }
    }
}

#[test]
fn driver_answers_up_when_every_direction_loses() {
    let node = position(0, walled_board(), (0, 0), (5, 5), 100);
    assert_eq!(best_move(&node, 2), Direction::Up);
    let starving = position(0, walled_board(), (5, 5), (7, 7), 3);
    assert_eq!(best_move(&starving, 2), Direction::Up);
}
