use battlesnake_logic::driver::{end, get_move, is_snapshot_ok, root_node, start, SEARCH_DEPTH};
use battlesnake_logic::grid::{Coord, Direction};
use battlesnake_logic::search::best_move;
use battlesnake_logic::snapshot::{Battlesnake, Board, Game};

fn snake(name: &str, health: u32, body: &[(i32, i32)]) -> Battlesnake {
    let body: Vec<Coord> = body.iter().map(|&(x, y)| Coord { x, y }).collect();
    Battlesnake {
        id: name.to_string(),
        name: name.to_string(),
        health,
        head: body.first().copied().unwrap_or(Coord { x: 0, y: 0 }),
        length: body.len() as u32,
        body,
        latency: "0".to_string(),
        shout: None,
    }
}

fn board(snakes: Vec<Battlesnake>) -> Board {
    Board { height: 11, width: 11, food: vec![Coord { x: 2, y: 2 }], snakes, hazards: vec![] }
}

fn game() -> Game {
    Game { id: "game".to_string(), timeout: 500 }
}

const OURS: [(i32, i32); 3] = [(5, 5), (5, 6), (5, 7)];
const THEIRS: [(i32, i32); 4] = [(2, 2), (3, 2), (4, 2), (4, 3)];

#[test]
fn root_stamps_count_down_from_the_head_to_the_tail() {
    let you = snake("a", 90, &OURS);
    let node = root_node(3, &board(vec![snake("a", 90, &OURS), snake("b", 80, &THEIRS)]), &you);
    // The head's cell is open again; behind it the stamps are the turn plus
    // the length minus the offset from the head.
    assert_eq!(node.board.get_xy(5, 5), 3);
    assert_eq!(node.board.get_xy(5, 6), 3 + 3 - 1);
    assert_eq!(node.board.get_xy(5, 7), 3 + 3 - 2);
    assert_eq!(node.board.get_xy(2, 2), 3);
    assert_eq!(node.board.get_xy(3, 2), 3 + 4 - 1);
    assert_eq!(node.board.get_xy(4, 2), 3 + 4 - 2);
    assert_eq!(node.board.get_xy(4, 3), 3 + 4 - 3);
    assert_eq!(node.board.get_xy(0, 0), 0);
    assert_eq!(node.board.get_xy(10, 10), 0);
    assert_eq!(node.turn, 3);
    assert_eq!(node.our_health, 90);
    assert_eq!(node.heads, [Coord { x: 5, y: 5 }, Coord { x: 2, y: 2 }]);
    assert_eq!(node.lengths, [3, 4]);
}

#[test]
fn root_has_the_controlled_snake_as_agent_0_wherever_it_is_listed() {
    let you = snake("a", 90, &OURS);
    let first = root_node(3, &board(vec![snake("a", 90, &OURS), snake("b", 80, &THEIRS)]), &you);
    let second = root_node(3, &board(vec![snake("b", 80, &THEIRS), snake("a", 90, &OURS)]), &you);
    assert_eq!(second.heads, [Coord { x: 5, y: 5 }, Coord { x: 2, y: 2 }]);
    assert_eq!(second.lengths, [3, 4]);
    assert_eq!(second.our_health, 90);
    assert_eq!(second, first);
    // The other snake's health is not ours.
    let them = snake("b", 80, &THEIRS);
    let theirs = root_node(3, &board(vec![snake("a", 90, &OURS), snake("b", 80, &THEIRS)]), &them);
    assert_eq!(theirs.heads, [Coord { x: 2, y: 2 }, Coord { x: 5, y: 5 }]);
    assert_eq!(theirs.lengths, [4, 3]);
    assert_eq!(theirs.our_health, 80);
}

#[test]
fn root_takes_the_controlled_snake_that_the_board_does_not_list() {
    let you = snake("a", 90, &OURS);
    let unlisted = root_node(3, &board(vec![snake("b", 80, &THEIRS)]), &you);
    let listed = root_node(3, &board(vec![snake("b", 80, &THEIRS), snake("a", 90, &OURS)]), &you);
    assert_eq!(unlisted.heads, [Coord { x: 5, y: 5 }, Coord { x: 2, y: 2 }]);
    assert_eq!(unlisted, listed);
}

#[test]
fn root_goes_by_the_body_of_you() {
    // Where the board's entry for the controlled snake is another body,
    // the body handed over with the snake itself counts.
    let you = snake("a", 90, &OURS);
    let node = root_node(3, &board(vec![snake("a", 90, &[(8, 8), (8, 9)]), snake("b", 80, &THEIRS)]), &you);
    assert_eq!(node.heads[0], Coord { x: 5, y: 5 });
    assert_eq!(node.lengths, [3, 4]);
    assert_eq!(node.board.get_xy(8, 9), 0);
    assert_eq!(node.board.get_xy(5, 6), 5);
}

#[test]
fn root_leaves_out_only_the_first_snake_with_the_id_of_you() {
    let you = snake("a", 90, &OURS);
    let node = root_node(0, &board(vec![snake("a", 90, &OURS), snake("a", 70, &[(8, 8), (8, 9)])]), &you);
    assert_eq!(node.heads, [Coord { x: 5, y: 5 }, Coord { x: 8, y: 8 }]);
    assert_eq!(node.lengths, [3, 2]);
}

#[test]
fn root_has_the_whole_halo_as_wall_and_nothing_else() {
    let you = snake("a", 90, &[(0, 0), (0, 1)]);
    let node = root_node(0, &board(vec![snake("a", 90, &[(0, 0), (0, 1)])]), &you);
    for x in -1..12 {
        for y in -1..12 {
            let halo = x == -1 || x == 11 || y == -1 || y == 11;
            assert_eq!(node.board.get_xy(x, y) == i32::MAX, halo, "({}, {})", x, y);
        }
    }
}

#[test]
fn root_with_stacked_segments_keeps_the_last_stamp() {
    // At the start of a game the whole body lies on one cell.
    let you = snake("a", 100, &[(5, 5), (5, 5), (5, 5)]);
    let other = snake("b", 100, &[(3, 3), (3, 4), (3, 4)]);
    let node = root_node(0, &board(vec![snake("a", 100, &[(5, 5), (5, 5), (5, 5)]), other]), &you);
    assert_eq!(node.board.get_xy(5, 5), 0);
    assert_eq!(node.board.get_xy(3, 4), 0 + 3 - 2);
    assert_eq!(node.lengths, [3, 3]);
}

#[test]
fn root_for_a_lone_snake_rests_the_other_head_on_the_corner() {
    let you = snake("a", 100, &[(5, 5), (5, 6)]);
    let node = root_node(7, &board(vec![snake("a", 100, &[(5, 5), (5, 6)])]), &you);
    assert_eq!(node.heads, [Coord { x: 5, y: 5 }, Coord { x: 0, y: 0 }]);
    assert_eq!(node.lengths, [2, 0]);
}

#[test]
fn root_move_stamps_the_left_cell_with_length_plus_turn() {
    let you = snake("a", 100, &OURS);
    let node = root_node(3, &board(vec![snake("a", 100, &OURS)]), &you);
    let next = node.apply_move(0, Direction::Up);
    assert_eq!(next.board.get_xy(5, 5), 3 + 3);
}

#[test]
fn move_is_the_same_wherever_the_board_lists_you() {
    // Our head is on the ring, so no move changes anything and the first
    // direction is answered. Taken for agent 0, the other snake would
    // avoid the ring above it and answer another direction.
    let you = snake("a", 100, &[(0, 5)]);
    let first = board(vec![snake("a", 100, &[(0, 5)]), snake("b", 100, &[(5, 1)])]);
    let second = board(vec![snake("b", 100, &[(5, 1)]), snake("a", 100, &[(0, 5)])]);
    assert_eq!(get_move(&game(), &0, &first, &you), Some(Direction::Up));
    assert_eq!(get_move(&game(), &0, &second, &you), Some(Direction::Up));
    let them = snake("b", 100, &[(5, 1)]);
    let theirs = get_move(&game(), &0, &first, &them).unwrap();
    assert_ne!(theirs, Direction::Up);
    assert_eq!(get_move(&game(), &0, &second, &them), Some(theirs));
}

#[test]
fn move_is_the_same_in_both_orders_on_a_fuller_board() {
    let ours = [(3, 4), (3, 5), (3, 6)];
    let theirs = [(7, 4), (7, 3), (7, 2), (6, 2)];
    for turn in [0, 12, 300] {
        for (a, b) in [(&ours[..], &theirs[..]), (&theirs[..], &ours[..]), (&[(1, 5), (2, 5)][..], &[(2, 4), (2, 3)][..])] {
            let you = snake("a", 70, a);
            let first = board(vec![snake("a", 70, a), snake("b", 80, b)]);
            let second = board(vec![snake("b", 80, b), snake("a", 70, a)]);
            let unlisted = board(vec![snake("b", 80, b)]);
            let choice = get_move(&game(), &turn, &first, &you);
            assert!(choice.is_some());
            assert_eq!(get_move(&game(), &turn, &second, &you), choice);
            assert_eq!(get_move(&game(), &turn, &unlisted, &you), choice);
        }
    }
}

#[test]
fn snapshot_is_turned_down_for_a_negative_turn() {
    let you = snake("a", 100, &[(5, 5)]);
    let b = board(vec![snake("a", 100, &[(5, 5)])]);
    assert!(!is_snapshot_ok(-1, &b, &you));
    assert_eq!(get_move(&game(), &-1, &b, &you), None);
    assert!(is_snapshot_ok(0, &b, &you));
}

#[test]
fn snapshot_is_turned_down_for_a_segment_off_the_field() {
    for off in [(-1, 5), (11, 5), (5, -1), (5, 11), (40, 40)] {
        let you = snake("a", 100, &[(5, 5), off]);
        let b = board(vec![snake("a", 100, &[(5, 5), off])]);
        assert!(!is_snapshot_ok(0, &b, &you));
        assert_eq!(get_move(&game(), &0, &b, &you), None);
        let you = snake("a", 100, &[(5, 5)]);
        let b = board(vec![snake("a", 100, &[(5, 5)]), snake("b", 100, &[off])]);
        assert!(!is_snapshot_ok(0, &b, &you));
        assert_eq!(get_move(&game(), &0, &b, &you), None);
        let b = board(vec![snake("b", 100, &[off]), snake("a", 100, &[(5, 5)])]);
        assert_eq!(get_move(&game(), &0, &b, &you), None);
    }
    for on in [(0, 0), (10, 10), (0, 10), (10, 0)] {
        let you = snake("a", 100, &[(5, 5), on]);
        let b = board(vec![snake("a", 100, &[(5, 5), on])]);
        assert!(is_snapshot_ok(0, &b, &you));
    }
}

#[test]
fn snapshot_is_turned_down_for_an_empty_body() {
    let you = snake("a", 100, &[(5, 5)]);
    let b = board(vec![snake("a", 100, &[(5, 5)]), snake("b", 100, &[])]);
    assert!(!is_snapshot_ok(0, &b, &you));
    assert_eq!(get_move(&game(), &0, &b, &you), None);
    let nobody = snake("a", 100, &[]);
    let b = board(vec![snake("a", 100, &[(5, 5)])]);
    assert!(!is_snapshot_ok(0, &b, &nobody));
    assert_eq!(get_move(&game(), &0, &b, &nobody), None);
}

#[test]
fn snapshot_is_turned_down_for_too_many_snakes() {
    let you = snake("a", 100, &[(5, 5)]);
    let b = board(vec![snake("a", 100, &[(5, 5)]), snake("b", 100, &[(2, 2)]), snake("c", 100, &[(8, 8)])]);
    assert!(!is_snapshot_ok(0, &b, &you));
    assert_eq!(get_move(&game(), &0, &b, &you), None);
    // Two others beside a controlled snake that the board does not list
    // are three agents as well.
    let b = board(vec![snake("b", 100, &[(2, 2)]), snake("c", 100, &[(8, 8)])]);
    assert!(!is_snapshot_ok(0, &b, &you));
    assert_eq!(get_move(&game(), &0, &b, &you), None);
    let b = board(vec![snake("b", 100, &[(2, 2)])]);
    assert!(is_snapshot_ok(0, &b, &you));
}

#[test]
fn snapshot_is_turned_down_for_health_beyond_i32() {
    let you = snake("a", i32::MAX as u32 + 1, &[(5, 5)]);
    let b = board(vec![snake("a", 100, &[(5, 5)])]);
    assert!(!is_snapshot_ok(0, &b, &you));
    assert_eq!(get_move(&game(), &0, &b, &you), None);
    let you = snake("a", i32::MAX as u32, &[(5, 5)]);
    assert!(is_snapshot_ok(0, &b, &you));
    assert!(get_move(&game(), &0, &b, &you).is_some());
}

#[test]
fn snapshot_is_turned_down_where_the_stamps_leave_i32() {
    // The turn, the length of the body and the depth of the search must
    // fit in `i32` together.
    let you = snake("a", 100, &[(5, 5), (5, 6)]);
    let b = board(vec![snake("a", 100, &[(5, 5), (5, 6)])]);
    assert!(is_snapshot_ok(i32::MAX - 4, &b, &you));
    assert!(!is_snapshot_ok(i32::MAX - 3, &b, &you));
    assert_eq!(get_move(&game(), &(i32::MAX - 3), &b, &you), None);
    let short = snake("a", 100, &[(5, 5)]);
    assert!(is_snapshot_ok(i32::MAX - 3, &board(vec![]), &short));
    assert!(!is_snapshot_ok(i32::MAX - 2, &board(vec![]), &short));
    let long = board(vec![snake("b", 100, &[(2, 2), (2, 3), (2, 4)])]);
    assert!(is_snapshot_ok(i32::MAX - 5, &long, &short));
    assert!(!is_snapshot_ok(i32::MAX - 4, &long, &short));
}

#[test]
fn move_for_a_snapshot_is_the_drivers_choice_at_the_root() {
    let you = snake("a", 70, &[(3, 4), (3, 5), (3, 6)]);
    let other = snake("b", 80, &[(7, 4), (7, 3), (7, 2), (6, 2)]);
    let b = board(vec![snake("a", 70, &[(3, 4), (3, 5), (3, 6)]), other]);
    let root = root_node(12, &b, &you);
    assert_eq!(SEARCH_DEPTH, 2);
    assert_eq!(get_move(&game(), &12, &b, &you), Some(best_move(&root, 2)));
}

#[test]
fn move_uses_the_health_of_you() {
    // With health at the threshold after one ply every direction loses and
    // the first is answered; with more health the body below is avoided.
    let b = board(vec![snake("a", 100, &[(5, 1), (6, 1), (7, 1)])]);
    let starving = snake("a", 3, &[(5, 1), (6, 1), (7, 1)]);
    assert_eq!(get_move(&game(), &0, &b, &starving), Some(Direction::Up));
    let healthy = snake("a", 100, &[(5, 1), (6, 1), (7, 1)]);
    let choice = get_move(&game(), &0, &b, &healthy).unwrap();
    assert_ne!(choice, Direction::Up);
    assert_ne!(choice, Direction::Right);
}

#[test]
fn lone_snake_at_the_centre_gets_a_move_off_the_ring() {
    let you = snake("a", 100, &OURS);
    let b = board(vec![snake("a", 100, &OURS)]);
    let choice = get_move(&game(), &0, &b, &you).unwrap();
    let root = root_node(0, &b, &you);
    let next = root.apply_move(0, choice);
    assert!(!next.is_head_colliding_wall(0));
    assert!(!next.is_head_colliding_snake(0));
}

#[test]
fn boxed_in_snake_still_gets_a_move() {
    let you = snake("a", 100, &[(0, 0), (0, 1), (1, 1), (1, 0)]);
    let b = board(vec![snake("a", 100, &[(0, 0), (0, 1), (1, 1), (1, 0)])]);
    assert_eq!(get_move(&game(), &5, &b, &you), Some(Direction::Up));
}

#[test]
fn board_without_snakes_gets_the_move_of_a_lone_snake() {
    let you = snake("a", 100, &OURS);
    let alone = get_move(&game(), &0, &board(vec![snake("a", 100, &OURS)]), &you);
    assert!(alone.is_some());
    assert_eq!(get_move(&game(), &0, &board(vec![]), &you), alone);
}

#[test]
fn start_and_end_leave_the_snapshot_alone() {
    let you = snake("a", 100, &[(5, 5)]);
    let b = board(vec![snake("a", 100, &[(5, 5)])]);
    start(&game(), &0, &b, &you);
    end(&game(), &9, &b, &you);
    assert_eq!(b.snakes.len(), 1);
    assert_eq!(you.health, 100);
}
