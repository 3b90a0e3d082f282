use battlesnake_logic::grid::{Coord, DenseBoard};

#[test]
fn init_fills_every_cell() {
    let board = DenseBoard::init(7i32);
    for x in -1..12 {
        for y in -1..12 {
            assert_eq!(board.get_xy(x, y), 7);
        }
    }
}

#[test]
fn write_through_get_xy_mut_changes_one_cell() {
    let mut board = DenseBoard::init(0i32);
    *board.get_xy_mut(3, 4) = 9;
    assert_eq!(board.get_xy(3, 4), 9);
    assert_eq!(board.get_coord(Coord { x: 3, y: 4 }), 9);
    assert_eq!(board.get_xy(4, 3), 0);
    *board.get_coord_mut(Coord { x: -1, y: 11 }) = 5;
    assert_eq!(board.get_xy(-1, 11), 5);
}

#[test]
fn copies_are_equal_until_one_is_written() {
    let board = DenseBoard::init(3u8);
    let mut copy = board.clone();
    assert_eq!(copy, board);
    *copy.get_xy_mut(0, 0) = 4;
    assert_ne!(copy, board);
    assert_eq!(board.get_xy(0, 0), 3);
}

#[test]
fn cells_lie_row_by_row_with_the_halo_around() {
    let mut board = DenseBoard::init(0i32);
    *board.get_xy_mut(-1, -1) = 1;
    *board.get_xy_mut(11, -1) = 2;
    *board.get_xy_mut(0, 0) = 3;
    *board.get_xy_mut(11, 11) = 4;
    assert_eq!(board.board[0], 1);
    assert_eq!(board.board[12], 2);
    assert_eq!(board.board[13 + 1], 3);
    assert_eq!(board.board[168], 4);
    assert_eq!(board.board.len(), 169);
}
