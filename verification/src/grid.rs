//! The fixed-size grid with its one-cell halo, and the coordinates and
//! directions that address it.

use vstd::prelude::*;

verus! {

/// Side length of the playing field.
pub const BOARD_SIZE: usize = 11;

/// Side length of the stored grid: the field plus one halo cell on each side.
pub const DENSE_BOARD_LENGTH: usize = 13;

/// Number of stored cells, `DENSE_BOARD_LENGTH` squared.
pub const DENSE_BOARD_CELLS: usize = 169;

/// A cell of the field, relative to its corner.
#[derive(Clone, Copy, Debug, PartialEq, Eq, Structural)]
pub struct Coord {
    pub x: i32,
    pub y: i32,
}

/// One of the four moves.
#[derive(Clone, Copy, Debug, PartialEq, Eq, Structural)]
pub enum Direction {
    Up,
    Down,
    Left,
    Right,
}

/// Number of directions.
pub const DIRECTION_COUNT: usize = 4;

/// Whether `(x, y)` is a stored cell: a field cell or a halo cell.
pub open spec fn in_grid(x: int, y: int) -> bool {
    -1 <= x <= BOARD_SIZE && -1 <= y <= BOARD_SIZE
}

/// Whether `(x, y)` is a cell of the field itself.
pub open spec fn in_field(x: int, y: int) -> bool {
    0 <= x < BOARD_SIZE && 0 <= y < BOARD_SIZE
}

/// Position of cell `(x, y)` in the stored row-major sequence.
pub open spec fn cell_index(x: int, y: int) -> int {
    (y + 1) * DENSE_BOARD_LENGTH + (x + 1)
}

/// Computes `cell_index` for a stored cell.
fn offset_of(x: isize, y: isize) -> (offset: usize)
    requires
        in_grid(x as int, y as int),
    ensures
        offset == cell_index(x as int, y as int),
        offset < DENSE_BOARD_CELLS,
{
    let row: usize = (y + 1) as usize;
    let col: usize = (x + 1) as usize;
    assert(row <= BOARD_SIZE + 1 && col <= BOARD_SIZE + 1);
    row * DENSE_BOARD_LENGTH + col
}

/// A value per cell of the grid, halo included.
#[derive(Debug, PartialEq, Eq)]
pub struct DenseBoard<T: Copy> {
    pub board: [T; DENSE_BOARD_CELLS],
}

impl<T: Copy> Copy for DenseBoard<T> {
}

impl<T: Copy> Clone for DenseBoard<T> {
    fn clone(&self) -> (copy: Self)
        ensures
            copy == *self,
    {
        *self
    }
}

impl<T: Copy> View for DenseBoard<T> {
    type V = Seq<T>;

    open spec fn view(&self) -> Seq<T> {
        self.board@
    }
}

impl<T: Copy> DenseBoard<T> {
    /// The value stored for cell `(x, y)`.
    pub open spec fn at(&self, x: int, y: int) -> T {
        self@[cell_index(x, y)]
    }

    /// A grid that holds `default` in every cell, halo included.
    pub fn init(default: T) -> (grid: DenseBoard<T>)
        ensures
            forall|x: int, y: int| in_grid(x, y) ==> #[trigger] grid.at(x, y) == default,
            grid@ == Seq::new(DENSE_BOARD_CELLS as nat, |i: int| default),
    {
        DenseBoard { board: [default; DENSE_BOARD_CELLS] }
    }

    /// Reads cell `(x, y)`.
    pub fn get_xy(&self, x: isize, y: isize) -> (value: T)
        requires
            in_grid(x as int, y as int),
        ensures
            value == self.at(x as int, y as int),
    {
        self.board[offset_of(x, y)]
    }

    /// Hands out cell `(x, y)` for writing; every other cell keeps its value.
    pub fn get_xy_mut(&mut self, x: isize, y: isize) -> (slot: &mut T)
        requires
            in_grid(x as int, y as int),
        ensures
            *slot == old(self).at(x as int, y as int),
            final(self)@ == old(self)@.update(cell_index(x as int, y as int), *final(slot)),
    {
        &mut self.board[offset_of(x, y)]
    }

    /// Reads the cell at `c`.
    pub fn get_coord(&self, c: Coord) -> (value: T)
        requires
            in_grid(c.x as int, c.y as int),
        ensures
            value == self.at(c.x as int, c.y as int),
    {
        self.get_xy(c.x as isize, c.y as isize)
    }

    /// Hands out the cell at `c` for writing; every other cell keeps its value.
    pub fn get_coord_mut(&mut self, c: Coord) -> (slot: &mut T)
        requires
            in_grid(c.x as int, c.y as int),
        ensures
            *slot == old(self).at(c.x as int, c.y as int),
            final(self)@ == old(self)@.update(cell_index(c.x as int, c.y as int), *final(slot)),
    {
        self.get_xy_mut(c.x as isize, c.y as isize)
    }
}

} // verus!
