//! Decision engine for a snake on a fixed square grid: a dense grid with a
//! wall halo, the per-turn game state, a territory estimate and a
//! depth-bounded adversarial search over both.

pub mod driver;
pub mod grid;
pub mod joint;
pub mod reach;
pub mod search;
pub mod snapshot;
pub mod state;
pub mod symmetry;
pub mod territory;

pub use driver::{end, get_move, start};
pub use grid::{Coord, DenseBoard, Direction};
pub use joint::JointMove;
pub use search::{alphabeta, best_move};
pub use snapshot::{Battlesnake, Board, Game};
pub use state::Node;
pub use territory::voronoi;
