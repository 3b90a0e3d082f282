//! The per-turn snapshot that the engine is handed: the game, the board
//! with its agents, and the controlled agent.

use vstd::prelude::*;
use crate::grid::Coord;

verus! {

/// The game a snapshot belongs to.
#[derive(Debug)]
pub struct Game {
    pub id: String,
    pub timeout: u32,
}

/// The board of a snapshot: its snakes, in any order, and what else lies
/// on it. The controlled snake is told from the others by its `id`.
#[derive(Debug)]
pub struct Board {
    pub height: u32,
    pub width: u32,
    pub food: Vec<Coord>,
    pub snakes: Vec<Battlesnake>,
    pub hazards: Vec<Coord>,
}

/// One snake of a snapshot. `body` lists its segments from the head on.
#[derive(Debug)]
pub struct Battlesnake {
    pub id: String,
    pub name: String,
    pub health: u32,
    pub body: Vec<Coord>,
    pub head: Coord,
    pub length: u32,
    pub latency: String,
    pub shout: Option<String>,
}

} // verus!
