//! Tileworld: agents on a bounded grid fetch scored tiles and drop them into
//! holes, planning a fresh shortest route on every step.

use vstd::prelude::*;

pub mod agent;
pub mod astar;
pub mod chance;
pub mod claims;
pub mod grid;
pub mod heap;
pub mod hole;
pub mod location;
pub mod obstacle;
pub mod open_set;
pub mod route;
pub mod state;
pub mod tile;

verus! {

/// Number of columns of the grid.
pub const COLS: u16 = 40;

/// Number of rows of the grid.
pub const ROWS: u16 = 40;

/// Number of agents in a new simulation.
pub const NUM_AGENTS: u8 = 6;

/// Number of tiles in a new simulation.
pub const NUM_TILES: u8 = 20;

/// Number of holes in a new simulation.
pub const NUM_HOLES: u8 = 20;

/// Number of obstacles in a new simulation.
pub const NUM_OBSTACLES: u8 = 20;

} // verus!
