use vstd::prelude::*;

verus! {

/// Number of cells along the first coordinate of the board.
pub const GRID_WIDTH: usize = 4;

/// Number of cells along the second coordinate of the board.
pub const GRID_HEIGHT: usize = 4;

/// Out of `SPAWN_WEIGHT_RANK_ONE + SPAWN_WEIGHT_RANK_TWO` new tiles, this many
/// come with rank 1 and show a 2.
pub const SPAWN_WEIGHT_RANK_ONE: u32 = 9;

/// Out of `SPAWN_WEIGHT_RANK_ONE + SPAWN_WEIGHT_RANK_TWO` new tiles, this many
/// come with rank 2 and show a 4.
pub const SPAWN_WEIGHT_RANK_TWO: u32 = 1;

/// The number of tiles on the board when a session begins.
pub const INITIAL_TILES: usize = 2;

} // verus!
