use vstd::prelude::*;
use crate::position::Position;
use crate::quarter_turn::QuarterTurn;
use crate::tile::{Tile, TileId};

verus! {

/// A move asked for by the player.
#[derive(Clone, Copy, PartialEq, Eq, Structural, Debug)]
pub enum PlayerInputEvent {
    Left,
    Right,
    Up,
    Down,
}

impl PlayerInputEvent {
    /// The turn through which the move is a fall toward column 0.
    pub open spec fn spec_turn(self) -> QuarterTurn {
        match self {
            PlayerInputEvent::Down => QuarterTurn::Deg000,
            PlayerInputEvent::Left => QuarterTurn::Deg090,
            PlayerInputEvent::Up => QuarterTurn::Deg180,
            PlayerInputEvent::Right => QuarterTurn::Deg270,
        }
    }

    pub fn turn(self) -> (t: QuarterTurn)
        ensures
            t == self.spec_turn(),
    {
        match self {
            PlayerInputEvent::Down => QuarterTurn::Deg000,
            PlayerInputEvent::Left => QuarterTurn::Deg090,
            PlayerInputEvent::Up => QuarterTurn::Deg180,
            PlayerInputEvent::Right => QuarterTurn::Deg270,
        }
    }
}

/// One line of the board as seen through a turn, from column 0 on.
#[derive(Debug)]
pub struct SlicedMovementEvent(pub Vec<Option<TileId>>, pub QuarterTurn);

/// What a move does to one tile.
#[derive(Clone, Copy, PartialEq, Eq, Structural, Debug)]
pub enum TileMovementEvent {
    /// The tile goes one cell toward column 0 as seen through the turn.
    OneStep(TileId, QuarterTurn),
    /// The first tile takes up the second: its rank goes up by one and the
    /// second tile leaves the board.
    Merge(TileId, TileId, QuarterTurn),
}

/// A tile to be put onto the board.
#[derive(Clone, Copy, PartialEq, Eq, Structural, Debug)]
pub struct TileSpawnEvent {
    pub tile: Tile,
    pub position: Position,
}

} // verus!
