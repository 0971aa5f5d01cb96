use vstd::prelude::*;
use crate::position::Position;
use crate::tile::{Tile, TileId};

verus! {

/// A fault in the model: an operation does not fit the board it is applied to.
///
/// None of these arises from play; each shows a broken invariant.
#[derive(Clone, Copy, PartialEq, Eq, Structural, Debug)]
pub enum ModelFault {
    /// The operation names a tile that is not on the board.
    NoSuchTile(TileId),
    /// The tile would leave the board.
    OffBoard(TileId),
    /// The cell is off the board.
    NoSuchCell(Position),
    /// The cell already holds a tile.
    CellOccupied(Position),
    /// No tile has this rank: the lowest rank is 1.
    NoSuchRank(Tile),
    /// The rank of the tile cannot be raised any further.
    RankExhausted(TileId),
    /// The score cannot take the points of a merge.
    ScoreExhausted,
}

} // verus!
