use vstd::prelude::*;
use crate::board::{
    board_is_full, get_tiles_layout_with_entity, is_layout_of, layout_of, occupied, rank_of,
    stands_at, tile_on, Board, Tiles,
};
use crate::constants::{GRID_HEIGHT, GRID_WIDTH};
use crate::game_state::GameState;
use crate::grid_array::{grid_shaped, GridArray};
use crate::position::Position;
use crate::session::Session;
use crate::tile::Tile;

verus! {

/// The two cells share a side.
pub open spec fn adjacent(p: Position, q: Position) -> bool {
    ||| p.x == q.x && (p.y + 1 == q.y || q.y + 1 == p.y)
    ||| p.y == q.y && (p.x + 1 == q.x || q.x + 1 == p.x)
}

/// The tile that stands on the cell `p`, if one does.
pub open spec fn tile_standing_on(tiles: Tiles, p: Position) -> Option<Tile> {
    match tile_on(tiles, p) {
        Some(id) => Some(rank_of(tiles, id)),
        None => None,
    }
}

/// A tile stands on every cell of the board.
pub open spec fn board_full(tiles: Tiles) -> bool {
    forall|p: Position| p.in_grid() ==> occupied(tiles, p)
}

/// Two tiles of the same rank stand on cells of the board that share a side.
pub open spec fn merge_possible(tiles: Tiles) -> bool {
    exists|p: Position, q: Position|
        #[trigger] adjacent(p, q) && p.in_grid() && q.in_grid() && tile_standing_on(tiles, p)
            is Some && tile_standing_on(tiles, p) == tile_standing_on(tiles, q)
}

/// No cell of the board is empty and no two tiles that share a side have the
/// same rank: no move changes the board any more.
pub open spec fn no_move_left(tiles: Tiles) -> bool {
    board_full(tiles) && !merge_possible(tiles)
}

/// The rank of the tile on every cell of the board.
pub fn get_ranks_layout(board: &Board) -> (layout: GridArray<Option<Tile>>)
    requires
        board.wf(),
    ensures
        grid_shaped(layout@),
        forall|x: int, y: int|
            0 <= x < GRID_WIDTH && 0 <= y < GRID_HEIGHT ==> #[trigger] layout@[x][y]
                == tile_standing_on(board@, Position { x: x as usize, y: y as usize }),
{
    let tiles_layout = get_tiles_layout_with_entity(board);
    let mut ranks: GridArray<Option<Tile>> = GridArray::new(None);
    let mut x: usize = 0;
    while x < GRID_WIDTH
        invariant
            x <= GRID_WIDTH,
            board.wf(),
            is_layout_of(tiles_layout@, board@),
            tiles_layout@ == layout_of(board@),
            grid_shaped(ranks@),
            forall|a: int, b: int|
                0 <= a < x && 0 <= b < GRID_HEIGHT ==> #[trigger] ranks@[a][b] == tile_standing_on(
                    board@,
                    Position { x: a as usize, y: b as usize },
                ),
        decreases GRID_WIDTH - x,
    {
        let mut y: usize = 0;
        while y < GRID_HEIGHT
            invariant
                x < GRID_WIDTH,
                y <= GRID_HEIGHT,
                board.wf(),
                is_layout_of(tiles_layout@, board@),
                tiles_layout@ == layout_of(board@),
                grid_shaped(ranks@),
                forall|a: int, b: int|
                    (0 <= a < x && 0 <= b < GRID_HEIGHT) || (a == x && 0 <= b < y)
                        ==> #[trigger] ranks@[a][b] == tile_standing_on(
                        board@,
                        Position { x: a as usize, y: b as usize },
                    ),
            decreases GRID_HEIGHT - y,
        {
            let ghost p = Position { x, y };
            assert(tiles_layout@[x as int][y as int] == tile_on(board@, p));
            let rank = match tiles_layout.get(x, y) {
                Some(id) => {
                    assert(stands_at(board@, id.0 as int, p));
                    match board.get(id) {
                        Some(bundle) => Some(bundle.tile),
                        None => None,
                    }
                },
                None => None,
            };
            ranks.set(x, y, rank);
            y += 1;
        }
        x += 1;
    }
    ranks
}

/// Whether two tiles of the same rank stand side by side.
pub fn can_merge(board: &Board) -> (r: bool)
    requires
        board.wf(),
    ensures
        r == merge_possible(board@),
{
    let ranks = get_ranks_layout(board);
    let mut x: usize = 0;
    while x < GRID_WIDTH
        invariant
            x <= GRID_WIDTH,
            grid_shaped(ranks@),
            forall|a: int, b: int|
                0 <= a < GRID_WIDTH && 0 <= b < GRID_HEIGHT ==> #[trigger] ranks@[a][b]
                    == tile_standing_on(board@, Position { x: a as usize, y: b as usize }),
            forall|p: Position, q: Position|
                #[trigger] adjacent(p, q) && p.in_grid() && q.in_grid() && p.x < x && (p.x < q.x
                    || p.y < q.y) && tile_standing_on(board@, p) is Some ==> tile_standing_on(
                    board@,
                    p,
                ) != tile_standing_on(board@, q),
        decreases GRID_WIDTH - x,
    {
        let mut y: usize = 0;
        while y < GRID_HEIGHT
            invariant
                x < GRID_WIDTH,
                y <= GRID_HEIGHT,
                grid_shaped(ranks@),
                forall|a: int, b: int|
                    0 <= a < GRID_WIDTH && 0 <= b < GRID_HEIGHT ==> #[trigger] ranks@[a][b]
                        == tile_standing_on(board@, Position { x: a as usize, y: b as usize }),
                forall|p: Position, q: Position|
                    #[trigger] adjacent(p, q) && p.in_grid() && q.in_grid() && (p.x < x || (p.x
                        == x && p.y < y)) && (p.x < q.x || p.y < q.y) && tile_standing_on(
                        board@,
                        p,
                    ) is Some ==> tile_standing_on(board@, p) != tile_standing_on(board@, q),
            decreases GRID_HEIGHT - y,
        {
            let ghost p = Position { x, y };
            let here = ranks.get(x, y);
            assert(here == tile_standing_on(board@, p));
            match here {
                Some(tile) => {
                    if x + 1 < GRID_WIDTH {
                        let ghost q = Position { x: (x + 1) as usize, y };
                        assert(ranks@[x as int + 1][y as int] == tile_standing_on(board@, q));
                        match ranks.get(x + 1, y) {
                            Some(other) => {
                                if other == tile {
                                    assert(adjacent(p, q));
                                    return true;
                                }
                            },
                            None => {},
                        }
                    }
                    if y + 1 < GRID_HEIGHT {
                        let ghost q = Position { x, y: (y + 1) as usize };
                        assert(ranks@[x as int][y as int + 1] == tile_standing_on(board@, q));
                        match ranks.get(x, y + 1) {
                            Some(other) => {
                                if other == tile {
                                    assert(adjacent(p, q));
                                    return true;
                                }
                            },
                            None => {},
                        }
                    }
                },
                None => {},
            }
            y += 1;
        }
        x += 1;
    }
    proof {
        assert forall|p: Position, q: Position|
            #[trigger] adjacent(p, q) && p.in_grid() && q.in_grid() && tile_standing_on(board@, p)
                is Some implies tile_standing_on(board@, p) != tile_standing_on(board@, q) by {
            if p.x < q.x || p.y < q.y {
            } else {
                assert(adjacent(q, p));
            }
        }
    }
    false
}

/// Whether the board is full with nothing left to merge.
pub fn board_is_stuck(board: &Board) -> (r: bool)
    requires
        board.wf(),
    ensures
        r == no_move_left(board@),
{
    board_is_full(board) && !can_merge(board)
}

/// Whether a session in `state` has ended, so that the game is to be closed.
pub fn end_game(state: GameState) -> (exit: bool)
    ensures
        exit <==> state == GameState::GameOver,
{
    state == GameState::GameOver
}

/// The stage of a session that is over: nothing is left but to close the game.
pub struct GameOverPlugin;

impl GameOverPlugin {
    /// Whether the session is over and the game is to be closed. The session
    /// stays as it is.
    pub fn run(session: &Session) -> (exit: bool)
        ensures
            exit <==> session@.state == GameState::GameOver,
    {
        end_game(session.state())
    }
}

} // verus!
