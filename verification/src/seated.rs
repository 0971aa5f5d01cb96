//! Where the tiles of a line stand on the board: the cells of a line seen
//! through a turn, and what it means for a line of tiles to be seated in them.

use vstd::prelude::*;
use crate::board::{
    cell_of, cell_shows, layout_of, live, occupied, rank_of, stands_at, tile_on, TileBundle,
    Tiles,
};
use crate::calculate::Line;
use crate::grid_array::rotated;
use crate::movement::step_from;
use crate::position::Position;
use crate::quarter_turn::QuarterTurn;
use crate::tile::{Tile, TileId};

verus! {

/// The cell of the board that is seen at line `i`, column `c` through `turn`.
pub open spec fn cell(turn: QuarterTurn, i: int, c: int) -> Position {
    Position { x: turn.source(i, c).0 as usize, y: turn.source(i, c).1 as usize }
}

/// Different places of the view are different cells of the board.
pub proof fn lemma_cell_injective(turn: QuarterTurn, i: int, c: int, k: int, d: int)
    requires
        turn.in_view(i, c),
        turn.in_view(k, d),
        cell(turn, i, c) == cell(turn, k, d),
    ensures
        i == k,
        c == d,
        cell(turn, i, c).in_grid(),
{
    turn.lemma_source_in_grid(i, c);
    turn.lemma_source_in_grid(k, d);
}

/// One step takes a tile from a column of its line to the column before it.
pub proof fn lemma_step_in_line(turn: QuarterTurn, i: int, c: int)
    requires
        turn.in_view(i, c),
        c >= 1,
    ensures
        cell(turn, i, c).shift_in_grid(turn.spec_downward_unit()),
        step_from(cell(turn, i, c), turn.spec_downward_unit()) == cell(turn, i, c - 1),
        cell(turn, i, c - 1).in_grid(),
{
    turn.lemma_source_in_grid(i, c);
    turn.lemma_source_in_grid(i, c - 1);
    turn.lemma_downward_unit_steps_to_front(i, c);
}

/// From column `start` on, the cells of line `i` hold what `cells` says.
pub open spec fn stretch_seated(
    tiles: Tiles,
    turn: QuarterTurn,
    i: int,
    start: int,
    cells: Line,
) -> bool {
    forall|m: int|
        0 <= m < cells.len() ==> cell_shows(tiles, #[trigger] cells[m], cell(turn, i, start + m))
}

/// From column `base` on, the cells of line `i` hold what `line` says, and
/// the cells behind it are free.
pub open spec fn line_seated(
    tiles: Tiles,
    turn: QuarterTurn,
    i: int,
    base: int,
    line: Line,
) -> bool {
    &&& 0 <= base
    &&& base + line.len() <= turn.spec_height()
    &&& stretch_seated(tiles, turn, i, base, line)
    &&& forall|c: int|
        base + line.len() <= c < turn.spec_height() ==> !occupied(
            tiles,
            #[trigger] cell(turn, i, c),
        )
}

/// From column `base` on, line `i` holds exactly the tiles of `row`, each
/// with its rank, and the cells behind them are free.
pub open spec fn row_seated(
    tiles: Tiles,
    turn: QuarterTurn,
    i: int,
    base: int,
    row: Seq<(TileId, Tile)>,
) -> bool {
    &&& base + row.len() <= turn.spec_height()
    &&& forall|m: int|
        0 <= m < row.len() ==> (#[trigger] row[m]).0.0 < tiles.len() && tiles[row[m].0.0 as int]
            == Some(TileBundle { tile: row[m].1, position: cell(turn, i, base + m) })
    &&& forall|c: int|
        base + row.len() <= c < turn.spec_height() ==> !occupied(
            tiles,
            #[trigger] cell(turn, i, c),
        )
}

/// The boards have the same handles, and every tile that does not stand in
/// `cells` is on the one what it is on the other.
pub open spec fn others_kept(before: Tiles, after: Tiles, cells: Line) -> bool {
    &&& after.len() == before.len()
    &&& forall|k: int|
        0 <= k < before.len() && !cells.contains(Some(TileId(k as usize))) ==> #[trigger] after[k]
            == before[k]
}

/// The tiles of `cells` have on the one board the rank that they have on the other.
pub open spec fn ranks_kept(before: Tiles, after: Tiles, cells: Line) -> bool {
    forall|m: int|
        0 <= m < cells.len() && (#[trigger] cells[m]) is Some ==> after[cells[m].unwrap().0 as int]
            is Some && rank_of(after, cells[m].unwrap())
            == rank_of(before, cells[m].unwrap())
}

/// The tiles of `line` have on `tiles` the rank that was read from `read`.
pub open spec fn ranks_as_read(read: Tiles, tiles: Tiles, line: Line) -> bool {
    forall|m: int|
        0 <= m < line.len() && (#[trigger] line[m]) is Some ==> {
            let k = line[m].unwrap().0 as int;
            &&& live(read, line[m].unwrap())
            &&& tiles[k] is Some
            &&& tiles[k].unwrap().tile == read[k].unwrap().tile
        }
}

/// Every tile of `line` that is on the board stands in line `i`.
pub open spec fn stay_in_line(tiles: Tiles, turn: QuarterTurn, i: int, line: Line) -> bool {
    forall|m: int|
        0 <= m < line.len() && (#[trigger] line[m]) is Some && tiles[line[m].unwrap().0 as int]
            is Some ==> exists|c: int|
            0 <= c < turn.spec_height() && cell_of(tiles, line[m].unwrap())
                == #[trigger] cell(turn, i, c)
}

/// The cell `p` is none of the columns `lo` up to `hi` of line `i`.
pub open spec fn off_stretch(turn: QuarterTurn, i: int, lo: int, hi: int, p: Position) -> bool {
    forall|c: int| lo <= c < hi ==> p != #[trigger] cell(turn, i, c)
}

/// No tile stands in two cells of a line.
pub proof fn lemma_seated_distinct(
    tiles: Tiles,
    turn: QuarterTurn,
    i: int,
    base: int,
    line: Line,
    m: int,
    n: int,
)
    requires
        0 <= i < turn.spec_width(),
        0 <= base,
        base + line.len() <= turn.spec_height(),
        stretch_seated(tiles, turn, i, base, line),
        0 <= m < line.len(),
        0 <= n < line.len(),
        m != n,
        line[m] is Some,
    ensures
        line[m] != line[n],
{
    if line[m] == line[n] {
        assert(cell_shows(tiles, line[m], cell(turn, i, base + m)));
        assert(cell_shows(tiles, line[n], cell(turn, i, base + n)));
        lemma_cell_injective(turn, i, base + m, i, base + n);
    }
}

/// Where only the tiles of a stretch have changed, and they stand in the
/// stretch before and after, every cell off the stretch holds what it held.
pub proof fn lemma_off_stretch_kept(
    before: Tiles,
    after: Tiles,
    turn: QuarterTurn,
    i: int,
    start: int,
    cells: Line,
    p: Position,
)
    requires
        before.len() <= usize::MAX,
        others_kept(before, after, cells),
        stretch_seated(before, turn, i, start, cells),
        stretch_seated(after, turn, i, start - 1, cells),
        off_stretch(turn, i, start - 1, start + cells.len(), p),
    ensures
        occupied(after, p) <==> occupied(before, p),
        forall|k: int| stands_at(after, k, p) <==> stands_at(before, k, p),
{
    assert forall|k: int| stands_at(after, k, p) <==> stands_at(before, k, p) by {
        if 0 <= k < before.len() {
            if cells.contains(Some(TileId(k as usize))) {
                let m = choose|m: int| 0 <= m < cells.len() && cells[m] == Some(TileId(k as usize));
                assert(cell_shows(before, cells[m], cell(turn, i, start + m)));
                assert(cell_shows(after, cells[m], cell(turn, i, start - 1 + m)));
                assert(p != cell(turn, i, start + m));
                assert(p != cell(turn, i, start - 1 + m));
            } else {
                assert(after[k] == before[k]);
            }
        }
    }
    if occupied(after, p) {
        let k = choose|k: int| #[trigger] stands_at(after, k, p);
        assert(stands_at(before, k, p));
    }
    if occupied(before, p) {
        let k = choose|k: int| #[trigger] stands_at(before, k, p);
        assert(stands_at(after, k, p));
    }
}

/// A tile seated in front of a seated row makes a seated row.
pub proof fn lemma_row_seated_behind(
    tiles: Tiles,
    turn: QuarterTurn,
    i: int,
    base: int,
    front: (TileId, Tile),
    behind: Seq<(TileId, Tile)>,
)
    requires
        front.0.0 < tiles.len(),
        tiles[front.0.0 as int] == Some(
            TileBundle { tile: front.1, position: cell(turn, i, base) },
        ),
        row_seated(tiles, turn, i, base + 1, behind),
    ensures
        row_seated(tiles, turn, i, base, seq![front] + behind),
{
    let row = seq![front] + behind;
    assert forall|m: int| 0 <= m < row.len() implies (#[trigger] row[m]).0.0 < tiles.len()
        && tiles[row[m].0.0 as int] == Some(
        TileBundle { tile: row[m].1, position: cell(turn, i, base + m) },
    ) by {
        if m > 0 {
            assert(row[m] == behind[m - 1]);
        }
    }
}

/// A row that is seated in its line stays seated while the events of another
/// line are applied.
pub proof fn lemma_row_kept(
    tiles: Tiles,
    after: Tiles,
    turn: QuarterTurn,
    b: int,
    row: Seq<(TileId, Tile)>,
    k: int,
    line: Line,
)
    requires
        tiles.len() <= usize::MAX,
        0 <= b < turn.spec_width(),
        0 <= k < turn.spec_width(),
        b != k,
        row_seated(tiles, turn, b, 0, row),
        others_kept(tiles, after, line),
        stay_in_line(after, turn, k, line),
        forall|m: int| 0 <= m < row.len() ==> !line.contains(Some((#[trigger] row[m]).0)),
    ensures
        row_seated(after, turn, b, 0, row),
{
    assert forall|m: int| 0 <= m < row.len() implies (#[trigger] row[m]).0.0 < after.len()
        && after[row[m].0.0 as int] == Some(
        TileBundle { tile: row[m].1, position: cell(turn, b, 0 + m) },
    ) by {
        let j = row[m].0.0 as int;
        assert(TileId(j as usize) == row[m].0);
        assert(after[j] == tiles[j]);
    }
    assert forall|c: int| 0 + row.len() <= c < turn.spec_height() implies !occupied(
        after,
        #[trigger] cell(turn, b, c),
    ) by {
        let p = cell(turn, b, c);
        assert(!occupied(tiles, p));
        if occupied(after, p) {
            let j = choose|j: int| #[trigger] stands_at(after, j, p);
            assert(stands_at(after, j, p));
            if line.contains(Some(TileId(j as usize))) {
                let m = choose|m: int| 0 <= m < line.len() && line[m] == Some(TileId(j as usize));
                assert(line[m] is Some);
                let d = choose|d: int|
                    0 <= d < turn.spec_height() && after[j].unwrap().position
                        == #[trigger] cell(turn, k, d);
                lemma_cell_injective(turn, k, d, b, c);
            } else {
                assert(after[j] == tiles[j]);
                assert(stands_at(tiles, j, p));
            }
        }
    }
}

/// A line of a board, seen through any turn, is seated on that board.
pub proof fn lemma_line_seated_on_board(tiles: Tiles, turn: QuarterTurn, k: int)
    requires
        tiles.len() <= usize::MAX,
        0 <= k < turn.spec_width(),
    ensures
        line_seated(tiles, turn, k, 0, rotated(layout_of(tiles), turn)[k]),
{
    let line = rotated(layout_of(tiles), turn)[k];
    assert forall|m: int| 0 <= m < line.len() implies cell_shows(
        tiles,
        #[trigger] line[m],
        cell(turn, k, 0 + m),
    ) by {
        turn.lemma_source_in_grid(k, m);
        let p = cell(turn, k, m);
        assert(line[m] == tile_on(tiles, p));
        if occupied(tiles, p) {
            let j = choose|j: int| #[trigger] stands_at(tiles, j, p);
            assert(stands_at(tiles, j, p));
        }
    }
}

} // verus!
