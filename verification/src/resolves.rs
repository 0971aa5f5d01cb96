//! Every move resolves: the resolver never meets a tile that is missing from the
//! board whose lines it reads.

use vstd::prelude::*;
use crate::board::{layout_of, live, stands_at, tile_on, Tiles};
use crate::calculate::{resolve_move, resolve_slice, resolve_slices, slices_of, Line};
use crate::events::PlayerInputEvent;
use crate::grid_array::rotated;
use crate::position::Position;
use crate::quarter_turn::QuarterTurn;

verus! {

/// Every tile of the line is on the board.
pub open spec fn line_on_board(line: Line, tiles: Tiles) -> bool {
    forall|j: int|
        0 <= j < line.len() && (#[trigger] line[j]) is Some ==> live(tiles, line[j].unwrap())
}

/// Every tile in a line of the board, seen through any turn, is on the board.
pub proof fn lemma_lines_on_board(tiles: Tiles, turn: QuarterTurn, i: int)
    requires
        tiles.len() <= usize::MAX,
        0 <= i < turn.spec_width(),
    ensures
        line_on_board(rotated(layout_of(tiles), turn)[i], tiles),
{
    let line = rotated(layout_of(tiles), turn)[i];
    assert forall|j: int| 0 <= j < line.len() && (#[trigger] line[j]) is Some implies live(
        tiles,
        line[j].unwrap(),
    ) by {
        turn.lemma_source_in_grid(i, j);
        let (x, y) = turn.source(i, j);
        let p = Position { x: x as usize, y: y as usize };
        assert(line[j] == tile_on(tiles, p));
        let k = choose|k: int| #[trigger] stands_at(tiles, k, p);
        assert(stands_at(tiles, k, p));
    }
}

/// A line whose tiles are all on the board resolves without a fault.
pub proof fn lemma_line_resolves(line: Line, tiles: Tiles, turn: QuarterTurn)
    requires
        line_on_board(line, tiles),
    ensures
        resolve_slice(line, tiles, turn) is Ok,
    decreases line.len(),
{
    if line.len() == 0 {
    } else if line[0] is None {
        let rest = line.drop_first();
        assert forall|j: int| 0 <= j < rest.len() && (#[trigger] rest[j]) is Some implies live(
            tiles,
            rest[j].unwrap(),
        ) by {
            assert(line[j + 1] is Some);
        }
        lemma_line_resolves(rest, tiles, turn);
    } else if line.len() == 1 {
    } else if line[1] is None {
        let rest = line.skip(2);
        let next = seq![line[0]] + rest;
        assert forall|j: int| 0 <= j < next.len() && (#[trigger] next[j]) is Some implies live(
            tiles,
            next[j].unwrap(),
        ) by {
            if j == 0 {
                assert(line[0] is Some);
            } else {
                assert(line[j + 1] is Some);
            }
        }
        lemma_line_resolves(next, tiles, turn);
    } else {
        assert(line[0] is Some && line[1] is Some);
        let rest = line.skip(2);
        assert forall|j: int| 0 <= j < rest.len() && (#[trigger] rest[j]) is Some implies live(
            tiles,
            rest[j].unwrap(),
        ) by {
            assert(line[j + 2] is Some);
        }
        lemma_line_resolves(rest, tiles, turn);
        let tail = line.drop_first();
        assert forall|j: int| 0 <= j < tail.len() && (#[trigger] tail[j]) is Some implies live(
            tiles,
            tail[j].unwrap(),
        ) by {
            assert(line[j + 1] is Some);
        }
        lemma_line_resolves(tail, tiles, turn);
    }
}

/// Slices whose tiles are all on the board resolve without a fault.
pub proof fn lemma_slices_resolve(slices: Seq<(Line, QuarterTurn)>, tiles: Tiles)
    requires
        forall|i: int| 0 <= i < slices.len() ==> line_on_board((#[trigger] slices[i]).0, tiles),
    ensures
        resolve_slices(slices, tiles) is Ok,
    decreases slices.len(),
{
    if slices.len() > 0 {
        let before = slices.drop_last();
        assert forall|i: int| 0 <= i < before.len() implies line_on_board(
            (#[trigger] before[i]).0,
            tiles,
        ) by {
            assert(before[i] == slices[i]);
        }
        lemma_slices_resolve(before, tiles);
        assert(line_on_board(slices[slices.len() - 1].0, tiles));
        lemma_line_resolves(slices.last().0, tiles, slices.last().1);
    }
}

/// Every move on a board resolves into steps and merges: the resolver meets
/// no tile that is missing from the board it reads.
pub proof fn lemma_move_resolves(tiles: Tiles, input: PlayerInputEvent)
    requires
        tiles.len() <= usize::MAX,
    ensures
        resolve_move(tiles, input) is Ok,
{
    let turn = input.spec_turn();
    let slices = slices_of(layout_of(tiles), turn);
    assert forall|i: int| 0 <= i < slices.len() implies line_on_board(
        (#[trigger] slices[i]).0,
        tiles,
    ) by {
        assert(slices[i].0 == rotated(layout_of(tiles), turn)[i]);
        lemma_lines_on_board(tiles, turn, i);
    }
    lemma_slices_resolve(slices, tiles);
}

} // verus!
