//! Moves that change nothing: where no tile can move or merge, the move resolves
//! to nothing and the turn brings no new tile.

use vstd::prelude::*;
use crate::board::{layout_of, live, rank_of, Tiles};
use crate::calculate::{resolve_move, resolve_slice, resolve_slices, shift_events, slices_of, Line};
use crate::error::ModelFault;
use crate::events::{PlayerInputEvent, TileMovementEvent};
use crate::game_state::GameState;
use crate::grid_array::rotated;
use crate::quarter_turn::QuarterTurn;
use crate::resolves::{lemma_lines_on_board, line_on_board};
use crate::session::SessionView;

verus! {

/// No tile of the line can move: no tile stands behind a gap.
pub open spec fn line_compact(line: Line) -> bool {
    forall|j: int, k: int|
        0 <= j < k < line.len() && (#[trigger] line[j]) is None ==> (#[trigger] line[k]) is None
}

/// No tile of the line can merge: no two neighbours have the same rank.
pub open spec fn line_unmergeable(line: Line, tiles: Tiles) -> bool {
    forall|j: int|
        0 <= j && j + 1 < line.len() && (#[trigger] line[j]) is Some && line[j + 1] is Some
            ==> rank_of(tiles, line[j].unwrap())
            != rank_of(tiles, line[j + 1].unwrap())
}

/// In the line no tile can move and no tile can merge.
pub open spec fn line_settled(line: Line, tiles: Tiles) -> bool {
    line_compact(line) && line_unmergeable(line, tiles)
}

/// On the board seen through `turn`, no tile can move and no tile can merge.
pub open spec fn move_settled(tiles: Tiles, turn: QuarterTurn) -> bool {
    forall|i: int|
        0 <= i < turn.spec_width() ==> line_settled(
            #[trigger] rotated(layout_of(tiles), turn)[i],
            tiles,
        )
}

/// A stretch of gaps gives no step.
pub proof fn lemma_gaps_shift_nothing(cells: Line, turn: QuarterTurn)
    requires
        forall|j: int| 0 <= j < cells.len() ==> (#[trigger] cells[j]) is None,
    ensures
        shift_events(cells, turn) == Seq::<TileMovementEvent>::empty(),
    decreases cells.len(),
{
    if cells.len() > 0 {
        assert(cells[0] is None);
        let rest = cells.drop_first();
        assert forall|j: int| 0 <= j < rest.len() implies (#[trigger] rest[j]) is None by {
            assert(cells[j + 1] is None);
        }
        lemma_gaps_shift_nothing(rest, turn);
    }
}

/// A line in which no tile can move or merge resolves to no step and no merge.
pub proof fn lemma_settled_line_resolves_to_nothing(line: Line, tiles: Tiles, turn: QuarterTurn)
    requires
        line_on_board(line, tiles),
        line_settled(line, tiles),
    ensures
        resolve_slice(line, tiles, turn) == Ok::<Seq<TileMovementEvent>, ModelFault>(Seq::empty()),
    decreases line.len(),
{
    let nothing = Seq::<TileMovementEvent>::empty();
    if line.len() == 0 {
    } else if line[0] is None {
        let rest = line.drop_first();
        assert forall|j: int| 0 <= j < rest.len() implies (#[trigger] rest[j]) is None by {
            assert(line[j + 1] is None);
        }
        lemma_gaps_shift_nothing(rest, turn);
        lemma_settled_line_resolves_to_nothing(rest, tiles, turn);
        assert(nothing + nothing =~= nothing);
    } else if line.len() == 1 {
    } else if line[1] is None {
        let rest = line.skip(2);
        assert forall|j: int| 0 <= j < rest.len() implies (#[trigger] rest[j]) is None by {
            assert(line[j + 2] is None);
        }
        lemma_gaps_shift_nothing(rest, turn);
        let next = seq![line[0]] + rest;
        assert forall|j: int| 0 <= j < next.len() && (#[trigger] next[j]) is Some implies live(
            tiles,
            next[j].unwrap(),
        ) by {
            assert(j == 0);
            assert(line[0] is Some);
        }
        assert forall|j: int, k: int|
            0 <= j < k < next.len() && (#[trigger] next[j]) is None implies (#[trigger] next[k])
            is None by {
            assert(rest[k - 1] is None);
        }
        assert forall|j: int|
            0 <= j && j + 1 < next.len() && (#[trigger] next[j]) is Some && next[j + 1]
                is Some implies rank_of(tiles, next[j].unwrap())
            != rank_of(tiles, next[j + 1].unwrap()) by {
            assert(rest[j] is None);
        }
        lemma_settled_line_resolves_to_nothing(next, tiles, turn);
        assert(nothing + nothing =~= nothing);
    } else {
        assert(line[0] is Some && line[1] is Some);
        assert(live(tiles, line[0].unwrap()));
        assert(live(tiles, line[1].unwrap()));
        let rest = line.drop_first();
        assert forall|j: int| 0 <= j < rest.len() && (#[trigger] rest[j]) is Some implies live(
            tiles,
            rest[j].unwrap(),
        ) by {
            assert(line[j + 1] is Some);
        }
        assert forall|j: int, k: int|
            0 <= j < k < rest.len() && (#[trigger] rest[j]) is None implies (#[trigger] rest[k])
            is None by {
            assert(line[j + 1] is None);
            assert(line[k + 1] is None);
        }
        assert forall|j: int|
            0 <= j && j + 1 < rest.len() && (#[trigger] rest[j]) is Some && rest[j + 1]
                is Some implies rank_of(tiles, rest[j].unwrap())
            != rank_of(tiles, rest[j + 1].unwrap()) by {
            assert(line[j + 1] is Some);
        }
        lemma_settled_line_resolves_to_nothing(rest, tiles, turn);
    }
}

/// Slices in which no tile can move or merge resolve to no step and no merge.
pub proof fn lemma_settled_slices_resolve_to_nothing(slices: Seq<(Line, QuarterTurn)>, tiles: Tiles)
    requires
        forall|i: int|
            0 <= i < slices.len() ==> line_on_board((#[trigger] slices[i]).0, tiles)
                && line_settled(slices[i].0, tiles),
    ensures
        resolve_slices(slices, tiles) == Ok::<Seq<TileMovementEvent>, ModelFault>(Seq::empty()),
    decreases slices.len(),
{
    if slices.len() > 0 {
        let nothing = Seq::<TileMovementEvent>::empty();
        let before = slices.drop_last();
        assert forall|i: int| 0 <= i < before.len() implies line_on_board(
            (#[trigger] before[i]).0,
            tiles,
        ) && line_settled(before[i].0, tiles) by {
            assert(before[i] == slices[i]);
        }
        lemma_settled_slices_resolve_to_nothing(before, tiles);
        assert(line_settled(slices[slices.len() - 1].0, tiles));
        lemma_settled_line_resolves_to_nothing(slices.last().0, tiles, slices.last().1);
        assert(nothing + nothing =~= nothing);
    }
}

/// If no tile can move or merge in the direction of a move, the move resolves
/// to no step and no merge.
pub proof fn lemma_settled_move_resolves_to_nothing(tiles: Tiles, input: PlayerInputEvent)
    requires
        tiles.len() <= usize::MAX,
        move_settled(tiles, input.spec_turn()),
    ensures
        resolve_move(tiles, input) == Ok::<Seq<TileMovementEvent>, ModelFault>(Seq::empty()),
{
    let turn = input.spec_turn();
    let slices = slices_of(layout_of(tiles), turn);
    assert forall|i: int| 0 <= i < slices.len() implies line_on_board(
        (#[trigger] slices[i]).0,
        tiles,
    ) && line_settled(slices[i].0, tiles) by {
        assert(slices[i].0 == rotated(layout_of(tiles), turn)[i]);
        lemma_lines_on_board(tiles, turn, i);
    }
    lemma_settled_slices_resolve_to_nothing(slices, tiles);
}

/// A move in whose direction no tile can move or merge changes nothing: the
/// session runs through its turn, brings no new tile and keeps its board and
/// its score, whatever bits were drawn.
pub proof fn lemma_settled_move_changes_nothing(
    session: SessionView,
    input: PlayerInputEvent,
    cell_bits: u64,
    tile_bits: u32,
)
    requires
        session.state == GameState::Input,
        session.tiles.len() <= usize::MAX,
        move_settled(session.tiles, input.spec_turn()),
    ensures
        ({
            let asked = session.after_input(input);
            let (resolved, fault_resolving) = asked.after_calculate();
            let (applied, fault_applying) = resolved.after_movement();
            let closed = applied.after_spawn(cell_bits, tile_bits);
            &&& asked.state == GameState::Calculate
            &&& fault_resolving is None
            &&& resolved.state == GameState::Movement
            &&& resolved.movements.len() == 0
            &&& fault_applying is None
            &&& applied.state == GameState::Spawn
            &&& closed.tiles == session.tiles
            &&& closed.score == session.score
            &&& closed.state == GameState::Input || closed.state == GameState::GameOver
        }),
{
    lemma_settled_move_resolves_to_nothing(session.tiles, input);
}

} // verus!
