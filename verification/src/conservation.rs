use vstd::prelude::*;
use vstd::relations::injective_on;
use vstd::set_lib::{
    lemma_int_range, lemma_len_subset, lemma_map_size, lemma_set_disjoint_lens, set_int_range,
};
use crate::board::{
    all_cells_in_order, empty_cells, layout_of, lemma_all_cells_in_order, occupied_cells,
    stands_at, well_formed, Tiles,
};
use crate::calculate::{
    resolve_move, resolve_slice, resolve_slices, shift_events, slices_of, Line,
};
use crate::constants::{GRID_HEIGHT, GRID_WIDTH};
use crate::events::{PlayerInputEvent, TileMovementEvent};
use crate::grid_array::rotated;
use crate::movement::{apply_event, apply_events, lemma_apply_event_keeps};
use crate::position::Position;
use crate::quarter_turn::QuarterTurn;

verus! {

/// The handles of the tiles on the board.
pub open spec fn live_handles(tiles: Tiles) -> Set<int> {
    Set::new(|i: int| 0 <= i < tiles.len() && tiles[i] is Some)
}

/// The number of merges among `events`.
pub open spec fn merge_count(events: Seq<TileMovementEvent>) -> nat
    decreases events.len(),
{
    if events.len() == 0 {
        0
    } else {
        let rest = merge_count(events.drop_first());
        match events[0] {
            TileMovementEvent::Merge(_, _, _) => 1 + rest,
            TileMovementEvent::OneStep(_, _) => rest,
        }
    }
}

/// A board has finitely many tiles.
pub proof fn lemma_live_handles_finite(tiles: Tiles)
    ensures
        live_handles(tiles).finite(),
        live_handles(tiles).len() <= tiles.len(),
{
    lemma_int_range(0, tiles.len() as int);
    assert(live_handles(tiles).subset_of(set_int_range(0, tiles.len() as int)));
    lemma_len_subset(live_handles(tiles), set_int_range(0, tiles.len() as int));
}

/// On a well-formed board there are as many occupied cells as tiles.
pub proof fn lemma_occupied_count(tiles: Tiles)
    requires
        well_formed(tiles),
    ensures
        occupied_cells(tiles).finite(),
        occupied_cells(tiles).len() == live_handles(tiles).len(),
{
    let place = |i: int| tiles[i].unwrap().position;
    lemma_live_handles_finite(tiles);
    assert(injective_on(place, live_handles(tiles)));
    assert forall|p: Position| live_handles(tiles).map(place).contains(p) implies occupied_cells(
        tiles,
    ).contains(p) by {
        let i = choose|i: int| live_handles(tiles).contains(i) && p == place(i);
        assert(stands_at(tiles, i, p));
    }
    assert forall|p: Position| occupied_cells(tiles).contains(p) implies live_handles(tiles).map(
        place,
    ).contains(p) by {
        let i = choose|i: int| #[trigger] stands_at(tiles, i, p);
        assert(live_handles(tiles).contains(i) && p == place(i));
    }
    assert(live_handles(tiles).map(place) =~= occupied_cells(tiles));
    lemma_map_size(live_handles(tiles), occupied_cells(tiles), place);
}

/// The board has `GRID_WIDTH * GRID_HEIGHT` cells.
pub proof fn lemma_cells_of_the_board()
    ensures
        Set::new(|p: Position| p.in_grid()).finite(),
        Set::new(|p: Position| p.in_grid()).len() == GRID_WIDTH * GRID_HEIGHT,
{
    let cells = all_cells_in_order();
    lemma_all_cells_in_order();
    assert(cells.no_duplicates()) by {
        assert forall|i: int, j: int|
            0 <= i < cells.len() && 0 <= j < cells.len() && i != j implies cells[i]
            != cells[j] by {
            if i < j {
                assert(cells[i].precedes(cells[j]));
            } else {
                assert(cells[j].precedes(cells[i]));
            }
        }
    }
    cells.unique_seq_to_set();
}

/// Every cell of the board is either occupied or empty: on any board the
/// occupied cells and the empty cells together are all the cells, and so at
/// most as many cells are occupied as the board has.
pub proof fn lemma_occupied_and_empty_cells(tiles: Tiles)
    ensures
        occupied_cells(tiles).finite(),
        empty_cells(tiles).finite(),
        occupied_cells(tiles).len() + empty_cells(tiles).len() == GRID_WIDTH * GRID_HEIGHT,
        occupied_cells(tiles).len() <= GRID_WIDTH * GRID_HEIGHT,
{
    let all = Set::new(|p: Position| p.in_grid());
    lemma_cells_of_the_board();
    assert(occupied_cells(tiles).subset_of(all));
    assert(empty_cells(tiles).subset_of(all));
    lemma_len_subset(occupied_cells(tiles), all);
    lemma_len_subset(empty_cells(tiles), all);
    assert(occupied_cells(tiles).disjoint(empty_cells(tiles)));
    assert(occupied_cells(tiles) + empty_cells(tiles) =~= all);
    lemma_set_disjoint_lens(occupied_cells(tiles), empty_cells(tiles));
}

/// A step keeps every tile on the board; a merge takes one tile off it.
pub proof fn lemma_event_tile_count(tiles: Tiles, score: nat, event: TileMovementEvent)
    requires
        well_formed(tiles),
    ensures
        apply_event(tiles, score, event) matches Ok((next, _)) ==> live_handles(next).len() + (
        match event {
            TileMovementEvent::Merge(_, _, _) => 1nat,
            TileMovementEvent::OneStep(_, _) => 0nat,
        }) == live_handles(tiles).len(),
{
    lemma_live_handles_finite(tiles);
    match apply_event(tiles, score, event) {
        Ok((next, _)) => {
            match event {
                TileMovementEvent::OneStep(_, _) => {
                    assert(live_handles(next) =~= live_handles(tiles));
                },
                TileMovementEvent::Merge(_, absorbed, _) => {
                    assert(live_handles(next) =~= live_handles(tiles).remove(absorbed.0 as int));
                },
            }
        },
        Err(_) => {},
    }
}

/// The steps and merges of a move never bring a tile onto the board, and
/// where all of them could be applied, the number of occupied cells has gone
/// down by exactly the number of merges.
pub proof fn lemma_move_conserves_tiles(
    tiles: Tiles,
    score: nat,
    events: Seq<TileMovementEvent>,
)
    requires
        well_formed(tiles),
    ensures
        ({
            let (after, _, fault) = apply_events(tiles, score, events);
            &&& well_formed(after)
            &&& occupied_cells(tiles).finite()
            &&& occupied_cells(after).finite()
            &&& occupied_cells(after).len() <= occupied_cells(tiles).len()
            &&& occupied_cells(after).len() + merge_count(events) >= occupied_cells(tiles).len()
            &&& fault is None ==> occupied_cells(after).len() + merge_count(events)
                == occupied_cells(tiles).len()
        }),
    decreases events.len(),
{
    lemma_occupied_count(tiles);
    if events.len() > 0 {
        match apply_event(tiles, score, events[0]) {
            Ok((next_tiles, next_score)) => {
                lemma_apply_event_keeps(tiles, score, events[0]);
                lemma_event_tile_count(tiles, score, events[0]);
                lemma_occupied_count(next_tiles);
                lemma_move_conserves_tiles(next_tiles, next_score, events.drop_first());
            },
            Err(_) => {},
        }
    }
}

/// The most steps and merges that a line of `n` cells can resolve to: the
/// first cell takes none, and every further cell as many as there are cells
/// before it.
pub open spec fn most_events(n: nat) -> nat
    decreases n,
{
    if n == 0 {
        0
    } else {
        (n - 1) as nat + most_events((n - 1) as nat)
    }
}

/// A stretch of a line gives at most one step for each of its cells.
pub proof fn lemma_shift_events_count(cells: Line, turn: QuarterTurn)
    ensures
        shift_events(cells, turn).len() <= cells.len(),
    decreases cells.len(),
{
    if cells.len() > 0 {
        lemma_shift_events_count(cells.drop_first(), turn);
    }
}

/// A line of `n` cells resolves to at most `n * (n - 1) / 2` steps and merges.
pub proof fn lemma_line_event_count(line: Line, tiles: Tiles, turn: QuarterTurn)
    ensures
        resolve_slice(line, tiles, turn) matches Ok(events) ==> events.len() <= most_events(
            line.len(),
        ),
        2 * most_events(line.len()) == line.len() * (line.len() - 1),
    decreases line.len(),
{
    lemma_most_events(line.len());
    if resolve_slice(line, tiles, turn) is Err || line.len() == 0 {
    } else if line[0] is None {
        let rest = line.drop_first();
        lemma_shift_events_count(rest, turn);
        lemma_line_event_count(rest, tiles, turn);
    } else if line.len() == 1 {
    } else if line[1] is None {
        let rest = line.skip(2);
        lemma_shift_events_count(rest, turn);
        lemma_line_event_count(seq![line[0]] + rest, tiles, turn);
    } else {
        let rest = line.skip(2);
        lemma_shift_events_count(rest, turn);
        lemma_line_event_count(rest, tiles, turn);
        lemma_line_event_count(line.drop_first(), tiles, turn);
        lemma_most_events(rest.len());
        lemma_most_events(line.drop_first().len());
    }
}

/// `most_events(n)` is `n * (n - 1) / 2`.
pub proof fn lemma_most_events(n: nat)
    ensures
        2 * most_events(n) == n * (n - 1),
    decreases n,
{
    if n > 0 {
        let m = (n - 1) as nat;
        lemma_most_events(m);
        assert(most_events(n) == m + most_events(m));
        assert(2 * m + m * (m - 1) == n * (n - 1)) by (nonlinear_arith)
            requires
                n == m + 1,
        ;
    } else {
        assert(n * (n - 1) == 0) by (nonlinear_arith)
            requires
                n == 0,
        ;
    }
}

/// Slices of `n` cells each resolve to at most `most_events(n)` steps and
/// merges for each slice.
pub proof fn lemma_slices_event_count(slices: Seq<(Line, QuarterTurn)>, tiles: Tiles, n: nat)
    requires
        forall|i: int| 0 <= i < slices.len() ==> (#[trigger] slices[i]).0.len() == n,
    ensures
        resolve_slices(slices, tiles) matches Ok(events) ==> events.len() <= slices.len()
            * most_events(n),
    decreases slices.len(),
{
    if slices.len() > 0 && resolve_slices(slices, tiles) is Ok {
        let before = slices.drop_last();
        assert forall|i: int| 0 <= i < before.len() implies (#[trigger] before[i]).0.len() == n by {
            assert(before[i] == slices[i]);
        }
        lemma_slices_event_count(before, tiles, n);
        assert(slices[slices.len() - 1].0.len() == n);
        lemma_line_event_count(slices.last().0, tiles, slices.last().1);
        assert((slices.len() - 1) * most_events(n) + most_events(n) == slices.len() * most_events(
            n,
        )) by (nonlinear_arith);
    }
}

/// A move resolves to at most six steps and merges in each of its four lines.
pub proof fn lemma_move_event_count(tiles: Tiles, input: PlayerInputEvent)
    ensures
        resolve_move(tiles, input) matches Ok(events) ==> events.len() <= GRID_WIDTH * 6,
{
    let turn = input.spec_turn();
    let slices = slices_of(layout_of(tiles), turn);
    assert forall|i: int| 0 <= i < slices.len() implies (#[trigger] slices[i]).0.len() == 4 by {
        assert(slices[i].0 == rotated(layout_of(tiles), turn)[i]);
    }
    lemma_slices_event_count(slices, tiles, 4);
    assert(most_events(4) == 6) by {
        reveal_with_fuel(most_events, 5);
    }
}

} // verus!
