//! A resolved move can be played: all its steps and merges can be applied to
//! the board it was resolved from, and they leave every line slid to its front.

use vstd::prelude::*;
use crate::board::{
    cell_of, cell_shows, empty_cells, empty_cells_in_order, layout_of, lemma_cells_in_order,
    lemma_moved_well_formed, live, moved, occupied, occupied_cells, rank_of, ranked, removed,
    stands_at, well_formed, TileBundle, Tiles,
};
use crate::calculate::{resolve_move, resolve_slice, resolve_slices, shift_events, slices_of, Line};
use crate::conservation::{lemma_move_conserves_tiles, merge_count};
use crate::error::ModelFault;
use crate::events::{PlayerInputEvent, TileMovementEvent};
use crate::game_state::GameState;
use crate::grid_array::rotated;
use crate::merge_once::lemma_board_slices_distinct;
use crate::movement::{
    apply_event, apply_events, lemma_apply_event_keeps, lemma_apply_events_add, merge_points,
};
use crate::position::Position;
use crate::quarter_turn::QuarterTurn;
use crate::resolves::{lemma_lines_on_board, lemma_move_resolves};
use crate::scoring::{lemma_points_add, lemma_steps_bring_no_points, points_of_merges};
use crate::seated::{
    cell, lemma_cell_injective, lemma_line_seated_on_board, lemma_off_stretch_kept,
    lemma_row_kept, lemma_row_seated_behind, lemma_seated_distinct, lemma_step_in_line,
    line_seated, off_stretch, others_kept, ranks_as_read, ranks_kept, row_seated, stay_in_line,
    stretch_seated,
};
use crate::session::SessionView;
use crate::slid::{
    lemma_events_shorten_line, lemma_slid_from_line, lemma_slid_gap_behind_tile,
    lemma_slid_gap_in_front, lemma_slid_single, lemma_slid_two_tiles, slid, slid_through,
};
use crate::spawn::spawn_tile_for;
use crate::tile::{Tile, TileId};

verus! {

/// A stretch of a line that has a free cell in front of it steps forward as
/// one: all its steps can be applied, every tile of it then stands one column
/// further to the front, the cell behind the stretch is free, and no other
/// tile has changed.
#[verifier::rlimit(40)]
pub proof fn lemma_shift_applies(
    tiles: Tiles,
    score: nat,
    turn: QuarterTurn,
    i: int,
    start: int,
    cells: Line,
)
    requires
        well_formed(tiles),
        0 <= i < turn.spec_width(),
        1 <= start,
        start + cells.len() <= turn.spec_height(),
        !occupied(tiles, cell(turn, i, start - 1)),
        stretch_seated(tiles, turn, i, start, cells),
    ensures
        ({
            let (after, points, fault) = apply_events(tiles, score, shift_events(cells, turn));
            &&& fault is None
            &&& points == score
            &&& well_formed(after)
            &&& others_kept(tiles, after, cells)
            &&& ranks_kept(tiles, after, cells)
            &&& stretch_seated(after, turn, i, start - 1, cells)
            &&& !occupied(after, cell(turn, i, start - 1 + cells.len()))
        }),
    decreases cells.len(),
{
    if cells.len() == 0 {
        return ;
    }
    let rest = cells.drop_first();
    let unit = turn.spec_downward_unit();
    let front = cell(turn, i, start - 1);
    let here = cell(turn, i, start);
    assert(cell_shows(tiles, cells[0], here));
    assert forall|m: int| 0 <= m < rest.len() implies cell_shows(
        tiles,
        #[trigger] rest[m],
        cell(turn, i, start + 1 + m),
    ) by {
        assert(cell_shows(tiles, cells[m + 1], cell(turn, i, start + (m + 1))));
    }
    match cells[0] {
        None => {
            lemma_shift_applies(tiles, score, turn, i, start + 1, rest);
            let (after, points, fault) = apply_events(tiles, score, shift_events(rest, turn));
            assert(others_kept(tiles, after, cells)) by {
                assert forall|k: int|
                    0 <= k < tiles.len() && !cells.contains(
                        Some(TileId(k as usize)),
                    ) implies #[trigger] after[k] == tiles[k] by {
                    if rest.contains(Some(TileId(k as usize))) {
                        let m = choose|m: int|
                            0 <= m < rest.len() && rest[m] == Some(TileId(k as usize));
                        assert(cells[m + 1] == Some(TileId(k as usize)));
                    }
                }
            }
            assert(ranks_kept(tiles, after, cells)) by {
                assert forall|m: int|
                    0 <= m < cells.len() && (#[trigger] cells[m]) is Some
                        implies after[cells[m].unwrap().0 as int]
                    is Some && rank_of(after, cells[m].unwrap())
                    == rank_of(tiles, cells[m].unwrap()) by {
                    assert(rest[m - 1] is Some);
                }
            }
            assert(!occupied(after, front)) by {
                if occupied(after, front) {
                    let k = choose|k: int| #[trigger] stands_at(after, k, front);
                    assert(stands_at(after, k, front));
                    if rest.contains(Some(TileId(k as usize))) {
                        let m = choose|m: int|
                            0 <= m < rest.len() && rest[m] == Some(TileId(k as usize));
                        assert(cell_shows(after, rest[m], cell(turn, i, start + m)));
                        lemma_cell_injective(turn, i, start + m, i, start - 1);
                    } else {
                        assert(after[k] == tiles[k]);
                        assert(stands_at(tiles, k, front));
                    }
                }
            }
            assert forall|m: int| 0 <= m < cells.len() implies cell_shows(
                after,
                #[trigger] cells[m],
                cell(turn, i, start - 1 + m),
            ) by {
                if m > 0 {
                    assert(cell_shows(after, rest[m - 1], cell(turn, i, start + (m - 1))));
                }
            }
        },
        Some(e) => {
            let step = TileMovementEvent::OneStep(e, turn);
            assert(stands_at(tiles, e.0 as int, here));
            lemma_step_in_line(turn, i, start);
            let next = moved(tiles, e, front);
            assert(apply_event(tiles, score, step) == Ok::<(Tiles, nat), ModelFault>(
                (next, score),
            ));
            lemma_moved_well_formed(tiles, e, front);
            assert(!occupied(next, here)) by {
                if occupied(next, here) {
                    let k = choose|k: int| #[trigger] stands_at(next, k, here);
                    assert(stands_at(next, k, here));
                    if k == e.0 {
                        lemma_cell_injective(turn, i, start, i, start - 1);
                    } else {
                        assert(next[k] == tiles[k]);
                        assert(tiles[k] is Some && tiles[e.0 as int] is Some);
                    }
                }
            }
            assert forall|m: int| 0 <= m < rest.len() implies cell_shows(
                next,
                #[trigger] rest[m],
                cell(turn, i, start + 1 + m),
            ) by {
                let p = cell(turn, i, start + 1 + m);
                assert(cell_shows(tiles, rest[m], p));
                match rest[m] {
                    Some(id) => {
                        if id == e {
                            lemma_cell_injective(turn, i, start + 1 + m, i, start);
                        }
                        assert(next[id.0 as int] == tiles[id.0 as int]);
                    },
                    None => {
                        if occupied(next, p) {
                            let k = choose|k: int| #[trigger] stands_at(next, k, p);
                            assert(stands_at(next, k, p));
                            if k == e.0 {
                                lemma_cell_injective(turn, i, start + 1 + m, i, start - 1);
                            } else {
                                assert(next[k] == tiles[k]);
                                assert(stands_at(tiles, k, p));
                            }
                        }
                    },
                }
            }
            lemma_shift_applies(next, score, turn, i, start + 1, rest);
            let events = shift_events(cells, turn);
            assert(events.drop_first() =~= shift_events(rest, turn));
            assert(events[0] == step);
            let (after, points, fault) = apply_events(next, score, shift_events(rest, turn));
            assert(apply_events(tiles, score, events) == (after, points, fault));
            assert(!rest.contains(Some(e))) by {
                if rest.contains(Some(e)) {
                    let m = choose|m: int| 0 <= m < rest.len() && rest[m] == Some(e);
                    assert(cell_shows(tiles, rest[m], cell(turn, i, start + 1 + m)));
                    lemma_cell_injective(turn, i, start + 1 + m, i, start);
                }
            }
            assert(after[e.0 as int] == next[e.0 as int]);
            assert(others_kept(tiles, after, cells)) by {
                assert forall|k: int|
                    0 <= k < tiles.len() && !cells.contains(
                        Some(TileId(k as usize)),
                    ) implies #[trigger] after[k] == tiles[k] by {
                    if rest.contains(Some(TileId(k as usize))) {
                        let m = choose|m: int|
                            0 <= m < rest.len() && rest[m] == Some(TileId(k as usize));
                        assert(cells[m + 1] == Some(TileId(k as usize)));
                    }
                    if k == e.0 {
                        assert(cells[0] == Some(TileId(k as usize)));
                    }
                    assert(after[k] == next[k]);
                }
            }
            assert(ranks_kept(tiles, after, cells)) by {
                assert forall|m: int|
                    0 <= m < cells.len() && (#[trigger] cells[m]) is Some
                        implies after[cells[m].unwrap().0 as int]
                    is Some && rank_of(after, cells[m].unwrap())
                    == rank_of(tiles, cells[m].unwrap()) by {
                    if m > 0 {
                        assert(rest[m - 1] is Some);
                        let id = rest[m - 1].unwrap();
                        assert(cell_shows(tiles, rest[m - 1], cell(turn, i, start + 1 + (m - 1))));
                        if id == e {
                            lemma_cell_injective(turn, i, start + m, i, start);
                        }
                        assert(next[id.0 as int] == tiles[id.0 as int]);
                    }
                }
            }
            assert forall|m: int| 0 <= m < cells.len() implies cell_shows(
                after,
                #[trigger] cells[m],
                cell(turn, i, start - 1 + m),
            ) by {
                if m > 0 {
                    assert(cell_shows(after, rest[m - 1], cell(turn, i, start + (m - 1))));
                } else {
                    assert(stands_at(next, e.0 as int, front));
                }
            }
        },
    }
}

/// What is asked of a line and a board for the events of the line to be applied.
pub open spec fn line_ready(
    read: Tiles,
    tiles: Tiles,
    score: nat,
    turn: QuarterTurn,
    i: int,
    base: int,
    line: Line,
) -> bool {
    &&& well_formed(tiles)
    &&& tiles.len() == read.len()
    &&& 0 <= i < turn.spec_width()
    &&& line_seated(tiles, turn, i, base, line)
    &&& ranks_as_read(read, tiles, line)
    &&& resolve_slice(line, read, turn) is Ok
}

/// The fault is one of exhaustion: a tile at the highest rank was to be
/// raised, or the score has no room for the points of the merges.
pub open spec fn exhausted(
    read: Tiles,
    score: nat,
    events: Seq<TileMovementEvent>,
    fault: ModelFault,
) -> bool {
    match fault {
        ModelFault::RankExhausted(id) => live(read, id) && rank_of(read, id).0 == u8::MAX,
        ModelFault::ScoreExhausted => score + points_of_merges(read, events) > usize::MAX,
        _ => false,
    }
}

/// What comes of the events of a line when they are applied. If a fault ends
/// the run, it is one of exhaustion. Otherwise the score has grown by the
/// points of the merges, the board is well-formed, no tile outside the line
/// has changed, the tiles of the line are still in the line, and the line
/// holds its tiles pushed together at its front.
pub open spec fn line_applied(
    read: Tiles,
    tiles: Tiles,
    score: nat,
    turn: QuarterTurn,
    i: int,
    base: int,
    line: Line,
) -> bool {
    let events = resolve_slice(line, read, turn).unwrap();
    let (after, points, fault) = apply_events(tiles, score, events);
    match fault {
        Some(fault) => exhausted(read, score, events, fault),
        None => {
            &&& points == score + points_of_merges(read, events)
            &&& well_formed(after)
            &&& others_kept(tiles, after, line)
            &&& stay_in_line(after, turn, i, line)
            &&& row_seated(after, turn, i, base, slid(line, read))
        },
    }
}

/// The events of a line can be applied to a board on which the line is
/// seated with the ranks that the resolver read: no step leaves the board or
/// meets a tile and no merge misses one, so that only exhaustion can end the run.
pub proof fn lemma_line_applies(
    read: Tiles,
    tiles: Tiles,
    score: nat,
    turn: QuarterTurn,
    i: int,
    base: int,
    line: Line,
)
    requires
        line_ready(read, tiles, score, turn, i, base, line),
    ensures
        line_applied(read, tiles, score, turn, i, base, line),
    decreases line.len(), 1int,
{
    if line.len() == 0 {
    } else if line[0] is None {
        lemma_gap_in_front_applies(read, tiles, score, turn, i, base, line);
    } else if line.len() == 1 {
        assert(cell_shows(tiles, line[0], cell(turn, i, base + 0)));
        lemma_slid_single(line, read);
        assert(slid(line, read)[0] == (line[0].unwrap(), rank_of(read, line[0].unwrap())));
    } else if line[1] is None {
        lemma_gap_behind_tile_applies(read, tiles, score, turn, i, base, line);
    } else {
        assert(line[0] is Some && line[1] is Some);
        let e0 = line[0].unwrap();
        let e1 = line[1].unwrap();
        if rank_of(read, e0) == rank_of(read, e1) {
            lemma_merge_applies(read, tiles, score, turn, i, base, line);
        } else {
            lemma_settled_tile_applies(read, tiles, score, turn, i, base, line);
        }
    }
}

/// The case of a gap at the front of the line.
#[verifier::rlimit(40)]
proof fn lemma_gap_in_front_applies(
    read: Tiles,
    tiles: Tiles,
    score: nat,
    turn: QuarterTurn,
    i: int,
    base: int,
    line: Line,
)
    requires
        line_ready(read, tiles, score, turn, i, base, line),
        line.len() > 0,
        line[0] is None,
    ensures
        line_applied(read, tiles, score, turn, i, base, line),
    decreases line.len(), 0int,
{
    let rest = line.drop_first();
    let steps = shift_events(rest, turn);
    let tail = resolve_slice(rest, read, turn).unwrap();
    let events = resolve_slice(line, read, turn).unwrap();
    assert(events == steps + tail);
    assert(cell_shows(tiles, line[0], cell(turn, i, base + 0)));
    assert(stretch_seated(tiles, turn, i, base + 1, rest)) by {
        assert forall|m: int| 0 <= m < rest.len() implies cell_shows(
            tiles,
            #[trigger] rest[m],
            cell(turn, i, base + 1 + m),
        ) by {
            assert(cell_shows(tiles, line[m + 1], cell(turn, i, base + (m + 1))));
        }
    }
    lemma_shift_applies(tiles, score, turn, i, base + 1, rest);
    let (mid, _, _) = apply_events(tiles, score, steps);
    lemma_steps_bring_no_points(read, rest, turn);
    lemma_points_add(read, steps, tail);
    assert(line_seated(mid, turn, i, base, rest)) by {
        assert forall|c: int| base + rest.len() <= c < turn.spec_height() implies !occupied(
            mid,
            #[trigger] cell(turn, i, c),
        ) by {
            if c > base + rest.len() {
                assert(!occupied(tiles, cell(turn, i, c)));
                assert(off_stretch(turn, i, base, base + 1 + rest.len(), cell(turn, i, c))) by {
                    assert forall|b: int| base <= b < base + 1 + rest.len() implies cell(
                        turn,
                        i,
                        c,
                    ) != #[trigger] cell(turn, i, b) by {
                        if cell(turn, i, c) == cell(turn, i, b) {
                            lemma_cell_injective(turn, i, c, i, b);
                        }
                    }
                }
                lemma_off_stretch_kept(tiles, mid, turn, i, base + 1, rest, cell(turn, i, c));
            }
        }
    }
    assert(ranks_as_read(read, mid, rest)) by {
        assert forall|m: int| 0 <= m < rest.len() && (#[trigger] rest[m]) is Some implies ({
            let k = rest[m].unwrap().0 as int;
            &&& live(read, rest[m].unwrap())
            &&& mid[k] is Some
            &&& mid[k].unwrap().tile == read[k].unwrap().tile
        }) by {
            assert(line[m + 1] is Some);
        }
    }
    lemma_line_applies(read, mid, score, turn, i, base, rest);
    lemma_apply_events_add(tiles, score, steps, tail);
    let (after, _, fault) = apply_events(mid, score, tail);
    if fault is Some {
        return ;
    }
    assert(others_kept(tiles, after, line)) by {
        assert forall|k: int|
            0 <= k < tiles.len() && !line.contains(
                Some(TileId(k as usize)),
            ) implies #[trigger] after[k] == tiles[k] by {
            if rest.contains(Some(TileId(k as usize))) {
                let m = choose|m: int| 0 <= m < rest.len() && rest[m] == Some(TileId(k as usize));
                assert(line[m + 1] == Some(TileId(k as usize)));
            }
            assert(after[k] == mid[k]);
        }
    }
    assert(stay_in_line(after, turn, i, line)) by {
        assert forall|m: int|
            0 <= m < line.len() && (#[trigger] line[m]) is Some && after[line[m].unwrap().0 as int]
                is Some implies exists|c: int|
            0 <= c < turn.spec_height() && cell_of(after, line[m].unwrap())
                == #[trigger] cell(turn, i, c) by {
            assert(rest[m - 1] is Some);
        }
    }
    lemma_slid_gap_in_front(line, read);
}

/// The case of a tile at the front with a gap behind it.
#[verifier::rlimit(40)]
proof fn lemma_gap_behind_tile_applies(
    read: Tiles,
    tiles: Tiles,
    score: nat,
    turn: QuarterTurn,
    i: int,
    base: int,
    line: Line,
)
    requires
        line_ready(read, tiles, score, turn, i, base, line),
        line.len() > 1,
        line[0] is Some,
        line[1] is None,
    ensures
        line_applied(read, tiles, score, turn, i, base, line),
    decreases line.len(), 0int,
{
    let e0 = line[0].unwrap();
    let rest = line.skip(2);
    let next = seq![line[0]] + rest;
    let steps = shift_events(rest, turn);
    let tail = resolve_slice(next, read, turn).unwrap();
    let events = resolve_slice(line, read, turn).unwrap();
    assert(events == steps + tail);
    assert(cell_shows(tiles, line[0], cell(turn, i, base + 0)));
    assert(cell_shows(tiles, line[1], cell(turn, i, base + 1)));
    assert(stretch_seated(tiles, turn, i, base + 2, rest)) by {
        assert forall|m: int| 0 <= m < rest.len() implies cell_shows(
            tiles,
            #[trigger] rest[m],
            cell(turn, i, base + 2 + m),
        ) by {
            assert(cell_shows(tiles, line[m + 2], cell(turn, i, base + (m + 2))));
        }
    }
    lemma_shift_applies(tiles, score, turn, i, base + 2, rest);
    let (mid, _, _) = apply_events(tiles, score, steps);
    lemma_steps_bring_no_points(read, rest, turn);
    lemma_points_add(read, steps, tail);
    assert(!rest.contains(Some(e0))) by {
        if rest.contains(Some(e0)) {
            let m = choose|m: int| 0 <= m < rest.len() && rest[m] == Some(e0);
            lemma_seated_distinct(tiles, turn, i, base, line, 0, m + 2);
        }
    }
    assert(mid[e0.0 as int] == tiles[e0.0 as int]);
    assert(line_seated(mid, turn, i, base, next)) by {
        assert forall|m: int| 0 <= m < next.len() implies cell_shows(
            mid,
            #[trigger] next[m],
            cell(turn, i, base + m),
        ) by {
            if m == 0 {
                assert(stands_at(mid, e0.0 as int, cell(turn, i, base)));
            } else {
                assert(cell_shows(mid, rest[m - 1], cell(turn, i, base + 1 + (m - 1))));
            }
        }
        assert forall|c: int| base + next.len() <= c < turn.spec_height() implies !occupied(
            mid,
            #[trigger] cell(turn, i, c),
        ) by {
            if c > base + next.len() {
                assert(!occupied(tiles, cell(turn, i, c)));
                assert(off_stretch(turn, i, base + 1, base + 2 + rest.len(), cell(turn, i, c))) by {
                    assert forall|b: int| base + 1 <= b < base + 2 + rest.len() implies cell(
                        turn,
                        i,
                        c,
                    ) != #[trigger] cell(turn, i, b) by {
                        if cell(turn, i, c) == cell(turn, i, b) {
                            lemma_cell_injective(turn, i, c, i, b);
                        }
                    }
                }
                lemma_off_stretch_kept(tiles, mid, turn, i, base + 2, rest, cell(turn, i, c));
            }
        }
    }
    assert(ranks_as_read(read, mid, next)) by {
        assert forall|m: int| 0 <= m < next.len() && (#[trigger] next[m]) is Some implies ({
            let k = next[m].unwrap().0 as int;
            &&& live(read, next[m].unwrap())
            &&& mid[k] is Some
            &&& mid[k].unwrap().tile == read[k].unwrap().tile
        }) by {
            if m == 0 {
                assert(line[0] is Some);
            } else {
                assert(rest[m - 1] is Some);
                assert(line[m + 1] is Some);
            }
        }
    }
    lemma_line_applies(read, mid, score, turn, i, base, next);
    lemma_apply_events_add(tiles, score, steps, tail);
    let (after, _, fault) = apply_events(mid, score, tail);
    if fault is Some {
        return ;
    }
    assert(others_kept(tiles, after, line)) by {
        assert forall|k: int|
            0 <= k < tiles.len() && !line.contains(
                Some(TileId(k as usize)),
            ) implies #[trigger] after[k] == tiles[k] by {
            if next.contains(Some(TileId(k as usize))) {
                let m = choose|m: int| 0 <= m < next.len() && next[m] == Some(TileId(k as usize));
                if m == 0 {
                    assert(line[0] == Some(TileId(k as usize)));
                } else {
                    assert(line[m + 1] == Some(TileId(k as usize)));
                }
            }
            if rest.contains(Some(TileId(k as usize))) {
                let m = choose|m: int| 0 <= m < rest.len() && rest[m] == Some(TileId(k as usize));
                assert(line[m + 2] == Some(TileId(k as usize)));
            }
            assert(after[k] == mid[k]);
        }
    }
    assert(stay_in_line(after, turn, i, line)) by {
        assert forall|m: int|
            0 <= m < line.len() && (#[trigger] line[m]) is Some && after[line[m].unwrap().0 as int]
                is Some implies exists|c: int|
            0 <= c < turn.spec_height() && cell_of(after, line[m].unwrap())
                == #[trigger] cell(turn, i, c) by {
            if m == 0 {
                assert(next[0] is Some);
            } else {
                assert(next[m - 1] is Some);
            }
        }
    }
    lemma_slid_gap_behind_tile(line, read);
}

/// The case of two tiles of different rank at the front of the line.
#[verifier::rlimit(40)]
proof fn lemma_settled_tile_applies(
    read: Tiles,
    tiles: Tiles,
    score: nat,
    turn: QuarterTurn,
    i: int,
    base: int,
    line: Line,
)
    requires
        line_ready(read, tiles, score, turn, i, base, line),
        line.len() > 1,
        line[0] is Some,
        line[1] is Some,
        rank_of(read, line[0].unwrap()) != rank_of(read, line[1].unwrap()),
    ensures
        line_applied(read, tiles, score, turn, i, base, line),
    decreases line.len(), 0int,
{
    let e0 = line[0].unwrap();
    let rest = line.drop_first();
    assert(live(read, line[0].unwrap()) && live(read, line[1].unwrap()));
    let events = resolve_slice(line, read, turn).unwrap();
    assert(events == resolve_slice(rest, read, turn).unwrap());
    assert(cell_shows(tiles, line[0], cell(turn, i, base + 0)));
    assert(line_seated(tiles, turn, i, base + 1, rest)) by {
        assert forall|m: int| 0 <= m < rest.len() implies cell_shows(
            tiles,
            #[trigger] rest[m],
            cell(turn, i, base + 1 + m),
        ) by {
            assert(cell_shows(tiles, line[m + 1], cell(turn, i, base + (m + 1))));
        }
    }
    assert(ranks_as_read(read, tiles, rest)) by {
        assert forall|m: int| 0 <= m < rest.len() && (#[trigger] rest[m]) is Some implies ({
            let k = rest[m].unwrap().0 as int;
            &&& live(read, rest[m].unwrap())
            &&& tiles[k] is Some
            &&& tiles[k].unwrap().tile == read[k].unwrap().tile
        }) by {
            assert(line[m + 1] is Some);
        }
    }
    lemma_line_applies(read, tiles, score, turn, i, base + 1, rest);
    let (after, _, fault) = apply_events(tiles, score, events);
    if fault is Some {
        return ;
    }
    assert(!rest.contains(Some(e0))) by {
        if rest.contains(Some(e0)) {
            let m = choose|m: int| 0 <= m < rest.len() && rest[m] == Some(e0);
            lemma_seated_distinct(tiles, turn, i, base, line, 0, m + 1);
        }
    }
    assert(after[e0.0 as int] == tiles[e0.0 as int]);
    assert(others_kept(tiles, after, line)) by {
        assert forall|k: int|
            0 <= k < tiles.len() && !line.contains(
                Some(TileId(k as usize)),
            ) implies #[trigger] after[k] == tiles[k] by {
            if rest.contains(Some(TileId(k as usize))) {
                let m = choose|m: int| 0 <= m < rest.len() && rest[m] == Some(TileId(k as usize));
                assert(line[m + 1] == Some(TileId(k as usize)));
            }
        }
    }
    assert(stay_in_line(after, turn, i, line)) by {
        assert forall|m: int|
            0 <= m < line.len() && (#[trigger] line[m]) is Some && after[line[m].unwrap().0 as int]
                is Some implies exists|c: int|
            0 <= c < turn.spec_height() && cell_of(after, line[m].unwrap())
                == #[trigger] cell(turn, i, c) by {
            if m == 0 {
                assert(cell_of(after, e0) == cell(turn, i, base));
            } else {
                assert(rest[m - 1] is Some);
            }
        }
    }
    lemma_slid_two_tiles(line, read);
    lemma_row_seated_behind(
        after,
        turn,
        i,
        base,
        (e0, rank_of(read, e0)),
        slid(rest, read),
    );
}

/// The case of two tiles of the same rank at the front of the line.
#[verifier::rlimit(40)]
proof fn lemma_merge_applies(
    read: Tiles,
    tiles: Tiles,
    score: nat,
    turn: QuarterTurn,
    i: int,
    base: int,
    line: Line,
)
    requires
        line_ready(read, tiles, score, turn, i, base, line),
        line.len() > 1,
        line[0] is Some,
        line[1] is Some,
        rank_of(read, line[0].unwrap()) == rank_of(read, line[1].unwrap()),
    ensures
        line_applied(read, tiles, score, turn, i, base, line),
    decreases line.len(), 0int,
{
    let e0 = line[0].unwrap();
    let e1 = line[1].unwrap();
    let rest = line.skip(2);
    let merge = TileMovementEvent::Merge(e0, e1, turn);
    let steps = shift_events(rest, turn);
    let tail = resolve_slice(rest, read, turn).unwrap();
    let head = seq![merge] + steps;
    let events = resolve_slice(line, read, turn).unwrap();
    assert(live(read, line[0].unwrap()) && live(read, line[1].unwrap()));
    assert(events == head + tail);
    let here = cell(turn, i, base);
    let behind = cell(turn, i, base + 1);
    assert(cell_shows(tiles, line[0], cell(turn, i, base + 0)));
    assert(cell_shows(tiles, line[1], cell(turn, i, base + 1)));
    lemma_seated_distinct(tiles, turn, i, base, line, 0, 1);
    let tile = rank_of(tiles, e0);
    let points = merge_points(tile);
    assert(head[0] == merge);
    assert(head.drop_first() =~= steps);
    lemma_points_add(read, head, tail);
    lemma_steps_bring_no_points(read, rest, turn);
    assert(points_of_merges(read, head) == points);
    assert(events[0] == merge);
    if tile.0 == u8::MAX {
        assert(apply_event(tiles, score, merge) == Err::<(Tiles, nat), ModelFault>(
            ModelFault::RankExhausted(e0),
        ));
        return ;
    }
    if score + points > usize::MAX {
        assert(apply_event(tiles, score, merge) == Err::<(Tiles, nat), ModelFault>(
            ModelFault::ScoreExhausted,
        ));
        return ;
    }
    let raised = ranked(tiles, e0, Tile((tile.0 + 1) as u8));
    let m1 = removed(raised, e1);
    let s1 = score + points;
    assert(apply_event(tiles, score, merge) == Ok::<(Tiles, nat), ModelFault>((m1, s1)));
    lemma_apply_event_keeps(tiles, score, merge);
    assert forall|k: int, p: Position| stands_at(m1, k, p) implies stands_at(tiles, k, p) by {
        if k != e0.0 && k != e1.0 {
            assert(m1[k] == tiles[k]);
        }
    }
    assert forall|p: Position| occupied(m1, p) implies occupied(tiles, p) by {
        let k = choose|k: int| #[trigger] stands_at(m1, k, p);
        assert(stands_at(tiles, k, p));
    }
    assert(!occupied(m1, behind)) by {
        if occupied(m1, behind) {
            let k = choose|k: int| #[trigger] stands_at(m1, k, behind);
            assert(stands_at(tiles, k, behind));
            assert(tiles[k] is Some && tiles[e1.0 as int] is Some);
            assert(k == e1.0);
        }
    }
    assert forall|m: int| 0 <= m < rest.len() && (#[trigger] rest[m]) is Some implies rest[m]
        != Some(e0) && rest[m] != Some(e1) && m1[rest[m].unwrap().0 as int]
        == tiles[rest[m].unwrap().0 as int] by {
        assert(line[m + 2] is Some);
        lemma_seated_distinct(tiles, turn, i, base, line, m + 2, 0);
        lemma_seated_distinct(tiles, turn, i, base, line, m + 2, 1);
        assert(cell_shows(tiles, line[m + 2], cell(turn, i, base + (m + 2))));
    }
    assert(stretch_seated(m1, turn, i, base + 2, rest)) by {
        assert forall|m: int| 0 <= m < rest.len() implies cell_shows(
            m1,
            #[trigger] rest[m],
            cell(turn, i, base + 2 + m),
        ) by {
            assert(cell_shows(tiles, line[m + 2], cell(turn, i, base + (m + 2))));
        }
    }
    lemma_shift_applies(m1, s1, turn, i, base + 2, rest);
    let (m2, _, _) = apply_events(m1, s1, steps);
    assert(apply_events(tiles, score, head) == apply_events(m1, s1, steps));
    assert(line_seated(m2, turn, i, base + 1, rest)) by {
        assert forall|c: int| base + 1 + rest.len() <= c < turn.spec_height() implies !occupied(
            m2,
            #[trigger] cell(turn, i, c),
        ) by {
            if c > base + 1 + rest.len() {
                assert(!occupied(tiles, cell(turn, i, c)));
                assert(!occupied(m1, cell(turn, i, c)));
                assert(off_stretch(turn, i, base + 1, base + 2 + rest.len(), cell(turn, i, c))) by {
                    assert forall|b: int| base + 1 <= b < base + 2 + rest.len() implies cell(
                        turn,
                        i,
                        c,
                    ) != #[trigger] cell(turn, i, b) by {
                        if cell(turn, i, c) == cell(turn, i, b) {
                            lemma_cell_injective(turn, i, c, i, b);
                        }
                    }
                }
                lemma_off_stretch_kept(m1, m2, turn, i, base + 2, rest, cell(turn, i, c));
            }
        }
    }
    assert(ranks_as_read(read, m2, rest)) by {
        assert forall|m: int| 0 <= m < rest.len() && (#[trigger] rest[m]) is Some implies ({
            let k = rest[m].unwrap().0 as int;
            &&& live(read, rest[m].unwrap())
            &&& m2[k] is Some
            &&& m2[k].unwrap().tile == read[k].unwrap().tile
        }) by {
            assert(line[m + 2] is Some);
        }
    }
    lemma_line_applies(read, m2, s1, turn, i, base + 1, rest);
    lemma_apply_events_add(tiles, score, head, tail);
    let (after, _, fault) = apply_events(m2, s1, tail);
    if fault is Some {
        return ;
    }
    assert(!rest.contains(Some(e0)) && !rest.contains(Some(e1))) by {
        if rest.contains(Some(e0)) {
            let m = choose|m: int| 0 <= m < rest.len() && rest[m] == Some(e0);
            assert(rest[m] is Some);
        }
        if rest.contains(Some(e1)) {
            let m = choose|m: int| 0 <= m < rest.len() && rest[m] == Some(e1);
            assert(rest[m] is Some);
        }
    }
    assert(after[e0.0 as int] == m2[e0.0 as int]);
    assert(m2[e0.0 as int] == m1[e0.0 as int]);
    assert(after[e1.0 as int] == m2[e1.0 as int]);
    assert(m2[e1.0 as int] == m1[e1.0 as int]);
    assert(others_kept(tiles, after, line)) by {
        assert forall|k: int|
            0 <= k < tiles.len() && !line.contains(
                Some(TileId(k as usize)),
            ) implies #[trigger] after[k] == tiles[k] by {
            if rest.contains(Some(TileId(k as usize))) {
                let m = choose|m: int| 0 <= m < rest.len() && rest[m] == Some(TileId(k as usize));
                assert(line[m + 2] == Some(TileId(k as usize)));
            }
            if k == e0.0 {
                assert(line[0] == Some(TileId(k as usize)));
            }
            if k == e1.0 {
                assert(line[1] == Some(TileId(k as usize)));
            }
            assert(after[k] == m2[k]);
            assert(m2[k] == m1[k]);
            assert(m1[k] == tiles[k]);
        }
    }
    assert(stay_in_line(after, turn, i, line)) by {
        assert forall|m: int|
            0 <= m < line.len() && (#[trigger] line[m]) is Some && after[line[m].unwrap().0 as int]
                is Some implies exists|c: int|
            0 <= c < turn.spec_height() && cell_of(after, line[m].unwrap())
                == #[trigger] cell(turn, i, c) by {
            if m == 0 {
                assert(cell_of(after, e0) == cell(turn, i, base));
            } else if m == 1 {
                assert(after[e1.0 as int] is None);
            } else {
                assert(rest[m - 2] is Some);
            }
        }
    }
    lemma_slid_two_tiles(line, read);
    lemma_row_seated_behind(
        after,
        turn,
        i,
        base,
        (e0, Tile((rank_of(read, e0).0 + 1) as u8)),
        slid(rest, read),
    );
}

/// The tile `id` stands in one of the first `n` of `lines`.
pub open spec fn in_lines_before(lines: Seq<Line>, n: int, id: TileId) -> bool {
    exists|k: int| 0 <= k < n && #[trigger] lines[k].contains(Some(id))
}

/// What the events of the first `n` lines of a move leave behind: a
/// well-formed board on which the tiles of the other lines are what they were
/// on the board that was read, and each of those first lines holds its own
/// tiles, pushed together at its front.
pub open spec fn lines_applied(read: Tiles, tiles: Tiles, turn: QuarterTurn, n: int) -> bool {
    let lines = rotated(layout_of(read), turn);
    &&& well_formed(tiles)
    &&& tiles.len() == read.len()
    &&& forall|j: int|
        0 <= j < read.len() && !in_lines_before(lines, n, TileId(j as usize))
            ==> #[trigger] tiles[j]
            == read[j]
    &&& forall|k: int| 0 <= k < n ==> stay_in_line(tiles, turn, k, #[trigger] lines[k])
    &&& forall|k: int|
        0 <= k < n ==> row_seated(tiles, turn, k, 0, slid(#[trigger] lines[k], read))
}

/// Every tile on the board has a rank that can be raised.
pub open spec fn ranks_can_rise(tiles: Tiles) -> bool {
    forall|j: int|
        0 <= j < tiles.len() && (#[trigger] tiles[j]) is Some ==> tiles[j].unwrap().tile.0 < u8::MAX
}

/// The points of the first slices of a move are no more than the points of
/// all of them, and grow with every slice by the points of that slice.
pub proof fn lemma_points_of_slices(slices: Seq<(Line, QuarterTurn)>, tiles: Tiles, n: int)
    requires
        0 <= n <= slices.len(),
        resolve_slices(slices, tiles) is Ok,
    ensures
        resolve_slices(slices.take(n), tiles) is Ok,
        points_of_merges(tiles, resolve_slices(slices.take(n), tiles).unwrap())
            <= points_of_merges(tiles, resolve_slices(slices, tiles).unwrap()),
        n > 0 ==> resolve_slice(slices[n - 1].0, tiles, slices[n - 1].1) is Ok
            && resolve_slices(slices.take(n - 1), tiles) is Ok && resolve_slices(
            slices.take(n),
            tiles,
        ).unwrap() == resolve_slices(slices.take(n - 1), tiles).unwrap() + resolve_slice(
            slices[n - 1].0,
            tiles,
            slices[n - 1].1,
        ).unwrap(),
    decreases slices.len() - n,
{
    if n == slices.len() {
        assert(slices.take(n) =~= slices);
    } else {
        lemma_points_of_slices(slices, tiles, n + 1);
        assert(slices.take(n + 1).drop_last() =~= slices.take(n));
        assert(slices.take(n + 1).last() == slices[n]);
        lemma_points_add(
            tiles,
            resolve_slices(slices.take(n), tiles).unwrap(),
            resolve_slice(slices[n].0, tiles, slices[n].1).unwrap(),
        );
    }
    if n > 0 {
        assert(slices.take(n).drop_last() =~= slices.take(n - 1));
        assert(slices.take(n).last() == slices[n - 1]);
    }
}

/// The events of the first `n` lines of a move can be applied to the board
/// from which the move was resolved: only exhaustion can end the run.
#[verifier::rlimit(40)]
pub proof fn lemma_lines_apply(read: Tiles, score: nat, turn: QuarterTurn, n: int)
    requires
        well_formed(read),
        0 <= n <= turn.spec_width(),
        resolve_slices(slices_of(layout_of(read), turn), read) is Ok,
    ensures
        resolve_slices(slices_of(layout_of(read), turn).take(n), read) is Ok,
        ({
            let events = resolve_slices(slices_of(layout_of(read), turn).take(n), read).unwrap();
            let (after, points, fault) = apply_events(read, score, events);
            match fault {
                Some(fault) => exhausted(read, score, events, fault),
                None => points == score + points_of_merges(read, events) && lines_applied(
                    read,
                    after,
                    turn,
                    n,
                ),
            }
        }),
    decreases n,
{
    let lines = rotated(layout_of(read), turn);
    let slices = slices_of(layout_of(read), turn);
    lemma_points_of_slices(slices, read, n);
    if n == 0 {
        assert(slices.take(0) =~= Seq::<(Line, QuarterTurn)>::empty());
        return ;
    }
    let k = n - 1;
    lemma_lines_apply(read, score, turn, k);
    let before = resolve_slices(slices.take(k), read).unwrap();
    let line = lines[k];
    assert(slices[k] == (line, turn));
    let here = resolve_slice(line, read, turn).unwrap();
    let events = resolve_slices(slices.take(n), read).unwrap();
    assert(events == before + here);
    let (tiles, points, fault_before) = apply_events(read, score, before);
    lemma_points_add(read, before, here);
    lemma_apply_events_add(read, score, before, here);
    if fault_before is Some {
        return ;
    }
    lemma_board_slices_distinct(read, turn);
    assert forall|m: int|
        0 <= m < line.len() && (#[trigger] line[m]) is Some implies !in_lines_before(
        lines,
        k,
        line[m].unwrap(),
    ) by {
        if in_lines_before(lines, k, line[m].unwrap()) {
            let j = choose|j: int|
                0 <= j < k && #[trigger] lines[j].contains(Some(line[m].unwrap()));
            assert(slices[j].0 == lines[j]);
            assert(slices[j].0.contains(Some(line[m].unwrap())));
            assert(slices[k].0.contains(Some(line[m].unwrap())));
        }
    }
    lemma_line_seated_on_board(read, turn, k);
    lemma_lines_on_board(read, turn, k);
    assert(stretch_seated(tiles, turn, k, 0, line)) by {
        assert forall|m: int| 0 <= m < line.len() implies cell_shows(
            tiles,
            #[trigger] line[m],
            cell(turn, k, 0 + m),
        ) by {
            let p = cell(turn, k, 0 + m);
            assert(cell_shows(read, line[m], p));
            match line[m] {
                Some(id) => {
                    assert(!in_lines_before(lines, k, id));
                    assert(tiles[id.0 as int] == read[id.0 as int]);
                },
                None => {
                    if occupied(tiles, p) {
                        let j = choose|j: int| #[trigger] stands_at(tiles, j, p);
                        assert(stands_at(tiles, j, p));
                        if in_lines_before(lines, k, TileId(j as usize)) {
                            let b = choose|b: int|
                                0 <= b < k && #[trigger] lines[b].contains(
                                    Some(TileId(j as usize)),
                                );
                            let a = choose|a: int|
                                0 <= a < lines[b].len() && lines[b][a] == Some(TileId(j as usize));
                            assert(stay_in_line(tiles, turn, b, lines[b]));
                            assert(lines[b][a] is Some);
                            let c = choose|c: int|
                                0 <= c < turn.spec_height() && tiles[j].unwrap().position
                                    == #[trigger] cell(turn, b, c);
                            lemma_cell_injective(turn, b, c, k, m);
                        } else {
                            assert(tiles[j] == read[j]);
                            assert(stands_at(read, j, p));
                        }
                    }
                },
            }
        }
    }
    assert(ranks_as_read(read, tiles, line)) by {
        assert forall|m: int| 0 <= m < line.len() && (#[trigger] line[m]) is Some implies ({
            let j = line[m].unwrap().0 as int;
            &&& live(read, line[m].unwrap())
            &&& tiles[j] is Some
            &&& tiles[j].unwrap().tile == read[j].unwrap().tile
        }) by {
            let j = line[m].unwrap().0 as int;
            assert(!in_lines_before(lines, k, line[m].unwrap()));
            assert(tiles[j] == read[j]);
        }
    }
    lemma_line_applies(read, tiles, points, turn, k, 0, line);
    let (after, _, fault) = apply_events(tiles, points, here);
    if fault is Some {
        return ;
    }
    assert(lines_applied(read, after, turn, n)) by {
        assert forall|j: int|
            0 <= j < read.len() && !in_lines_before(
                lines,
                n,
                TileId(j as usize),
            ) implies #[trigger] after[j] == read[j] by {
            let id = TileId(j as usize);
            if in_lines_before(lines, k, id) {
                let b = choose|b: int| 0 <= b < k && #[trigger] lines[b].contains(Some(id));
                assert(lines[b].contains(Some(id)));
            }
            if line.contains(Some(id)) {
                assert(lines[k].contains(Some(id)));
            }
            assert(after[j] == tiles[j]);
            assert(tiles[j] == read[j]);
        }
        assert forall|b: int| 0 <= b < n implies stay_in_line(
            after,
            turn,
            b,
            #[trigger] lines[b],
        ) by {
            if b < k {
                assert(stay_in_line(tiles, turn, b, lines[b]));
                assert forall|m: int|
                    0 <= m < lines[b].len() && (#[trigger] lines[b][m]) is Some
                        && after[lines[b][m].unwrap().0 as int] is Some implies exists|c: int|
                    0 <= c < turn.spec_height()
                        && cell_of(after, lines[b][m].unwrap())
                        == #[trigger] cell(turn, b, c) by {
                    let id = lines[b][m].unwrap();
                    lemma_lines_on_board(read, turn, b);
                    assert(live(read, id));
                    if line.contains(Some(id)) {
                        assert(slices[b].0 == lines[b]);
                        assert(slices[b].0.contains(Some(id)));
                        assert(slices[k].0.contains(Some(id)));
                    }
                    assert(after[id.0 as int] == tiles[id.0 as int]);
                }
            }
        }
        assert forall|b: int| 0 <= b < n implies row_seated(
            after,
            turn,
            b,
            0,
            slid(#[trigger] lines[b], read),
        ) by {
            if b < k {
                let row = slid(lines[b], read);
                lemma_slid_from_line(lines[b], read);
                assert forall|m: int| 0 <= m < row.len() implies !line.contains(
                    Some((#[trigger] row[m]).0),
                ) by {
                    assert(lines[b].contains(Some(row[m].0)));
                    assert(slices[b].0 == lines[b]);
                    if line.contains(Some(row[m].0)) {
                        assert(slices[b].0.contains(Some(row[m].0)));
                        assert(slices[k].0.contains(Some(row[m].0)));
                    }
                }
                assert(row_seated(tiles, turn, b, 0, slid(lines[b], read)));
                lemma_row_kept(tiles, after, turn, b, row, k, line);
            }
        }
    }
}

/// Where slices resolve to any step or merge, one of them does.
pub proof fn lemma_some_slice_has_events(slices: Seq<(Line, QuarterTurn)>, tiles: Tiles) -> (k: int)
    requires
        resolve_slices(slices, tiles) is Ok,
        resolve_slices(slices, tiles).unwrap().len() > 0,
    ensures
        0 <= k < slices.len(),
        resolve_slice(slices[k].0, tiles, slices[k].1) is Ok,
        resolve_slice(slices[k].0, tiles, slices[k].1).unwrap().len() > 0,
    decreases slices.len(),
{
    let before = slices.drop_last();
    if resolve_slices(before, tiles).unwrap().len() > 0 {
        let k = lemma_some_slice_has_events(before, tiles);
        assert(before[k] == slices[k]);
        k
    } else {
        slices.len() - 1
    }
}

/// **A resolved move can be played.** On a well-formed board whose ranks can
/// still rise, and with room in the score for the points of its merges, every
/// step and merge of a resolved move can be applied: no step leaves the board
/// or meets a tile, and no merge misses one. The board stays well-formed, the
/// score grows by exactly the points of the merges, and every line then holds
/// its tiles at its front, without gaps and pushed together.
pub proof fn lemma_resolved_move_applies(tiles: Tiles, score: nat, input: PlayerInputEvent)
    requires
        well_formed(tiles),
        ranks_can_rise(tiles),
        resolve_move(tiles, input) matches Ok(events) ==> score + points_of_merges(tiles, events)
            <= usize::MAX,
    ensures
        resolve_move(tiles, input) is Ok,
        ({
            let events = resolve_move(tiles, input).unwrap();
            let (after, points, fault) = apply_events(tiles, score, events);
            &&& fault is None
            &&& well_formed(after)
            &&& points == score + points_of_merges(tiles, events)
            &&& slid_through(tiles, after, input.spec_turn())
        }),
{
    lemma_resolved_move_plays(tiles, score, input);
}

/// **No step or merge of a resolved move goes wrong.** On a well-formed
/// board, the steps and merges of a resolved move are applied up to the first
/// merge that would raise a tile of the highest rank or bring more points
/// than the score has room for; no other fault arises. Where there is no such
/// merge, all of them are applied: the board stays well-formed, the score
/// grows by exactly the points of the merges, and every line then holds its
/// tiles at its front, without gaps and pushed together.
pub proof fn lemma_resolved_move_plays(tiles: Tiles, score: nat, input: PlayerInputEvent)
    requires
        well_formed(tiles),
    ensures
        resolve_move(tiles, input) is Ok,
        ({
            let events = resolve_move(tiles, input).unwrap();
            let (after, points, fault) = apply_events(tiles, score, events);
            match fault {
                Some(fault) => exhausted(tiles, score, events, fault),
                None => {
                    &&& well_formed(after)
                    &&& points == score + points_of_merges(tiles, events)
                    &&& slid_through(tiles, after, input.spec_turn())
                },
            }
        }),
{
    let turn = input.spec_turn();
    let slices = slices_of(layout_of(tiles), turn);
    lemma_move_resolves(tiles, input);
    lemma_lines_apply(tiles, score, turn, turn.spec_width() as int);
    assert(slices.take(turn.spec_width() as int) =~= slices);
}

/// A move that changes the board leaves an empty cell on it: the tile that
/// closes the turn always finds its place.
pub proof fn lemma_changing_move_leaves_room(tiles: Tiles, score: nat, input: PlayerInputEvent)
    requires
        well_formed(tiles),
    ensures
        resolve_move(tiles, input) is Ok,
        ({
            let events = resolve_move(tiles, input).unwrap();
            let (after, _, fault) = apply_events(tiles, score, events);
            fault is None && events.len() > 0 ==> empty_cells_in_order(after).len() > 0
        }),
{
    lemma_resolved_move_plays(tiles, score, input);
    let turn = input.spec_turn();
    let events = resolve_move(tiles, input).unwrap();
    let (after, _, fault) = apply_events(tiles, score, events);
    if fault is None && events.len() > 0 {
        let slices = slices_of(layout_of(tiles), turn);
        let lines = rotated(layout_of(tiles), turn);
        let k = lemma_some_slice_has_events(slices, tiles);
        assert(slices[k] == (lines[k], turn));
        lemma_events_shorten_line(lines[k], tiles, turn);
        assert(row_seated(after, turn, k, 0, slid(lines[k], tiles)));
        let last = turn.spec_height() - 1;
        let p = cell(turn, k, last);
        assert(!occupied(after, p));
        turn.lemma_source_in_grid(k, last);
        lemma_cells_in_order(after);
        assert(empty_cells(after).contains(p));
        assert(empty_cells_in_order(after).to_set().contains(p));
    }
}

/// A resolved move that is played takes exactly as many tiles off the board
/// as it has merges, and brings none onto it: the number of occupied cells
/// goes down by the number of merges.
pub proof fn lemma_resolved_move_conserves_tiles(
    tiles: Tiles,
    score: nat,
    input: PlayerInputEvent,
)
    requires
        well_formed(tiles),
        ranks_can_rise(tiles),
        resolve_move(tiles, input) matches Ok(events) ==> score + points_of_merges(tiles, events)
            <= usize::MAX,
    ensures
        resolve_move(tiles, input) is Ok,
        ({
            let events = resolve_move(tiles, input).unwrap();
            let (after, _, fault) = apply_events(tiles, score, events);
            &&& fault is None
            &&& occupied_cells(tiles).finite()
            &&& occupied_cells(after).finite()
            &&& occupied_cells(after).len() + merge_count(events) == occupied_cells(tiles).len()
        }),
{
    lemma_resolved_move_applies(tiles, score, input);
    lemma_move_conserves_tiles(tiles, score, resolve_move(tiles, input).unwrap());
}

/// A turn plays through. From a session that waits for input, on a
/// well-formed board whose ranks can still rise and with room in the score,
/// the move is resolved and applied without a fault, the score grows by the
/// points of the merges, a move that has changed the board brings exactly
/// one new tile and a move that has not brings none, and the turn closes
/// either waiting for input again or with the session over.
pub proof fn lemma_turn_plays_through(
    session: SessionView,
    input: PlayerInputEvent,
    cell_bits: u64,
    tile_bits: u32,
)
    requires
        session.state == GameState::Input,
        well_formed(session.tiles),
        ranks_can_rise(session.tiles),
        resolve_move(session.tiles, input) matches Ok(events) ==> session.score
            + points_of_merges(session.tiles, events) <= usize::MAX,
    ensures
        resolve_move(session.tiles, input) is Ok,
        ({
            let events = resolve_move(session.tiles, input).unwrap();
            let asked = session.after_input(input);
            let (resolved, fault_resolving) = asked.after_calculate();
            let (applied, fault_applying) = resolved.after_movement();
            let closed = applied.after_spawn(cell_bits, tile_bits);
            &&& asked.state == GameState::Calculate
            &&& fault_resolving is None
            &&& resolved.state == GameState::Movement
            &&& resolved.movements == events
            &&& fault_applying is None
            &&& applied.state == GameState::Spawn
            &&& applied.score == session.score + points_of_merges(session.tiles, events)
            &&& well_formed(applied.tiles)
            &&& applied.moved == (events.len() > 0)
            &&& closed.score == applied.score
            &&& closed.tiles == if events.len() > 0 {
                applied.tiles.push(
                    Some(
                        TileBundle {
                            tile: spawn_tile_for(tile_bits),
                            position: empty_cells_in_order(applied.tiles)[cell_bits as int
                                % empty_cells_in_order(applied.tiles).len() as int],
                        },
                    ),
                )
            } else {
                session.tiles
            }
            &&& closed.state == GameState::Input || closed.state == GameState::GameOver
        }),
{
    lemma_resolved_move_applies(session.tiles, session.score, input);
    lemma_changing_move_leaves_room(session.tiles, session.score, input);
}

} // verus!
