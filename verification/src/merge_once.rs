use vstd::prelude::*;
use crate::board::{layout_of, rank_of, stands_at, tile_on, Tiles};
use crate::calculate::{
    resolve_move, resolve_slice, resolve_slices, shift_events, slices_of, Line,
};
use crate::events::{PlayerInputEvent, TileMovementEvent};
use crate::grid_array::rotated;
use crate::position::Position;
use crate::quarter_turn::QuarterTurn;
use crate::tile::TileId;

verus! {

/// `event` is a merge, and `id` is one of its two tiles.
pub open spec fn merges(event: TileMovementEvent, id: TileId) -> bool {
    match event {
        TileMovementEvent::Merge(survivor, absorbed, _) => survivor == id || absorbed == id,
        TileMovementEvent::OneStep(_, _) => false,
    }
}

/// `event` is a step or a merge of the tile `id`.
pub open spec fn names(event: TileMovementEvent, id: TileId) -> bool {
    match event {
        TileMovementEvent::Merge(survivor, absorbed, _) => survivor == id || absorbed == id,
        TileMovementEvent::OneStep(tile, _) => tile == id,
    }
}

/// Some merge among `events` has `id` as one of its two tiles.
pub open spec fn merged_in(events: Seq<TileMovementEvent>, id: TileId) -> bool {
    exists|a: int| 0 <= a < events.len() && #[trigger] merges(events[a], id)
}

/// No tile is a tile of more than one merge among `events`, and no merge
/// takes up the tile that it raises.
pub open spec fn merges_once(events: Seq<TileMovementEvent>) -> bool {
    &&& forall|a: int, b: int, id: TileId|
        0 <= a < events.len() && 0 <= b < events.len() && #[trigger] merges(events[a], id)
            && #[trigger] merges(events[b], id) ==> a == b
    &&& forall|a: int|
        0 <= a < events.len() ==> (#[trigger] events[a] matches TileMovementEvent::Merge(
            survivor,
            absorbed,
            _,
        ) ==> survivor != absorbed)
}

/// Every tile that `events` step or merge stands in `line`.
pub open spec fn all_named_in(events: Seq<TileMovementEvent>, line: Line) -> bool {
    forall|a: int, id: TileId|
        0 <= a < events.len() && #[trigger] names(events[a], id) ==> line.contains(Some(id))
}

/// No tile stands in the line twice.
pub open spec fn line_distinct(line: Line) -> bool {
    forall|j: int, k: int|
        0 <= j < k < line.len() && (#[trigger] line[j]) is Some ==> line[j] != #[trigger] line[k]
}

/// The steps of a stretch of a line are steps of its tiles, and no merges.
pub proof fn lemma_shift_events_are_steps(cells: Line, turn: QuarterTurn)
    ensures
        all_named_in(shift_events(cells, turn), cells),
        forall|a: int, id: TileId|
            0 <= a < shift_events(cells, turn).len() ==> !#[trigger] merges(
                shift_events(cells, turn)[a],
                id,
            ),
    decreases cells.len(),
{
    if cells.len() > 0 {
        let rest = cells.drop_first();
        lemma_shift_events_are_steps(rest, turn);
        let tail = shift_events(rest, turn);
        let events = shift_events(cells, turn);
        assert forall|a: int, id: TileId|
            0 <= a < events.len() && #[trigger] names(events[a], id) implies cells.contains(
            Some(id),
        ) by {
            if cells[0] is Some && a == 0 {
                assert(cells[0] == Some(id));
            } else {
                let b = if cells[0] is Some {
                    a - 1
                } else {
                    a
                };
                assert(events[a] == tail[b]);
                assert(names(tail[b], id));
                assert(rest.contains(Some(id)));
                let j = choose|j: int| 0 <= j < rest.len() && rest[j] == Some(id);
                assert(cells[j + 1] == Some(id));
            }
        }
        assert forall|a: int, id: TileId| 0 <= a < events.len() implies !#[trigger] merges(
            events[a],
            id,
        ) by {
            if cells[0] is Some && a == 0 {
            } else {
                let b = if cells[0] is Some {
                    a - 1
                } else {
                    a
                };
                assert(events[a] == tail[b]);
                assert(!merges(tail[b], id));
            }
        }
    }
}

/// Two runs of events, each with no tile in more than one merge and with no
/// tile merged in both, make one such run.
pub proof fn lemma_merges_once_add(head: Seq<TileMovementEvent>, tail: Seq<TileMovementEvent>)
    requires
        merges_once(head),
        merges_once(tail),
        forall|id: TileId| !(merged_in(head, id) && merged_in(tail, id)),
    ensures
        merges_once(head + tail),
{
    let events = head + tail;
    assert forall|a: int, b: int, id: TileId|
        0 <= a < events.len() && 0 <= b < events.len() && #[trigger] merges(events[a], id)
            && #[trigger] merges(events[b], id) implies a == b by {
        if a < head.len() && b < head.len() {
            assert(merges(head[a], id) && merges(head[b], id));
        } else if a >= head.len() && b >= head.len() {
            assert(merges(tail[a - head.len()], id) && merges(tail[b - head.len()], id));
        } else if a < head.len() {
            assert(merges(head[a], id));
            assert(merges(tail[b - head.len()], id));
            assert(merged_in(head, id) && merged_in(tail, id));
        } else {
            assert(merges(head[b], id));
            assert(merges(tail[a - head.len()], id));
            assert(merged_in(head, id) && merged_in(tail, id));
        }
    }
    assert forall|a: int|
        0 <= a < events.len() implies (#[trigger] events[a] matches TileMovementEvent::Merge(
        survivor,
        absorbed,
        _,
    ) ==> survivor != absorbed) by {
        if a < head.len() {
            assert(events[a] == head[a]);
        } else {
            assert(events[a] == tail[a - head.len()]);
        }
    }
}

/// Events that name only tiles of a line name only tiles of any line that holds that line.
pub proof fn lemma_all_named_in_wider(events: Seq<TileMovementEvent>, line: Line, wider: Line)
    requires
        all_named_in(events, line),
        forall|id: TileId| line.contains(Some(id)) ==> wider.contains(Some(id)),
    ensures
        all_named_in(events, wider),
{
    assert forall|a: int, id: TileId|
        0 <= a < events.len() && #[trigger] names(events[a], id) implies wider.contains(
        Some(id),
    ) by {
        assert(line.contains(Some(id)));
    }
}

/// Two runs of events that name only tiles of a line make one such run.
pub proof fn lemma_all_named_in_add(
    head: Seq<TileMovementEvent>,
    tail: Seq<TileMovementEvent>,
    line: Line,
)
    requires
        all_named_in(head, line),
        all_named_in(tail, line),
    ensures
        all_named_in(head + tail, line),
{
    let events = head + tail;
    assert forall|a: int, id: TileId|
        0 <= a < events.len() && #[trigger] names(events[a], id) implies line.contains(
        Some(id),
    ) by {
        if a < head.len() {
            assert(names(head[a], id));
        } else {
            assert(names(tail[a - head.len()], id));
        }
    }
}

/// A run of steps has no tile in any merge.
proof fn lemma_steps_merge_nothing(events: Seq<TileMovementEvent>)
    requires
        forall|a: int, id: TileId| 0 <= a < events.len() ==> !#[trigger] merges(events[a], id),
    ensures
        merges_once(events),
        forall|id: TileId| !merged_in(events, id),
{
    assert forall|a: int|
        0 <= a < events.len() implies (#[trigger] events[a] matches TileMovementEvent::Merge(
        survivor,
        absorbed,
        _,
    ) ==> survivor != absorbed) by {
        match events[a] {
            TileMovementEvent::Merge(survivor, absorbed, _) => {
                assert(merges(events[a], survivor));
            },
            TileMovementEvent::OneStep(_, _) => {},
        }
    }
}

/// A tile that is merged among events is named by them.
proof fn lemma_merged_is_named(events: Seq<TileMovementEvent>, line: Line, id: TileId)
    requires
        all_named_in(events, line),
        merged_in(events, id),
    ensures
        line.contains(Some(id)),
{
    let a = choose|a: int| 0 <= a < events.len() && #[trigger] merges(events[a], id);
    assert(names(events[a], id));
}

/// In one line in which no tile stands twice, no tile is part of more than
/// one merge, and only tiles of the line step or merge.
#[verifier::rlimit(40)]
pub proof fn lemma_line_merges_once(line: Line, tiles: Tiles, turn: QuarterTurn)
    requires
        line_distinct(line),
    ensures
        resolve_slice(line, tiles, turn) matches Ok(events) ==> merges_once(events)
            && all_named_in(events, line),
    decreases line.len(),
{
    if resolve_slice(line, tiles, turn) is Err || line.len() == 0 {
        return ;
    }
    if line[0] is None {
        let rest = line.drop_first();
        assert forall|id: TileId| rest.contains(Some(id)) implies line.contains(Some(id)) by {
            let j = choose|j: int| 0 <= j < rest.len() && rest[j] == Some(id);
            assert(line[j + 1] == Some(id));
        }
        assert forall|j: int, k: int|
            0 <= j < k < rest.len() && (#[trigger] rest[j]) is Some implies rest[j]
            != #[trigger] rest[k] by {
            assert(line[j + 1] is Some);
            assert(line[j + 1] != line[k + 1]);
        }
        lemma_line_merges_once(rest, tiles, turn);
        lemma_shift_events_are_steps(rest, turn);
        let head = shift_events(rest, turn);
        let tail = resolve_slice(rest, tiles, turn).unwrap();
        lemma_steps_merge_nothing(head);
        lemma_merges_once_add(head, tail);
        lemma_all_named_in_add(head, tail, rest);
        lemma_all_named_in_wider(head + tail, rest, line);
    } else if line.len() == 1 {
    } else if line[1] is None {
        let rest = line.skip(2);
        let next = seq![line[0]] + rest;
        assert forall|id: TileId| rest.contains(Some(id)) implies next.contains(Some(id)) by {
            let j = choose|j: int| 0 <= j < rest.len() && rest[j] == Some(id);
            assert(next[j + 1] == Some(id));
        }
        assert forall|id: TileId| next.contains(Some(id)) implies line.contains(Some(id)) by {
            let j = choose|j: int| 0 <= j < next.len() && next[j] == Some(id);
            if j == 0 {
                assert(line[0] == Some(id));
            } else {
                assert(line[j + 1] == Some(id));
            }
        }
        assert forall|j: int, k: int|
            0 <= j < k < next.len() && (#[trigger] next[j]) is Some implies next[j]
            != #[trigger] next[k] by {
            if j == 0 {
                assert(line[0] != line[k + 1]);
            } else {
                assert(line[j + 1] is Some);
                assert(line[j + 1] != line[k + 1]);
            }
        }
        lemma_line_merges_once(next, tiles, turn);
        lemma_shift_events_are_steps(rest, turn);
        let head = shift_events(rest, turn);
        let tail = resolve_slice(next, tiles, turn).unwrap();
        lemma_steps_merge_nothing(head);
        lemma_merges_once_add(head, tail);
        lemma_all_named_in_wider(head, rest, next);
        lemma_all_named_in_add(head, tail, next);
        lemma_all_named_in_wider(head + tail, next, line);
    } else {
        let e0 = line[0].unwrap();
        let e1 = line[1].unwrap();
        if rank_of(tiles, e0) == rank_of(tiles, e1) {
            let rest = line.skip(2);
            assert forall|id: TileId| rest.contains(Some(id)) implies line.contains(
                Some(id),
            ) && id != e0 && id != e1 by {
                let j = choose|j: int| 0 <= j < rest.len() && rest[j] == Some(id);
                assert(line[j + 2] == Some(id));
                assert(line[0] != line[j + 2]);
                assert(line[1] != line[j + 2]);
            }
            assert forall|j: int, k: int|
                0 <= j < k < rest.len() && (#[trigger] rest[j]) is Some implies rest[j]
                != #[trigger] rest[k] by {
                assert(line[j + 2] is Some);
                assert(line[j + 2] != line[k + 2]);
            }
            lemma_line_merges_once(rest, tiles, turn);
            lemma_shift_events_are_steps(rest, turn);
            let merge = seq![TileMovementEvent::Merge(e0, e1, turn)];
            let steps = shift_events(rest, turn);
            let tail = resolve_slice(rest, tiles, turn).unwrap();
            assert(line[0] != line[1]);
            assert(merges_once(merge)) by {
                assert forall|a: int, b: int, id: TileId|
                    0 <= a < merge.len() && 0 <= b < merge.len() && #[trigger] merges(
                        merge[a],
                        id,
                    ) && #[trigger] merges(merge[b], id) implies a == b by {}
            }
            assert(all_named_in(merge, line)) by {
                assert forall|a: int, id: TileId|
                    0 <= a < merge.len() && #[trigger] names(merge[a], id) implies line.contains(
                    Some(id),
                ) by {
                    if id == e0 {
                        assert(line[0] == Some(id));
                    } else {
                        assert(line[1] == Some(id));
                    }
                }
            }
            lemma_steps_merge_nothing(steps);
            lemma_merges_once_add(merge, steps);
            let head = merge + steps;
            assert forall|id: TileId| !(merged_in(head, id) && merged_in(tail, id)) by {
                if merged_in(head, id) && merged_in(tail, id) {
                    lemma_merged_is_named(tail, rest, id);
                    let a = choose|a: int| 0 <= a < head.len() && #[trigger] merges(head[a], id);
                    if a == 0 {
                        assert(id == e0 || id == e1);
                    } else {
                        assert(head[a] == steps[a - 1]);
                        assert(!merges(steps[a - 1], id));
                    }
                }
            }
            lemma_merges_once_add(head, tail);
            lemma_all_named_in_wider(steps, rest, line);
            lemma_all_named_in_add(merge, steps, line);
            lemma_all_named_in_wider(tail, rest, line);
            lemma_all_named_in_add(head, tail, line);
        } else {
            let rest = line.drop_first();
            assert forall|id: TileId| rest.contains(Some(id)) implies line.contains(Some(id)) by {
                let j = choose|j: int| 0 <= j < rest.len() && rest[j] == Some(id);
                assert(line[j + 1] == Some(id));
            }
            assert forall|j: int, k: int|
                0 <= j < k < rest.len() && (#[trigger] rest[j]) is Some implies rest[j]
                != #[trigger] rest[k] by {
                assert(line[j + 1] is Some);
                assert(line[j + 1] != line[k + 1]);
            }
            lemma_line_merges_once(rest, tiles, turn);
            lemma_all_named_in_wider(resolve_slice(rest, tiles, turn).unwrap(), rest, line);
        }
    }
}

/// No tile stands twice in a slice, and no tile stands in two of the slices.
pub open spec fn slices_distinct(slices: Seq<(Line, QuarterTurn)>) -> bool {
    &&& forall|i: int| 0 <= i < slices.len() ==> line_distinct((#[trigger] slices[i]).0)
    &&& forall|i: int, k: int, id: TileId|
        0 <= i < k < slices.len() && #[trigger] slices[i].0.contains(Some(id))
            ==> !#[trigger] slices[k].0.contains(Some(id))
}

/// Every tile that `events` step or merge stands in one of `slices`.
pub open spec fn all_named_in_slices(
    events: Seq<TileMovementEvent>,
    slices: Seq<(Line, QuarterTurn)>,
) -> bool {
    forall|a: int, id: TileId|
        0 <= a < events.len() && #[trigger] names(events[a], id) ==> exists|i: int|
            0 <= i < slices.len() && #[trigger] slices[i].0.contains(Some(id))
}

/// Over slices that share no tile, no tile is part of more than one merge.
#[verifier::rlimit(40)]
pub proof fn lemma_slices_merge_once(slices: Seq<(Line, QuarterTurn)>, tiles: Tiles)
    requires
        slices_distinct(slices),
    ensures
        resolve_slices(slices, tiles) matches Ok(events) ==> merges_once(events)
            && all_named_in_slices(events, slices),
    decreases slices.len(),
{
    if resolve_slices(slices, tiles) is Err {
        return ;
    }
    if slices.len() == 0 {
        let events = resolve_slices(slices, tiles).unwrap();
        assert(events.len() == 0);
        return ;
    }
    let before = slices.drop_last();
    let last = slices.last();
    assert(slices_distinct(before)) by {
        assert forall|i: int| 0 <= i < before.len() implies line_distinct(
            (#[trigger] before[i]).0,
        ) by {
            assert(before[i] == slices[i]);
        }
        assert forall|i: int, k: int, id: TileId|
            0 <= i < k < before.len() && #[trigger] before[i].0.contains(
                Some(id),
            ) implies !#[trigger] before[k].0.contains(Some(id)) by {
            assert(before[i] == slices[i] && before[k] == slices[k]);
            if before[k].0.contains(Some(id)) {
                assert(slices[i].0.contains(Some(id)));
                assert(slices[k].0.contains(Some(id)));
            }
        }
    }
    lemma_slices_merge_once(before, tiles);
    assert(line_distinct(slices[slices.len() - 1].0));
    lemma_line_merges_once(last.0, tiles, last.1);
    let head = resolve_slices(before, tiles).unwrap();
    let tail = resolve_slice(last.0, tiles, last.1).unwrap();
    assert forall|id: TileId| !(merged_in(head, id) && merged_in(tail, id)) by {
        if merged_in(head, id) && merged_in(tail, id) {
            lemma_merged_is_named(tail, last.0, id);
            let a = choose|a: int| 0 <= a < head.len() && #[trigger] merges(head[a], id);
            assert(names(head[a], id));
            let i = choose|i: int|
                0 <= i < before.len() && #[trigger] before[i].0.contains(Some(id));
            assert(before[i] == slices[i]);
            assert(slices[i].0.contains(Some(id)));
            assert(slices[slices.len() - 1].0.contains(Some(id)));
        }
    }
    lemma_merges_once_add(head, tail);
    let events = head + tail;
    assert forall|a: int, id: TileId|
        0 <= a < events.len() && #[trigger] names(events[a], id) implies exists|i: int|
        0 <= i < slices.len() && #[trigger] slices[i].0.contains(Some(id)) by {
        if a < head.len() {
            assert(names(head[a], id));
            let i = choose|i: int|
                0 <= i < before.len() && #[trigger] before[i].0.contains(Some(id));
            assert(before[i] == slices[i]);
            assert(slices[i].0.contains(Some(id)));
        } else {
            assert(names(tail[a - head.len()], id));
            assert(slices[slices.len() - 1].0.contains(Some(id)));
        }
    }
}

/// The slices of a board, seen through any turn, share no tile: every tile
/// stands in one line, and there once.
pub proof fn lemma_board_slices_distinct(tiles: Tiles, turn: QuarterTurn)
    requires
        tiles.len() <= usize::MAX,
    ensures
        slices_distinct(slices_of(layout_of(tiles), turn)),
{
    let slices = slices_of(layout_of(tiles), turn);
    let seen = rotated(layout_of(tiles), turn);
    assert forall|i: int, j: int, id: TileId|
        0 <= i < seen.len() && 0 <= j < seen[i].len() && seen[i][j] == Some(id) implies stands_at(
        tiles,
        id.0 as int,
        Position { x: turn.source(i, j).0 as usize, y: turn.source(i, j).1 as usize },
    ) by {
        turn.lemma_source_in_grid(i, j);
        let p = Position { x: turn.source(i, j).0 as usize, y: turn.source(i, j).1 as usize };
        assert(seen[i][j] == tile_on(tiles, p));
        let k = choose|k: int| #[trigger] stands_at(tiles, k, p);
        assert(stands_at(tiles, k, p));
    }
    assert forall|i: int| 0 <= i < slices.len() implies line_distinct(
        (#[trigger] slices[i]).0,
    ) by {
        let line = slices[i].0;
        assert(line == seen[i]);
        assert forall|j: int, k: int|
            0 <= j < k < line.len() && (#[trigger] line[j]) is Some implies line[j]
            != #[trigger] line[k] by {
            if line[j] == line[k] {
                let id = line[j].unwrap();
                assert(seen[i][j] == Some(id) && seen[i][k] == Some(id));
                turn.lemma_source_in_grid(i, j);
                turn.lemma_source_in_grid(i, k);
            }
        }
    }
    assert forall|i: int, k: int, id: TileId|
        0 <= i < k < slices.len() && #[trigger] slices[i].0.contains(
            Some(id),
        ) implies !#[trigger] slices[k].0.contains(Some(id)) by {
        if slices[k].0.contains(Some(id)) {
            assert(slices[i].0 == seen[i] && slices[k].0 == seen[k]);
            let j = choose|j: int| 0 <= j < seen[i].len() && seen[i][j] == Some(id);
            let l = choose|l: int| 0 <= l < seen[k].len() && seen[k][l] == Some(id);
            assert(seen[i][j] == Some(id) && seen[k][l] == Some(id));
            turn.lemma_source_in_grid(i, j);
            turn.lemma_source_in_grid(k, l);
        }
    }
}

/// In a resolved move, no tile is the raised or the taken-up tile of more
/// than one merge.
pub proof fn lemma_single_merge_per_tile(tiles: Tiles, input: PlayerInputEvent)
    requires
        tiles.len() <= usize::MAX,
    ensures
        resolve_move(tiles, input) matches Ok(events) ==> merges_once(events),
{
    lemma_board_slices_distinct(tiles, input.spec_turn());
    lemma_slices_merge_once(slices_of(layout_of(tiles), input.spec_turn()), tiles);
}

} // verus!
