use vstd::prelude::*;
use crate::board::{rank_of, Tiles};
use crate::calculate::{resolve_move, shift_events, Line};
use crate::events::{PlayerInputEvent, TileMovementEvent};
use crate::merge_once::{lemma_single_merge_per_tile, merges, merges_once};
use crate::movement::{apply_event, apply_events, merge_points};
use crate::quarter_turn::QuarterTurn;

verus! {

/// The points of the merges among `events`: for every merge the number that
/// the raised tile shows after it, one rank above its rank in `tiles`.
pub open spec fn points_of_merges(tiles: Tiles, events: Seq<TileMovementEvent>) -> nat
    decreases events.len(),
{
    if events.len() == 0 {
        0
    } else {
        let rest = points_of_merges(tiles, events.drop_first());
        match events[0] {
            TileMovementEvent::Merge(survivor, _, _) => merge_points(
                rank_of(tiles, survivor),
            ) + rest,
            TileMovementEvent::OneStep(_, _) => rest,
        }
    }
}

/// Applying events never takes points away.
pub proof fn lemma_score_never_falls(tiles: Tiles, score: nat, events: Seq<TileMovementEvent>)
    ensures
        apply_events(tiles, score, events).1 >= score,
    decreases events.len(),
{
    if events.len() > 0 {
        match apply_event(tiles, score, events[0]) {
            Ok((next_tiles, next_score)) => {
                lemma_score_never_falls(next_tiles, next_score, events.drop_first());
            },
            Err(_) => {},
        }
    }
}

/// Events that could all be applied raise only tiles with a handle of the
/// board, and the board keeps its handles.
proof fn lemma_applied_merges_in_range(tiles: Tiles, score: nat, events: Seq<TileMovementEvent>)
    requires
        apply_events(tiles, score, events).2 is None,
    ensures
        apply_events(tiles, score, events).0.len() == tiles.len(),
        forall|a: int|
            0 <= a < events.len() ==> (#[trigger] events[a] matches TileMovementEvent::Merge(
                survivor,
                _,
                _,
            ) ==> survivor.0 < tiles.len()),
    decreases events.len(),
{
    if events.len() > 0 {
        let rest = events.drop_first();
        match apply_event(tiles, score, events[0]) {
            Ok((next_tiles, next_score)) => {
                assert(next_tiles.len() == tiles.len());
                lemma_applied_merges_in_range(next_tiles, next_score, rest);
                assert forall|a: int|
                    0 <= a < events.len()
                        implies (#[trigger] events[a] matches TileMovementEvent::Merge(
                    survivor,
                    _,
                    _,
                ) ==> survivor.0 < tiles.len()) by {
                    if a > 0 {
                        assert(events[a] == rest[a - 1]);
                    }
                }
            },
            Err(_) => {},
        }
    }
}

/// On boards that show the same rank for every tile that `events` raise, the
/// merges bring the same points.
proof fn lemma_points_agree(first: Tiles, second: Tiles, events: Seq<TileMovementEvent>)
    requires
        forall|a: int|
            0 <= a < events.len() ==> (#[trigger] events[a] matches TileMovementEvent::Merge(
                survivor,
                _,
                _,
            ) ==> rank_of(first, survivor) == rank_of(second, survivor)),
    ensures
        points_of_merges(first, events) == points_of_merges(second, events),
    decreases events.len(),
{
    if events.len() > 0 {
        let rest = events.drop_first();
        assert forall|a: int|
            0 <= a < rest.len() implies (#[trigger] rest[a] matches TileMovementEvent::Merge(
            survivor,
            _,
            _,
        ) ==> rank_of(first, survivor) == rank_of(second, survivor)) by {
            assert(rest[a] == events[a + 1]);
        }
        lemma_points_agree(first, second, rest);
    }
}

/// Where no tile is part of more than one merge and every event could be
/// applied, the score has grown by exactly the points of the merges: for each
/// merge the number that its raised tile shows afterwards.
pub proof fn lemma_score_gain(tiles: Tiles, score: nat, events: Seq<TileMovementEvent>)
    requires
        merges_once(events),
        apply_events(tiles, score, events).2 is None,
    ensures
        apply_events(tiles, score, events).1 == score + points_of_merges(tiles, events),
    decreases events.len(),
{
    if events.len() > 0 {
        let rest = events.drop_first();
        match apply_event(tiles, score, events[0]) {
            Ok((next_tiles, next_score)) => {
                assert(merges_once(rest)) by {
                    assert forall|a: int, b: int, id|
                        0 <= a < rest.len() && 0 <= b < rest.len() && #[trigger] merges(
                            rest[a],
                            id,
                        ) && #[trigger] merges(rest[b], id) implies a == b by {
                        assert(merges(events[a + 1], id) && merges(events[b + 1], id));
                    }
                    assert forall|a: int|
                        0 <= a < rest.len()
                            implies (#[trigger] rest[a] matches TileMovementEvent::Merge(
                        survivor,
                        absorbed,
                        _,
                    ) ==> survivor != absorbed) by {
                        assert(rest[a] == events[a + 1]);
                    }
                }
                lemma_score_gain(next_tiles, next_score, rest);
                lemma_applied_merges_in_range(tiles, score, events);
                assert forall|a: int|
                    0 <= a < rest.len()
                        implies (#[trigger] rest[a] matches TileMovementEvent::Merge(
                    survivor,
                    _,
                    _,
                ) ==> rank_of(next_tiles, survivor)
                    == rank_of(tiles, survivor)) by {
                    match rest[a] {
                        TileMovementEvent::Merge(survivor, _, _) => {
                            assert(rest[a] == events[a + 1]);
                            assert(survivor.0 < tiles.len());
                            assert(merges(events[a + 1], survivor));
                            match events[0] {
                                TileMovementEvent::Merge(raised, taken, _) => {
                                    assert(merges(events[0], raised));
                                    assert(merges(events[0], taken));
                                    assert(survivor != raised && survivor != taken);
                                },
                                TileMovementEvent::OneStep(_, _) => {},
                            }
                        },
                        TileMovementEvent::OneStep(_, _) => {},
                    }
                }
                lemma_points_agree(next_tiles, tiles, rest);
            },
            Err(_) => {},
        }
    }
}

/// A move never takes points away, and where all of its steps and merges
/// could be applied, the score has grown by exactly the sum, over its merges,
/// of the number that the raised tile shows afterwards.
pub proof fn lemma_move_score(tiles: Tiles, score: nat, input: PlayerInputEvent)
    requires
        tiles.len() <= usize::MAX,
    ensures
        resolve_move(tiles, input) matches Ok(events) ==> {
            let (_, after, fault) = apply_events(tiles, score, events);
            &&& after >= score
            &&& fault is None ==> after == score + points_of_merges(tiles, events)
        },
{
    match resolve_move(tiles, input) {
        Ok(events) => {
            lemma_single_merge_per_tile(tiles, input);
            lemma_score_never_falls(tiles, score, events);
            if apply_events(tiles, score, events).2 is None {
                lemma_score_gain(tiles, score, events);
            }
        },
        Err(_) => {},
    }
}

/// The points of two runs of events are the points of the one and of the other.
pub proof fn lemma_points_add(
    tiles: Tiles,
    first: Seq<TileMovementEvent>,
    then: Seq<TileMovementEvent>,
)
    ensures
        points_of_merges(tiles, first + then) == points_of_merges(tiles, first) + points_of_merges(
            tiles,
            then,
        ),
    decreases first.len(),
{
    if first.len() == 0 {
        assert(first + then =~= then);
    } else {
        assert((first + then)[0] == first[0]);
        assert((first + then).drop_first() =~= first.drop_first() + then);
        lemma_points_add(tiles, first.drop_first(), then);
    }
}

/// Steps bring no points.
pub proof fn lemma_steps_bring_no_points(tiles: Tiles, cells: Line, turn: QuarterTurn)
    ensures
        points_of_merges(tiles, shift_events(cells, turn)) == 0,
    decreases cells.len(),
{
    if cells.len() > 0 {
        lemma_steps_bring_no_points(tiles, cells.drop_first(), turn);
        let rest = shift_events(cells.drop_first(), turn);
        match cells[0] {
            Some(e) => {
                let events = seq![TileMovementEvent::OneStep(e, turn)] + rest;
                assert(events.drop_first() =~= rest);
            },
            None => {},
        }
    }
}

} // verus!
