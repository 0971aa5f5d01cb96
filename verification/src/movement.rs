use vstd::prelude::*;
use vstd::arithmetic::power2::pow2;
use crate::board::{
    cell_of, lemma_moved_well_formed, lemma_ranked_well_formed, lemma_removed_well_formed,
    live, moved, occupied, rank_of, ranked, removed, well_formed, Board, Tiles,
};
use crate::error::ModelFault;
use crate::events::TileMovementEvent;
use crate::position::Position;
use crate::score::Score;
use crate::tile::Tile;

verus! {

/// The cell onto which one step takes a tile from `from`.
pub open spec fn step_from(from: Position, delta: (isize, isize)) -> Position {
    Position { x: (from.x + delta.0) as usize, y: (from.y + delta.1) as usize }
}

/// The points that a merge brings when it raises `tile` by one rank: the
/// number that the tile then shows.
pub open spec fn merge_points(tile: Tile) -> nat {
    pow2((tile.0 + 1) as nat)
}

/// Board and score after `event`, or the fault for which the event cannot be applied.
///
/// - A step needs its tile on the board and the next cell toward column 0, as
///   seen through the turn, on the board and free.
/// - A merge needs both tiles on the board, a rank left to raise the first
///   tile to, and room in the score for the points.
pub open spec fn apply_event(tiles: Tiles, score: nat, event: TileMovementEvent) -> Result<
    (Tiles, nat),
    ModelFault,
> {
    match event {
        TileMovementEvent::OneStep(id, turn) => {
            if !live(tiles, id) {
                Err(ModelFault::NoSuchTile(id))
            } else {
                let from = cell_of(tiles, id);
                let delta = turn.spec_downward_unit();
                if !from.shift_in_grid(delta) {
                    Err(ModelFault::OffBoard(id))
                } else if occupied(tiles, step_from(from, delta)) {
                    Err(ModelFault::CellOccupied(step_from(from, delta)))
                } else {
                    Ok((moved(tiles, id, step_from(from, delta)), score))
                }
            }
        },
        TileMovementEvent::Merge(survivor, absorbed, _) => {
            if !live(tiles, survivor) {
                Err(ModelFault::NoSuchTile(survivor))
            } else if !live(tiles, absorbed) {
                Err(ModelFault::NoSuchTile(absorbed))
            } else {
                let tile = rank_of(tiles, survivor);
                if tile.0 == u8::MAX {
                    Err(ModelFault::RankExhausted(survivor))
                } else if score + merge_points(tile) > usize::MAX {
                    Err(ModelFault::ScoreExhausted)
                } else {
                    Ok(
                        (
                            removed(ranked(tiles, survivor, Tile((tile.0 + 1) as u8)), absorbed),
                            score + merge_points(tile),
                        ),
                    )
                }
            }
        },
    }
}

/// Board and score after the events of `events` have been applied in order,
/// up to the first that cannot be applied, and the fault of that one.
pub open spec fn apply_events(tiles: Tiles, score: nat, events: Seq<TileMovementEvent>) -> (
    Tiles,
    nat,
    Option<ModelFault>,
)
    decreases events.len(),
{
    if events.len() == 0 {
        (tiles, score, None)
    } else {
        match apply_event(tiles, score, events[0]) {
            Ok((next_tiles, next_score)) => apply_events(
                next_tiles,
                next_score,
                events.drop_first(),
            ),
            Err(fault) => (tiles, score, Some(fault)),
        }
    }
}

/// An event that can be applied leaves the board well-formed and takes no points away.
pub proof fn lemma_apply_event_keeps(tiles: Tiles, score: nat, event: TileMovementEvent)
    requires
        well_formed(tiles),
    ensures
        apply_event(tiles, score, event) matches Ok((next_tiles, next_score)) ==> well_formed(
            next_tiles,
        ) && next_score >= score && next_tiles.len() == tiles.len(),
{
    match event {
        TileMovementEvent::OneStep(id, turn) => {
            if apply_event(tiles, score, event) is Ok {
                let from = cell_of(tiles, id);
                lemma_moved_well_formed(tiles, id, step_from(from, turn.spec_downward_unit()));
            }
        },
        TileMovementEvent::Merge(survivor, absorbed, _) => {
            if apply_event(tiles, score, event) is Ok {
                let tile = rank_of(tiles, survivor);
                lemma_ranked_well_formed(tiles, survivor, Tile((tile.0 + 1) as u8));
                lemma_removed_well_formed(
                    ranked(tiles, survivor, Tile((tile.0 + 1) as u8)),
                    absorbed,
                );
            }
        },
    }
}

/// Applies one event to board and score, or reports why it cannot be applied
/// and changes nothing.
pub fn apply_movement(event: TileMovementEvent, board: &mut Board, score: &mut Score) -> (r: Result<
    (),
    ModelFault,
>)
    requires
        old(board).wf(),
    ensures
        final(board).wf(),
        match apply_event(old(board)@, old(score)@, event) {
            Ok((tiles, points)) => r is Ok && final(board)@ == tiles && final(score)@ == points,
            Err(fault) => r == Err::<(), ModelFault>(fault) && final(board)@ == old(board)@
                && final(score)@ == old(score)@,
        },
{
    proof {
        lemma_apply_event_keeps(board@, score@, event);
    }
    match event {
        TileMovementEvent::OneStep(e, turn) => {
            let bundle = match board.get(e) {
                Some(bundle) => bundle,
                None => {
                    return Err(ModelFault::NoSuchTile(e));
                },
            };
            let to = match bundle.position.checked_shift(turn.downward_unit()) {
                Some(to) => to,
                None => {
                    return Err(ModelFault::OffBoard(e));
                },
            };
            if board.tile_at(to).is_some() {
                return Err(ModelFault::CellOccupied(to));
            }
            board.move_tile(e, to);
            Ok(())
        },
        TileMovementEvent::Merge(e0, e1, _) => {
            let mut tile0 = match board.tile(e0) {
                Ok(tile) => tile,
                Err(fault) => {
                    return Err(fault);
                },
            };
            match board.tile(e1) {
                Ok(_) => {},
                Err(fault) => {
                    return Err(fault);
                },
            }
            if tile0.0 == u8::MAX {
                return Err(ModelFault::RankExhausted(e0));
            }
            tile0.double();
            let points = match tile0.checked_num() {
                Some(points) => points,
                None => {
                    return Err(ModelFault::ScoreExhausted);
                },
            };
            if !score.has_room_for(points) {
                return Err(ModelFault::ScoreExhausted);
            }
            board.set_tile(e0, tile0);
            score.add(points);
            board.despawn(e1);
            Ok(())
        },
    }
}

/// Applies the steps and merges of a move to board and score, in order.
///
/// The first event that cannot be applied ends the run with its fault; what
/// came before it stays applied.
pub fn move_tiles(events: &Vec<TileMovementEvent>, board: &mut Board, score: &mut Score) -> (r:
    Result<(), ModelFault>)
    requires
        old(board).wf(),
    ensures
        final(board).wf(),
        final(score)@ >= old(score)@,
        final(board)@.len() == old(board)@.len(),
        apply_events(old(board)@, old(score)@, events@) == (
            final(board)@,
            final(score)@,
            match r {
                Ok(_) => None::<ModelFault>,
                Err(fault) => Some(fault),
            },
        ),
{
    let mut i: usize = 0;
    assert(events@.skip(0) =~= events@);
    while i < events.len()
        invariant
            i <= events@.len(),
            board.wf(),
            score@ >= old(score)@,
            board@.len() == old(board)@.len(),
            apply_events(old(board)@, old(score)@, events@) == apply_events(
                board@,
                score@,
                events@.skip(i as int),
            ),
        decreases events.len() - i,
    {
        proof {
            assert(events@.skip(i as int).drop_first() =~= events@.skip(i as int + 1));
            lemma_apply_event_keeps(board@, score@, events@[i as int]);
        }
        match apply_movement(events[i], board, score) {
            Ok(_) => {},
            Err(fault) => {
                return Err(fault);
            },
        }
        i += 1;
    }
    Ok(())
}

/// Applying a run of events and then another is applying the two as one run.
pub proof fn lemma_apply_events_add(
    tiles: Tiles,
    score: nat,
    first: Seq<TileMovementEvent>,
    then: Seq<TileMovementEvent>,
)
    ensures
        apply_events(tiles, score, first + then) == ({
            let (between, points, fault) = apply_events(tiles, score, first);
            if fault is None {
                apply_events(between, points, then)
            } else {
                (between, points, fault)
            }
        }),
    decreases first.len(),
{
    if first.len() == 0 {
        assert(first + then =~= then);
    } else {
        assert((first + then)[0] == first[0]);
        assert((first + then).drop_first() =~= first.drop_first() + then);
        match apply_event(tiles, score, first[0]) {
            Ok((next_tiles, next_score)) => {
                lemma_apply_events_add(next_tiles, next_score, first.drop_first(), then);
            },
            Err(_) => {},
        }
    }
}

} // verus!
