use vstd::prelude::*;
use std::collections::VecDeque;
use crate::board::{get_tiles_layout_with_entity, layout_of, live, rank_of, Board, Tiles};
use crate::error::ModelFault;
use crate::events::{PlayerInputEvent, SlicedMovementEvent, TileMovementEvent};
use crate::grid_array::{rotated, RotatedGridArray};
use crate::quarter_turn::QuarterTurn;
use crate::tile::TileId;

verus! {

/// A line of the board: for each column from 0 on, the tile that stands there.
pub type Line = Seq<Option<TileId>>;

impl View for SlicedMovementEvent {
    type V = (Line, QuarterTurn);

    open spec fn view(&self) -> (Line, QuarterTurn) {
        (self.0@, self.1)
    }
}

/// One step for every tile of `cells`, in the order of the columns.
pub open spec fn shift_events(cells: Line, turn: QuarterTurn) -> Seq<TileMovementEvent>
    decreases cells.len(),
{
    if cells.len() == 0 {
        Seq::empty()
    } else {
        let rest = shift_events(cells.drop_first(), turn);
        match cells[0] {
            Some(e) => seq![TileMovementEvent::OneStep(e, turn)] + rest,
            None => rest,
        }
    }
}

/// `events`, followed by what `then` gives; a fault in `then` is the fault of the whole.
pub open spec fn followed_by(
    events: Seq<TileMovementEvent>,
    then: Result<Seq<TileMovementEvent>, ModelFault>,
) -> Result<Seq<TileMovementEvent>, ModelFault> {
    match then {
        Ok(more) => Ok(events + more),
        Err(fault) => Err(fault),
    }
}

/// The steps and merges by which the tiles of one line fall toward column 0.
///
/// The line is consumed from column 0 on:
/// - a gap at the front lets everything behind it step forward;
/// - a tile followed by a gap stays, and everything behind the gap steps forward;
/// - a tile followed by a tile of the same rank takes it up, everything
///   behind the two steps forward, and neither of the two merges again;
/// - a tile followed by a tile of another rank has found its place.
///
/// Two tiles that meet are looked up in `tiles`; one that is missing there is a fault.
pub open spec fn resolve_slice(line: Line, tiles: Tiles, turn: QuarterTurn) -> Result<
    Seq<TileMovementEvent>,
    ModelFault,
>
    decreases line.len(),
{
    if line.len() == 0 {
        Ok(Seq::empty())
    } else if line[0] is None {
        let rest = line.drop_first();
        followed_by(shift_events(rest, turn), resolve_slice(rest, tiles, turn))
    } else if line.len() == 1 {
        Ok(Seq::empty())
    } else if line[1] is None {
        let rest = line.skip(2);
        followed_by(shift_events(rest, turn), resolve_slice(seq![line[0]] + rest, tiles, turn))
    } else {
        let e0 = line[0].unwrap();
        let e1 = line[1].unwrap();
        if !live(tiles, e0) {
            Err(ModelFault::NoSuchTile(e0))
        } else if !live(tiles, e1) {
            Err(ModelFault::NoSuchTile(e1))
        } else if rank_of(tiles, e0) == rank_of(tiles, e1) {
            let rest = line.skip(2);
            followed_by(
                seq![TileMovementEvent::Merge(e0, e1, turn)] + shift_events(rest, turn),
                resolve_slice(rest, tiles, turn),
            )
        } else {
            resolve_slice(line.drop_first(), tiles, turn)
        }
    }
}

/// The steps and merges of all `slices`, one slice after the other.
pub open spec fn resolve_slices(slices: Seq<(Line, QuarterTurn)>, tiles: Tiles) -> Result<
    Seq<TileMovementEvent>,
    ModelFault,
>
    decreases slices.len(),
{
    if slices.len() == 0 {
        Ok(Seq::empty())
    } else {
        match resolve_slices(slices.drop_last(), tiles) {
            Ok(events) => followed_by(
                events,
                resolve_slice(slices.last().0, tiles, slices.last().1),
            ),
            Err(fault) => Err(fault),
        }
    }
}

/// The lines of `grid` seen through `turn`, each with the turn.
pub open spec fn slices_of(grid: Seq<Seq<Option<TileId>>>, turn: QuarterTurn) -> Seq<
    (Line, QuarterTurn),
> {
    rotated(grid, turn).map_values(|line: Line| (line, turn))
}

/// The steps and merges of the move `input` on the board `tiles`.
pub open spec fn resolve_move(tiles: Tiles, input: PlayerInputEvent) -> Result<
    Seq<TileMovementEvent>,
    ModelFault,
> {
    resolve_slices(slices_of(layout_of(tiles), input.spec_turn()), tiles)
}

/// The steps of two stretches of a line are the steps of the first, then those of the second.
pub proof fn lemma_shift_events_add(a: Line, b: Line, turn: QuarterTurn)
    ensures
        shift_events(a + b, turn) == shift_events(a, turn) + shift_events(b, turn),
    decreases a.len(),
{
    if a.len() == 0 {
        assert(a + b =~= b);
        assert(shift_events(a, turn) + shift_events(b, turn) =~= shift_events(b, turn));
    } else {
        assert((a + b).drop_first() =~= a.drop_first() + b);
        lemma_shift_events_add(a.drop_first(), b, turn);
        let rest_a = shift_events(a.drop_first(), turn);
        let rest_b = shift_events(b, turn);
        match a[0] {
            Some(e) => {
                assert(seq![TileMovementEvent::OneStep(e, turn)] + (rest_a + rest_b) =~= (
                seq![TileMovementEvent::OneStep(e, turn)] + rest_a) + rest_b);
            },
            None => {},
        }
    }
}

/// Cuts the board into the lines along which the tiles fall under `input`.
pub fn handle_player_input(board: &Board, input: PlayerInputEvent) -> (slices: Vec<
    SlicedMovementEvent,
>)
    requires
        board.wf(),
    ensures
        slices@.map_values(|s: SlicedMovementEvent| s@) == slices_of(
            layout_of(board@),
            input.spec_turn(),
        ),
{
    let turn = input.turn();
    let tiles_layout = RotatedGridArray::new(get_tiles_layout_with_entity(board), turn);
    let vec: Vec<Vec<Option<TileId>>> = tiles_layout.into_vec();
    let mut slices: Vec<SlicedMovementEvent> = Vec::new();
    let mut i: usize = 0;
    while i < vec.len()
        invariant
            i <= vec.len(),
            slices@.len() == i,
            forall|k: int| 0 <= k < i ==> (#[trigger] slices@[k])@ == (vec@[k]@, turn),
        decreases vec.len() - i,
    {
        let down_axis = vec[i].clone();
        slices.push(SlicedMovementEvent(down_axis, turn));
        i += 1;
    }
    assert(slices@.map_values(|s: SlicedMovementEvent| s@) =~= slices_of(
        layout_of(board@),
        input.spec_turn(),
    ));
    slices
}

/// Records one step for every tile of `cells`, in the order of the columns.
fn shift_tiles_one_step(
    cells: &VecDeque<Option<TileId>>,
    turn: QuarterTurn,
    events: &mut Vec<TileMovementEvent>,
)
    ensures
        final(events)@ == old(events)@ + shift_events(cells@, turn),
{
    let mut i: usize = 0;
    assert(cells@.take(0) =~= Seq::empty());
    while i < cells.len()
        invariant
            i <= cells@.len(),
            events@ == old(events)@ + shift_events(cells@.take(i as int), turn),
        decreases cells.len() - i,
    {
        let ghost done = cells@.take(i as int);
        let ghost next = seq![cells@[i as int]];
        let ghost recorded = events@;
        proof {
            assert(cells@.take(i as int + 1) =~= done + next);
            lemma_shift_events_add(done, next, turn);
            assert(next.drop_first() =~= Seq::<Option<TileId>>::empty());
            assert(shift_events(next.drop_first(), turn) =~= Seq::<TileMovementEvent>::empty());
        }
        match cells[i] {
            Some(e) => {
                events.push(TileMovementEvent::OneStep(e, turn));
                assert(shift_events(next, turn) =~= seq![TileMovementEvent::OneStep(e, turn)]);
                assert(events@ =~= recorded + shift_events(next, turn));
            },
            None => {
                assert(shift_events(next, turn) =~= Seq::<TileMovementEvent>::empty());
                assert(events@ =~= recorded + shift_events(next, turn));
            },
        }
        assert(events@ =~= old(events)@ + (shift_events(done, turn) + shift_events(
            next,
            turn,
        )));
        i += 1;
    }
    assert(cells@.take(cells@.len() as int) =~= cells@);
}

/// Resolves one line into the steps and merges by which its tiles fall toward column 0.
pub fn calc_tiles_slice(slice: &Vec<Option<TileId>>, turn: QuarterTurn, board: &Board) -> (r:
    Result<Vec<TileMovementEvent>, ModelFault>)
    ensures
        match resolve_slice(slice@, board@, turn) {
            Ok(events) => r matches Ok(v) && v@ == events,
            Err(fault) => r matches Err(f) && f == fault,
        },
{
    let mut line: VecDeque<Option<TileId>> = VecDeque::new();
    let mut k: usize = 0;
    while k < slice.len()
        invariant
            k <= slice@.len(),
            line@ == slice@.take(k as int),
        decreases slice.len() - k,
    {
        line.push_back(slice[k]);
        k += 1;
    }
    assert(line@ =~= slice@);
    let mut events: Vec<TileMovementEvent> = Vec::new();
    assert(events@ + Seq::<TileMovementEvent>::empty() =~= events@);
    loop
        invariant
            resolve_slice(slice@, board@, turn) == followed_by(
                events@,
                resolve_slice(line@, board@, turn),
            ),
        decreases line@.len(),
    {
        let ghost before = line@;
        let ghost done = events@;
        match line.pop_front() {
            None => {
                assert(done + Seq::<TileMovementEvent>::empty() =~= done);
                return Ok(events);
            },
            Some(None) => {
                assert(line@ =~= before.drop_first());
                shift_tiles_one_step(&line, turn, &mut events);
                proof {
                    lemma_followed_by_twice(
                        done,
                        shift_events(line@, turn),
                        resolve_slice(line@, board@, turn),
                    );
                }
            },
            Some(Some(e0)) => {
                match line.pop_front() {
                    None => {
                        assert(done + Seq::<TileMovementEvent>::empty() =~= done);
                        return Ok(events);
                    },
                    Some(None) => {
                        assert(line@ =~= before.skip(2));
                        shift_tiles_one_step(&line, turn, &mut events);
                        let ghost rest = line@;
                        line.push_front(Some(e0));
                        proof {
                            assert(line@ =~= seq![before[0]] + rest);
                            lemma_followed_by_twice(
                                done,
                                shift_events(rest, turn),
                                resolve_slice(line@, board@, turn),
                            );
                        }
                    },
                    Some(Some(e1)) => {
                        assert(line@ =~= before.skip(2));
                        let tile0 = match board.tile(e0) {
                            Ok(tile) => tile,
                            Err(fault) => {
                                return Err(fault);
                            },
                        };
                        let tile1 = match board.tile(e1) {
                            Ok(tile) => tile,
                            Err(fault) => {
                                return Err(fault);
                            },
                        };
                        if tile0 == tile1 {
                            events.push(TileMovementEvent::Merge(e0, e1, turn));
                            let ghost merged = events@;
                            shift_tiles_one_step(&line, turn, &mut events);
                            proof {
                                let head = seq![TileMovementEvent::Merge(e0, e1, turn)]
                                    + shift_events(line@, turn);
                                assert(events@ =~= done + head);
                                lemma_followed_by_twice(
                                    done,
                                    head,
                                    resolve_slice(line@, board@, turn),
                                );
                            }
                        } else {
                            let ghost rest = line@;
                            line.push_front(Some(e1));
                            assert(line@ =~= before.drop_first());
                        }
                    },
                }
            },
        }
    }
}

/// Events followed by events followed by a result are the joined events followed by that result.
pub proof fn lemma_followed_by_twice(
    a: Seq<TileMovementEvent>,
    b: Seq<TileMovementEvent>,
    then: Result<Seq<TileMovementEvent>, ModelFault>,
)
    ensures
        followed_by(a, followed_by(b, then)) == followed_by(a + b, then),
{
    match then {
        Ok(more) => {
            assert(a + (b + more) =~= (a + b) + more);
        },
        Err(_) => {},
    }
}

/// Resolves every slice in turn into steps and merges.
pub fn calc_sliced_movement(slices: &Vec<SlicedMovementEvent>, board: &Board) -> (r: Result<
    Vec<TileMovementEvent>,
    ModelFault,
>)
    ensures
        match resolve_slices(slices@.map_values(|s: SlicedMovementEvent| s@), board@) {
            Ok(events) => r matches Ok(v) && v@ == events,
            Err(fault) => r matches Err(f) && f == fault,
        },
{
    let ghost all = slices@.map_values(|s: SlicedMovementEvent| s@);
    let mut events: Vec<TileMovementEvent> = Vec::new();
    let mut i: usize = 0;
    assert(all.take(0) =~= Seq::empty());
    while i < slices.len()
        invariant
            i <= slices@.len(),
            all == slices@.map_values(|s: SlicedMovementEvent| s@),
            resolve_slices(all.take(i as int), board@) == Ok::<
                Seq<TileMovementEvent>,
                ModelFault,
            >(events@),
        decreases slices.len() - i,
    {
        proof {
            assert(all.take(i as int + 1).drop_last() =~= all.take(i as int));
            assert(all.take(i as int + 1).last() == slices@[i as int]@);
        }
        match calc_tiles_slice(&slices[i].0, slices[i].1, board) {
            Ok(mut more) => {
                events.append(&mut more);
            },
            Err(fault) => {
                proof {
                    lemma_resolve_slices_fault(all, i as int + 1, board@);
                }
                return Err(fault);
            },
        }
        i += 1;
    }
    assert(all.take(slices@.len() as int) =~= all);
    Ok(events)
}

/// A fault in the first `n` slices is the fault of all the slices.
pub proof fn lemma_resolve_slices_fault(slices: Seq<(Line, QuarterTurn)>, n: int, tiles: Tiles)
    requires
        0 <= n <= slices.len(),
        resolve_slices(slices.take(n), tiles) is Err,
    ensures
        resolve_slices(slices, tiles) == resolve_slices(slices.take(n), tiles),
    decreases slices.len() - n,
{
    if n == slices.len() {
        assert(slices.take(n) =~= slices);
    } else {
        assert(slices.take(n + 1).drop_last() =~= slices.take(n));
        lemma_resolve_slices_fault(slices, n + 1, tiles);
    }
}

} // verus!
