use vstd::prelude::*;
use bevy_prng::WyRand;
use rand_core::RngCore;
use crate::board::{
    create_tile, empty_cells, empty_cells_in_order, get_positions_complement_set, occupied, Board,
    TileBundle, Tiles,
};
use crate::constants::{SPAWN_WEIGHT_RANK_ONE, SPAWN_WEIGHT_RANK_TWO};
use crate::error::ModelFault;
use crate::events::TileSpawnEvent;
use crate::position::Position;
use crate::tile::Tile;

verus! {

/// `bevy_prng::WyRand`, the generator of pseudo-random numbers from which new
/// tiles are drawn. Nothing of its state is known to the proofs.
#[verifier::external_type_specification]
#[verifier::external_body]
pub struct ExWyRand(bevy_prng::WyRand);

/// Draws 64 bits with `RngCore::next_u64` of `bevy_prng::WyRand`, which
/// advances the generator. Nothing is claimed of the bits.
#[verifier::external_body]
pub(crate) fn next_u64(rng: &mut WyRand) -> (bits: u64) {
    rng.next_u64()
}

/// Draws 32 bits with `RngCore::next_u32` of `bevy_prng::WyRand`, which
/// advances the generator. Nothing is claimed of the bits.
#[verifier::external_body]
pub(crate) fn next_u32(rng: &mut WyRand) -> (bits: u32) {
    rng.next_u32()
}

/// The tile that comes for `tile_bits`: of every
/// `SPAWN_WEIGHT_RANK_ONE + SPAWN_WEIGHT_RANK_TWO` values in a row, the first
/// `SPAWN_WEIGHT_RANK_ONE` give rank 1 and the others rank 2.
pub open spec fn spawn_tile_for(tile_bits: u32) -> Tile {
    if tile_bits % ((SPAWN_WEIGHT_RANK_ONE + SPAWN_WEIGHT_RANK_TWO) as u32)
        < SPAWN_WEIGHT_RANK_ONE {
        Tile(1)
    } else {
        Tile(2)
    }
}

/// The new tile for the bits drawn: on the candidate cell that `cell_bits`
/// counts off, with the rank that `tile_bits` gives. Without a candidate no tile comes.
pub open spec fn spawn_event_for(
    candidates: Seq<Position>,
    cell_bits: u64,
    tile_bits: u32,
) -> Option<TileSpawnEvent> {
    if candidates.len() == 0 {
        None
    } else {
        Some(
            TileSpawnEvent {
                tile: spawn_tile_for(tile_bits),
                position: candidates[cell_bits as int % candidates.len() as int],
            },
        )
    }
}

/// The board after the tiles of `events` have been put onto it in order, up to
/// the first that cannot be put, and the fault of that one.
pub open spec fn spawn_all(tiles: Tiles, events: Seq<TileSpawnEvent>) -> (Tiles, Option<ModelFault>)
    decreases events.len(),
{
    if events.len() == 0 {
        (tiles, None)
    } else if events[0].tile.0 == 0 {
        (tiles, Some(ModelFault::NoSuchRank(events[0].tile)))
    } else if !events[0].position.in_grid() {
        (tiles, Some(ModelFault::NoSuchCell(events[0].position)))
    } else if occupied(tiles, events[0].position) {
        (tiles, Some(ModelFault::CellOccupied(events[0].position)))
    } else {
        spawn_all(
            tiles.push(Some(TileBundle { tile: events[0].tile, position: events[0].position })),
            events.drop_first(),
        )
    }
}

/// Chooses the new tile for the bits drawn.
pub fn pick_random_tile(candidates: &Vec<Position>, cell_bits: u64, tile_bits: u32) -> (r: Option<
    TileSpawnEvent,
>)
    ensures
        r == spawn_event_for(candidates@, cell_bits, tile_bits),
{
    if candidates.len() == 0 {
        return None;
    }
    let count = candidates.len() as u64;
    let rnd_n = (cell_bits % count) as usize;
    let position = candidates[rnd_n];
    let tile = if tile_bits % (SPAWN_WEIGHT_RANK_ONE + SPAWN_WEIGHT_RANK_TWO)
        < SPAWN_WEIGHT_RANK_ONE {
        Tile(1)
    } else {
        Tile(2)
    };
    Some(TileSpawnEvent { tile, position })
}

/// The board with the new tile for the bits drawn, or the board itself where
/// no cell is empty.
pub open spec fn with_random_tile(tiles: Tiles, cell_bits: u64, tile_bits: u32) -> Tiles {
    with_tile(tiles, spawn_event_for(empty_cells_in_order(tiles), cell_bits, tile_bits))
}

/// The board with the tile of `event` on it, if there is an event.
pub open spec fn with_tile(tiles: Tiles, event: Option<TileSpawnEvent>) -> Tiles {
    match event {
        Some(event) => tiles.push(
            Some(TileBundle { tile: event.tile, position: event.position }),
        ),
        None => tiles,
    }
}

/// The board with one new tile after the other, for each pair of bits drawn.
pub open spec fn with_random_tiles(tiles: Tiles, draws: Seq<(u64, u32)>) -> Tiles
    decreases draws.len(),
{
    if draws.len() == 0 {
        tiles
    } else {
        with_random_tiles(with_random_tile(tiles, draws[0].0, draws[0].1), draws.drop_first())
    }
}

/// Draws a new tile for an empty cell of the board. On a full board no tile
/// comes, and nothing is drawn from the generator.
pub fn create_random_tile(board: &Board, rng: &mut WyRand) -> (r: Option<TileSpawnEvent>)
    requires
        board.wf(),
    ensures
        r is Some <==> empty_cells_in_order(board@).len() > 0,
        r is Some ==> exists|cell_bits: u64, tile_bits: u32|
            r == #[trigger] spawn_event_for(empty_cells_in_order(board@), cell_bits, tile_bits),
        r matches Some(event) ==> empty_cells(board@).contains(event.position) && (event.tile
            == Tile(1) || event.tile == Tile(2)),
{
    let candidates_of_positions = get_positions_complement_set(board);
    if candidates_of_positions.len() == 0 {
        return None;
    }
    let cell_bits = next_u64(rng);
    let tile_bits = next_u32(rng);
    let r = pick_random_tile(&candidates_of_positions, cell_bits, tile_bits);
    proof {
        let event = r.unwrap();
        let count = candidates_of_positions@.len() as int;
        assert(candidates_of_positions@.to_set().contains(
            candidates_of_positions@[cell_bits as int % count],
        ));
    }
    r
}

/// Puts the tile of `event`, drawn for an empty cell of the board, onto the board.
pub fn spawn_drawn_tile(event: Option<TileSpawnEvent>, board: &mut Board)
    requires
        old(board).wf(),
        event matches Some(e) ==> e.tile.0 >= 1 && empty_cells(old(board)@).contains(e.position),
    ensures
        final(board).wf(),
        final(board)@ == with_tile(old(board)@, event),
{
    match event {
        Some(e) => {
            let r = create_tile(board, e.tile, e.position);
            assert(r is Ok);
        },
        None => {},
    }
}

/// Puts the tiles of `events` onto the board, in order.
///
/// The first tile without a rank, or whose cell is off the board or taken,
/// ends the run with its fault; the tiles before it stay on the board.
pub fn spawn_tiles(events: &Vec<TileSpawnEvent>, board: &mut Board) -> (r: Result<(), ModelFault>)
    requires
        old(board).wf(),
    ensures
        final(board).wf(),
        spawn_all(old(board)@, events@) == (
            final(board)@,
            match r {
                Ok(_) => None::<ModelFault>,
                Err(fault) => Some(fault),
            },
        ),
{
    let mut i: usize = 0;
    assert(events@.skip(0) =~= events@);
    while i < events.len()
        invariant
            i <= events@.len(),
            board.wf(),
            spawn_all(old(board)@, events@) == spawn_all(board@, events@.skip(i as int)),
        decreases events.len() - i,
    {
        proof {
            assert(events@.skip(i as int).drop_first() =~= events@.skip(i as int + 1));
        }
        match create_tile(board, events[i].tile, events[i].position) {
            Ok(_) => {},
            Err(fault) => {
                return Err(fault);
            },
        }
        i += 1;
    }
    Ok(())
}

} // verus!
