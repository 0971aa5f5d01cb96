use bevy_prng::WyRand;
use game2048::board::{create_tile, get_positions_complement_set, Board};
use game2048::constants::{INITIAL_TILES, SPAWN_WEIGHT_RANK_ONE, SPAWN_WEIGHT_RANK_TWO};
use game2048::error::ModelFault;
use game2048::events::TileSpawnEvent;
use game2048::position::Position;
use game2048::spawn::{create_random_tile, pick_random_tile, spawn_drawn_tile, spawn_tiles};
use game2048::tile::{Tile, TileId};
use rand_core::SeedableRng;

fn seeded(seed: u64) -> WyRand {
    WyRand::from_seed(seed.to_ne_bytes())
}

#[test]
fn the_policy_is_nine_to_one_with_two_tiles_at_the_start() {
    assert_eq!(SPAWN_WEIGHT_RANK_ONE, 9);
    assert_eq!(SPAWN_WEIGHT_RANK_TWO, 1);
    assert_eq!(INITIAL_TILES, 2);
}

#[test]
fn no_candidate_gives_no_tile() {
    assert_eq!(pick_random_tile(&Vec::new(), 5, 5), None);
}

#[test]
fn the_cell_is_counted_off_by_the_bits() {
    let candidates = vec![Position::new(0, 1), Position::new(2, 2), Position::new(3, 0)];
    for (bits, index) in [(0u64, 0usize), (1, 1), (2, 2), (3, 0), (7, 1), (u64::MAX, 0)] {
        assert_eq!(
            pick_random_tile(&candidates, bits, 0),
            Some(TileSpawnEvent { tile: Tile(1), position: candidates[index] })
        );
    }
}

#[test]
fn one_value_in_ten_gives_rank_two() {
    let candidates = vec![Position::new(1, 1)];
    for bits in 0u32..40 {
        let expected = if bits % 10 == 9 { Tile(2) } else { Tile(1) };
        assert_eq!(
            pick_random_tile(&candidates, 0, bits),
            Some(TileSpawnEvent { tile: expected, position: Position::new(1, 1) })
        );
    }
    assert_eq!(pick_random_tile(&candidates, 0, u32::MAX).unwrap().tile, Tile(1));
    assert_eq!(pick_random_tile(&candidates, 0, 4_294_967_289).unwrap().tile, Tile(2));
}

#[test]
fn a_seeded_generator_gives_the_same_tile_again() {
    let board = Board::new();
    let first = create_random_tile(&board, &mut seeded(7));
    let second = create_random_tile(&board, &mut seeded(7));
    assert!(first.is_some());
    assert_eq!(first, second);
}

#[test]
fn the_generator_is_drawn_from_for_cell_and_rank() {
    let board = Board::new();
    // The generator seeded with 0 gives 1233057930238600590, whose remainder by
    // 16 is 14, and then 14892235431655409005, whose low 32 bits are 4283336045.
    assert_eq!(
        create_random_tile(&board, &mut seeded(0)),
        Some(TileSpawnEvent { tile: Tile(1), position: Position::new(3, 2) })
    );
    // Seeded with 9 it gives 3879046369529931922, whose remainder by 16 is 2,
    // and then low 32 bits of 3186202219.
    assert_eq!(
        create_random_tile(&board, &mut seeded(9)),
        Some(TileSpawnEvent { tile: Tile(2), position: Position::new(0, 2) })
    );
}

#[test]
fn the_generator_advances_with_every_tile() {
    let board = Board::new();
    let mut rng = seeded(0);
    let first = create_random_tile(&board, &mut rng).unwrap();
    let second = create_random_tile(&board, &mut rng).unwrap();
    assert_eq!(first.position, Position::new(3, 2));
    // The third value drawn is 7060326114132480676, whose remainder by 16 is 4.
    assert_eq!(second.position, Position::new(1, 0));
    assert_eq!(second.tile, Tile(1));
}

#[test]
fn new_tiles_come_onto_empty_cells_only() {
    let mut board = Board::new();
    let mut rng = seeded(2048);
    for placed in 0..16 {
        let empty = get_positions_complement_set(&board);
        assert_eq!(empty.len(), 16 - placed);
        let event = create_random_tile(&board, &mut rng).unwrap();
        assert!(empty.contains(&event.position));
        assert!(event.tile == Tile(1) || event.tile == Tile(2));
        spawn_drawn_tile(Some(event), &mut board);
        assert_eq!(board.tile_at(event.position), Some(TileId(placed)));
    }
    assert_eq!(create_random_tile(&board, &mut rng), None);
}

#[test]
fn a_full_board_draws_nothing_from_the_generator() {
    let mut board = Board::new();
    for x in 0..4 {
        for y in 0..4 {
            create_tile(&mut board, Tile(1), Position::new(x, y)).unwrap();
        }
    }
    let mut rng = seeded(0);
    assert_eq!(create_random_tile(&board, &mut rng), None);
    board.despawn(TileId(0));
    // The first value of the generator is still to come: its remainder by 1 is 0.
    assert_eq!(
        create_random_tile(&board, &mut rng),
        Some(TileSpawnEvent { tile: Tile(1), position: Position::new(0, 0) })
    );
}

#[test]
fn spawn_tiles_puts_every_tile_onto_the_board() {
    let mut board = Board::new();
    let events = vec![
        TileSpawnEvent { tile: Tile(1), position: Position::new(0, 0) },
        TileSpawnEvent { tile: Tile(2), position: Position::new(3, 3) },
    ];
    assert_eq!(spawn_tiles(&events, &mut board), Ok(()));
    assert_eq!(board.handles(), 2);
    assert_eq!(board.tile(TileId(0)), Ok(Tile(1)));
    assert_eq!(board.tile_at(Position::new(3, 3)), Some(TileId(1)));
    assert_eq!(spawn_tiles(&Vec::new(), &mut board), Ok(()));
    assert_eq!(board.handles(), 2);
}

#[test]
fn spawn_tiles_stops_at_the_first_tile_that_does_not_fit() {
    let mut board = Board::new();
    let events = vec![
        TileSpawnEvent { tile: Tile(1), position: Position::new(0, 0) },
        TileSpawnEvent { tile: Tile(2), position: Position::new(0, 0) },
        TileSpawnEvent { tile: Tile(2), position: Position::new(1, 1) },
    ];
    assert_eq!(
        spawn_tiles(&events, &mut board),
        Err(ModelFault::CellOccupied(Position::new(0, 0)))
    );
    assert_eq!(board.handles(), 1);
    let off = vec![TileSpawnEvent { tile: Tile(1), position: Position::new(4, 4) }];
    assert_eq!(
        spawn_tiles(&off, &mut board),
        Err(ModelFault::NoSuchCell(Position::new(4, 4)))
    );
    assert_eq!(board.handles(), 1);
}

#[test]
fn spawn_tiles_takes_no_tile_without_a_rank() {
    let mut board = Board::new();
    let events = vec![
        TileSpawnEvent { tile: Tile(3), position: Position::new(2, 2) },
        TileSpawnEvent { tile: Tile(0), position: Position::new(0, 0) },
    ];
    assert_eq!(
        spawn_tiles(&events, &mut board),
        Err(ModelFault::NoSuchRank(Tile(0)))
    );
    assert_eq!(board.handles(), 1);
    assert_eq!(board.tile(TileId(0)), Ok(Tile(3)));
}
