use bevy_prng::WyRand;
use game2048::board::{board_is_full, create_tile, get_positions_set, Board};
use game2048::calculate::{calc_sliced_movement, handle_player_input};
use game2048::error::ModelFault;
use game2048::events::{PlayerInputEvent, TileMovementEvent};
use game2048::game_over::{board_is_stuck, can_merge, get_ranks_layout, GameOverPlugin};
use game2048::game_state::GameState;
use game2048::position::Position;
use game2048::quarter_turn::QuarterTurn;
use game2048::session::{
    input_from_keyboard, CalculatePlugin, GamePluginGroup, InputPlugin, MovementPlugin,
    Session, SpawnPlugin,
};
use game2048::tile::{Tile, TileId};
use rand_core::SeedableRng;

fn seeded(seed: u64) -> WyRand {
    WyRand::from_seed(seed.to_ne_bytes())
}

/// A board with the given rank on the cell `(x, y)`, for `ranks[x][y]`.
fn board_of(ranks: [[u8; 4]; 4]) -> Board {
    let mut board = Board::new();
    for x in 0..4 {
        for y in 0..4 {
            if ranks[x][y] > 0 {
                create_tile(&mut board, Tile(ranks[x][y]), Position::new(x, y)).unwrap();
            }
        }
    }
    board
}

fn ranks_of(board: &Board) -> [[u8; 4]; 4] {
    let layout = get_ranks_layout(board);
    let mut ranks = [[0u8; 4]; 4];
    for x in 0..4 {
        for y in 0..4 {
            ranks[x][y] = layout.get(x, y).map(|tile| tile.0).unwrap_or(0);
        }
    }
    ranks
}

const ALTERNATING: [[u8; 4]; 4] = [[1, 2, 1, 2], [2, 1, 2, 1], [1, 2, 1, 2], [2, 1, 2, 1]];

const ALL_INPUTS: [PlayerInputEvent; 4] = [
    PlayerInputEvent::Left,
    PlayerInputEvent::Right,
    PlayerInputEvent::Up,
    PlayerInputEvent::Down,
];

#[test]
fn a_fresh_session_is_empty_and_waits() {
    let session = Session::new();
    assert_eq!(session.state(), GameState::Input);
    assert_eq!(session.score(), 0);
    assert_eq!(session.board().handles(), 0);
    assert!(session.movements().is_empty());
}

#[test]
fn a_session_starts_with_two_tiles() {
    let session = Session::start(&mut seeded(42));
    assert_eq!(session.state(), GameState::Input);
    assert_eq!(session.score(), 0);
    assert_eq!(get_positions_set(session.board()).len(), 2);
    // The generator seeded with 42 gives values with remainder 4 by 16 and,
    // two values later, remainder 7 by 15; both ranks come out as 1.
    assert_eq!(
        get_positions_set(session.board()),
        vec![Position::new(1, 0), Position::new(2, 0)]
    );
    assert_eq!(session.board().tile(TileId(0)), Ok(Tile(1)));
    assert_eq!(session.board().tile(TileId(1)), Ok(Tile(1)));
    assert_eq!(session.board().tile_at(Position::new(1, 0)), Some(TileId(0)));
}

#[test]
fn the_same_seed_starts_the_same_session() {
    let first = Session::start(&mut seeded(5));
    let second = Session::start(&mut seeded(5));
    assert_eq!(ranks_of(first.board()), ranks_of(second.board()));
}

#[test]
fn start_with_puts_one_tile_for_each_draw() {
    let session = Session::start_with(&vec![(0, 0), (0, 9), (14, 19)]);
    assert_eq!(session.state(), GameState::Input);
    // The third tile comes onto the empty cell with the number 14 % 14 = 0,
    // which is (0, 2): the cells before it are taken.
    assert_eq!(session.board().handles(), 3);
    assert_eq!(session.board().tile_at(Position::new(0, 0)), Some(TileId(0)));
    assert_eq!(session.board().tile_at(Position::new(0, 1)), Some(TileId(1)));
    assert_eq!(session.board().tile_at(Position::new(0, 2)), Some(TileId(2)));
    assert_eq!(session.board().tile(TileId(0)), Ok(Tile(1)));
    assert_eq!(session.board().tile(TileId(1)), Ok(Tile(2)));
    assert_eq!(session.board().tile(TileId(2)), Ok(Tile(2)));
    assert_eq!(Session::start_with(&Vec::new()).board().handles(), 0);
}

#[test]
fn a_turn_runs_through_its_four_stages() {
    let mut board = Board::new();
    let a = create_tile(&mut board, Tile(1), Position::new(0, 0)).unwrap();
    let b = create_tile(&mut board, Tile(1), Position::new(0, 3)).unwrap();
    let mut session = Session::with_board(board);
    let mut rng = seeded(0);
    assert_eq!(session.state(), GameState::Input);

    assert_eq!(GamePluginGroup::tick(&mut session, None, &mut rng), Ok(()));
    assert_eq!(session.state(), GameState::Input);

    assert_eq!(
        GamePluginGroup::tick(&mut session, Some(PlayerInputEvent::Down), &mut rng),
        Ok(())
    );
    assert_eq!(session.state(), GameState::Calculate);
    assert!(session.movements().is_empty());

    assert_eq!(GamePluginGroup::tick(&mut session, None, &mut rng), Ok(()));
    assert_eq!(session.state(), GameState::Movement);
    let turn = QuarterTurn::Deg000;
    assert_eq!(
        session.movements(),
        &vec![
            TileMovementEvent::OneStep(b, turn),
            TileMovementEvent::OneStep(b, turn),
            TileMovementEvent::Merge(a, b, turn),
        ]
    );
    assert_eq!(session.score(), 0);

    assert_eq!(GamePluginGroup::tick(&mut session, None, &mut rng), Ok(()));
    assert_eq!(session.state(), GameState::Spawn);
    assert_eq!(session.score(), 4);
    assert!(session.movements().is_empty());
    assert_eq!(get_positions_set(session.board()), vec![Position::new(0, 0)]);
    assert_eq!(session.board().tile(a), Ok(Tile(2)));
    assert_eq!(session.board().get(b), None);

    assert_eq!(GamePluginGroup::tick(&mut session, None, &mut rng), Ok(()));
    assert_eq!(session.state(), GameState::Input);
    assert_eq!(session.score(), 4);
    // The first value of the generator, 1233057930238600590, has remainder 0
    // by 15: the new tile comes onto the first of the 15 empty cells.
    assert_eq!(
        get_positions_set(session.board()),
        vec![Position::new(0, 0), Position::new(0, 1)]
    );
    assert_eq!(session.board().tile(TileId(2)), Ok(Tile(1)));
}

#[test]
fn input_is_dropped_while_a_turn_runs() {
    let mut session = Session::with_board(board_of([[1, 0, 0, 0], [0; 4], [0; 4], [0; 4]]));
    InputPlugin::run(&mut session, PlayerInputEvent::Up);
    assert_eq!(session.state(), GameState::Calculate);
    InputPlugin::run(&mut session, PlayerInputEvent::Down);
    assert_eq!(session.state(), GameState::Calculate);
    assert_eq!(CalculatePlugin::run(&mut session), Ok(()));
    // The move that was taken is the first one: the tile goes up.
    assert_eq!(session.movements().len(), 3);
    assert_eq!(
        session.movements()[0],
        TileMovementEvent::OneStep(TileId(0), QuarterTurn::Deg180)
    );
    InputPlugin::run(&mut session, PlayerInputEvent::Down);
    assert_eq!(session.state(), GameState::Movement);
    assert_eq!(session.movements().len(), 3);
}

#[test]
fn stages_do_nothing_out_of_their_state() {
    let mut session = Session::with_board(board_of([[1, 0, 0, 1], [0; 4], [0; 4], [0; 4]]));
    assert_eq!(CalculatePlugin::run(&mut session), Ok(()));
    assert_eq!(MovementPlugin::run(&mut session), Ok(()));
    SpawnPlugin::run_with(&mut session, 3, 3);
    SpawnPlugin::run(&mut session, &mut seeded(1));
    assert_eq!(session.state(), GameState::Input);
    assert_eq!(session.board().handles(), 2);
    assert_eq!(ranks_of(session.board()), [[1, 0, 0, 1], [0; 4], [0; 4], [0; 4]]);
}

#[test]
fn a_move_that_changes_nothing_brings_no_tile() {
    let before = [[1, 2, 0, 0], [3, 0, 0, 0], [0; 4], [1, 2, 3, 0]];
    let mut session = Session::with_board(board_of(before));
    let mut rng = seeded(3);
    assert_eq!(
        GamePluginGroup::tick(&mut session, Some(PlayerInputEvent::Down), &mut rng),
        Ok(())
    );
    assert_eq!(GamePluginGroup::tick(&mut session, None, &mut rng), Ok(()));
    assert_eq!(session.state(), GameState::Movement);
    assert!(session.movements().is_empty());
    assert_eq!(GamePluginGroup::tick(&mut session, None, &mut rng), Ok(()));
    assert_eq!(session.state(), GameState::Spawn);
    assert_eq!(GamePluginGroup::tick(&mut session, None, &mut rng), Ok(()));
    assert_eq!(session.state(), GameState::Input);
    assert_eq!(session.score(), 0);
    assert_eq!(session.board().handles(), 6);
    assert_eq!(ranks_of(session.board()), before);
}

#[test]
fn a_move_that_changes_the_board_brings_one_tile() {
    let mut session = Session::with_board(board_of([[0, 1, 0, 0], [0; 4], [0; 4], [0; 4]]));
    InputPlugin::run(&mut session, PlayerInputEvent::Down);
    assert_eq!(CalculatePlugin::run(&mut session), Ok(()));
    assert_eq!(MovementPlugin::run(&mut session), Ok(()));
    SpawnPlugin::run_with(&mut session, 16, 9);
    assert_eq!(session.state(), GameState::Input);
    assert_eq!(session.board().handles(), 2);
    // Of the 15 empty cells the one with the number 16 % 15 = 1 is (0, 2).
    let mut expected = [[0u8; 4]; 4];
    expected[0][0] = 1;
    expected[0][2] = 2;
    assert_eq!(ranks_of(session.board()), expected);
}

#[test]
fn a_full_board_without_equal_neighbours_is_stuck() {
    let board = board_of(ALTERNATING);
    assert!(board_is_full(&board));
    assert!(!can_merge(&board));
    assert!(board_is_stuck(&board));
}

#[test]
fn a_full_board_with_equal_neighbours_is_not_stuck() {
    let mut side_by_side = ALTERNATING;
    side_by_side[2][3] = 1;
    let board = board_of(side_by_side);
    assert!(board_is_full(&board));
    assert!(can_merge(&board));
    assert!(!board_is_stuck(&board));

    let mut one_above_the_other = ALTERNATING;
    one_above_the_other[0][0] = 2;
    let board = board_of(one_above_the_other);
    assert!(can_merge(&board));
    assert!(!board_is_stuck(&board));
}

#[test]
fn a_board_with_an_empty_cell_is_not_stuck() {
    let mut open = ALTERNATING;
    open[1][2] = 0;
    let board = board_of(open);
    assert!(!board_is_full(&board));
    assert!(!can_merge(&board));
    assert!(!board_is_stuck(&board));
    assert!(!board_is_stuck(&Board::new()));
}

#[test]
fn equal_tiles_that_only_touch_at_a_corner_do_not_merge() {
    let board = board_of([[1, 0, 0, 0], [0, 1, 0, 0], [0, 0, 1, 0], [0, 0, 0, 1]]);
    assert!(!can_merge(&board));
    let board = board_of([[1, 0, 1, 0], [0; 4], [1, 0, 1, 0], [0; 4]]);
    assert!(!can_merge(&board));
    let board = board_of([[0; 4], [0, 3, 3, 0], [0; 4], [0; 4]]);
    assert!(can_merge(&board));
    let board = board_of([[0; 4], [0, 3, 0, 0], [0, 3, 0, 0], [0; 4]]);
    assert!(can_merge(&board));
}

#[test]
fn the_session_ends_when_the_new_tile_fills_a_stuck_board() {
    // After the move down, the only empty cell is (0, 3), between a tile of
    // rank 3 and a tile of rank 1: a new tile of rank 2 leaves nothing to
    // merge, a new tile of rank 1 can merge with its neighbour.
    let mut start = ALTERNATING;
    start[0] = [1, 0, 2, 3];
    for (tile_bits, expected) in [(9u32, GameState::GameOver), (0u32, GameState::Input)] {
        let mut session = Session::with_board(board_of(start));
        InputPlugin::run(&mut session, PlayerInputEvent::Down);
        assert_eq!(CalculatePlugin::run(&mut session), Ok(()));
        assert_eq!(MovementPlugin::run(&mut session), Ok(()));
        assert_eq!(session.state(), GameState::Spawn);
        SpawnPlugin::run_with(&mut session, 0, tile_bits);
        assert!(board_is_full(session.board()));
        assert_eq!(session.state(), expected);
        assert_eq!(board_is_stuck(session.board()), expected == GameState::GameOver);
    }
}

#[test]
fn a_finished_session_takes_no_move_and_brings_no_tile() {
    let mut session = Session::with_board(board_of(ALTERNATING));
    assert_eq!(session.state(), GameState::GameOver);
    for input in ALL_INPUTS {
        let slices = handle_player_input(session.board(), input);
        assert_eq!(calc_sliced_movement(&slices, session.board()), Ok(vec![]));
    }
    let mut rng = seeded(11);
    for input in ALL_INPUTS {
        for _ in 0..5 {
            assert_eq!(GamePluginGroup::tick(&mut session, Some(input), &mut rng), Ok(()));
            assert_eq!(session.state(), GameState::GameOver);
            assert_eq!(session.board().handles(), 16);
            assert_eq!(ranks_of(session.board()), ALTERNATING);
            assert_eq!(session.score(), 0);
            assert!(session.movements().is_empty());
        }
        assert_eq!(GamePluginGroup::tick_with(&mut session, Some(input), 1, 1), Ok(()));
        InputPlugin::run(&mut session, input);
        assert_eq!(session.state(), GameState::GameOver);
    }
}

#[test]
fn ticks_with_the_same_seed_play_the_same_game() {
    let mut first = Session::start(&mut seeded(77));
    let mut second = Session::start(&mut seeded(77));
    let mut first_rng = seeded(78);
    let mut second_rng = seeded(78);
    let mut score = 0;
    for round in 0..200 {
        let input = ALL_INPUTS[round % 4];
        for _ in 0..4 {
            assert_eq!(GamePluginGroup::tick(&mut first, Some(input), &mut first_rng), Ok(()));
            assert_eq!(GamePluginGroup::tick(&mut second, Some(input), &mut second_rng), Ok(()));
            assert_eq!(first.state(), second.state());
            assert_eq!(ranks_of(first.board()), ranks_of(second.board()));
            assert!(first.score() >= score);
            score = first.score();
        }
        assert!(first.state() == GameState::Input || first.state() == GameState::GameOver);
        assert_eq!(first.state() == GameState::GameOver, board_is_stuck(first.board()));
    }
    assert_eq!(first.score(), second.score());
}

#[test]
fn a_game_is_played_stage_by_stage_until_it_is_over() {
    let mut rng = seeded(2048);
    let mut session = Session::start(&mut rng);
    let mut turns = 0;
    while !GameOverPlugin::run(&session) {
        assert!(turns < 100_000);
        let input = input_from_keyboard(turns % 4 == 0, turns % 4 == 1, turns % 4 == 2, true);
        let tiles_before = get_positions_set(session.board()).len();
        InputPlugin::run(&mut session, input.unwrap());
        assert_eq!(session.state(), GameState::Calculate);
        assert_eq!(CalculatePlugin::run(&mut session), Ok(()));
        assert_eq!(session.state(), GameState::Movement);
        let events = session.movements().clone();
        let merges = events
            .iter()
            .filter(|event| matches!(event, TileMovementEvent::Merge(_, _, _)))
            .count();
        assert!(events.len() <= 24);
        assert_eq!(MovementPlugin::run(&mut session), Ok(()));
        assert_eq!(session.state(), GameState::Spawn);
        assert_eq!(get_positions_set(session.board()).len() + merges, tiles_before);
        SpawnPlugin::run(&mut session, &mut rng);
        let new_tiles = if events.is_empty() { 0 } else { 1 };
        assert_eq!(
            get_positions_set(session.board()).len() + merges,
            tiles_before + new_tiles
        );
        assert!(session.state() == GameState::Input || session.state() == GameState::GameOver);
        turns += 1;
    }
    assert!(board_is_stuck(session.board()));
    assert!(board_is_full(session.board()));
    assert!(session.score() > 0);
    // Every handle that was given out is either on the board or was merged away.
    let live = (0..session.board().handles())
        .filter(|handle| session.board().get(TileId(*handle)).is_some())
        .count();
    assert_eq!(live, 16);
}

#[test]
fn a_merge_at_the_highest_rank_ends_the_run_and_the_session_goes_on() {
    let mut board = Board::new();
    let a = create_tile(&mut board, Tile(1), Position::new(0, 1)).unwrap();
    let b = create_tile(&mut board, Tile(255), Position::new(1, 0)).unwrap();
    let c = create_tile(&mut board, Tile(255), Position::new(1, 1)).unwrap();
    let d = create_tile(&mut board, Tile(2), Position::new(2, 3)).unwrap();
    let mut session = Session::with_board(board);
    let mut rng = seeded(1);
    assert_eq!(
        GamePluginGroup::tick(&mut session, Some(PlayerInputEvent::Down), &mut rng),
        Ok(())
    );
    assert_eq!(GamePluginGroup::tick(&mut session, None, &mut rng), Ok(()));
    assert_eq!(session.movements().len(), 5);
    // The step of the first line is applied; the merge of the second line is not.
    assert_eq!(
        GamePluginGroup::tick(&mut session, None, &mut rng),
        Err(ModelFault::RankExhausted(b))
    );
    assert_eq!(session.state(), GameState::Movement);
    assert!(session.movements().is_empty());
    assert_eq!(session.score(), 0);
    assert_eq!(session.board().get(a).unwrap().position, Position::new(0, 0));
    assert_eq!(session.board().tile(b), Ok(Tile(255)));
    assert_eq!(session.board().tile(c), Ok(Tile(255)));
    assert_eq!(session.board().get(d).unwrap().position, Position::new(2, 3));
    // The session goes on: nothing is left to apply, and no new tile comes.
    assert_eq!(GamePluginGroup::tick(&mut session, None, &mut rng), Ok(()));
    assert_eq!(session.state(), GameState::Spawn);
    assert_eq!(GamePluginGroup::tick(&mut session, None, &mut rng), Ok(()));
    assert_eq!(session.state(), GameState::Input);
    assert_eq!(session.board().handles(), 4);
}
