use game2048::board::{create_tile, get_positions_set, Board};
use game2048::calculate::{calc_sliced_movement, calc_tiles_slice, handle_player_input};
use game2048::error::ModelFault;
use game2048::events::{PlayerInputEvent, SlicedMovementEvent, TileMovementEvent};
use game2048::movement::{apply_movement, move_tiles};
use game2048::position::Position;
use game2048::quarter_turn::QuarterTurn;
use game2048::score::Score;
use game2048::tile::{Tile, TileId};

/// A board with one line of tiles: `ranks[j]` stands on the cell `(0, j)`.
fn line_board(ranks: &[Option<u8>]) -> (Board, Vec<Option<TileId>>) {
    let mut board = Board::new();
    let mut line = Vec::new();
    for (j, rank) in ranks.iter().enumerate() {
        match rank {
            Some(rank) => {
                let id = create_tile(&mut board, Tile(*rank), Position::new(0, j)).unwrap();
                line.push(Some(id));
            }
            None => line.push(None),
        }
    }
    (board, line)
}

/// The ranks on the cells `(0, 0)` to `(0, 3)`.
fn line_ranks(board: &Board) -> Vec<Option<u8>> {
    (0..4)
        .map(|j| {
            board
                .tile_at(Position::new(0, j))
                .map(|id| board.get(id).unwrap().tile.0)
        })
        .collect()
}

/// Resolves the line of `ranks` toward column 0, applies what comes of it and
/// returns the events, the ranks of the line afterwards and the points.
fn slide(ranks: &[Option<u8>]) -> (Vec<TileMovementEvent>, Vec<Option<u8>>, usize) {
    let (mut board, line) = line_board(ranks);
    let events = calc_tiles_slice(&line, QuarterTurn::Deg000, &board).unwrap();
    let mut score = Score::default();
    assert_eq!(move_tiles(&events, &mut board, &mut score), Ok(()));
    (events, line_ranks(&board), score.value())
}

fn count_merges(events: &[TileMovementEvent]) -> usize {
    events
        .iter()
        .filter(|event| matches!(event, TileMovementEvent::Merge(_, _, _)))
        .count()
}

const TURN: QuarterTurn = QuarterTurn::Deg000;

#[test]
fn two_twos_and_a_four_merge_once() {
    // Tiles showing 2, 2, 4 and a gap: ranks 1, 1, 2.
    let (events, ranks, points) = slide(&[Some(1), Some(1), Some(2), None]);
    assert_eq!(
        events,
        vec![
            TileMovementEvent::Merge(TileId(0), TileId(1), TURN),
            TileMovementEvent::OneStep(TileId(2), TURN),
        ]
    );
    assert_eq!(count_merges(&events), 1);
    // The two 2s make a 4, and the 4 behind them does not merge with it in the same move.
    assert_eq!(ranks, vec![Some(2), Some(2), None, None]);
    assert_eq!(points, 4);
}

#[test]
fn two_fours_and_a_four_make_an_eight_and_a_four() {
    let (events, ranks, points) = slide(&[Some(2), Some(2), Some(2), None]);
    assert_eq!(count_merges(&events), 1);
    assert_eq!(ranks, vec![Some(3), Some(2), None, None]);
    assert_eq!(Tile(3).num(), 8);
    assert_eq!(points, 8);
}

#[test]
fn a_lone_tile_at_the_end_takes_three_steps() {
    let (events, ranks, points) = slide(&[None, None, None, Some(1)]);
    assert_eq!(
        events,
        vec![
            TileMovementEvent::OneStep(TileId(0), TURN),
            TileMovementEvent::OneStep(TileId(0), TURN),
            TileMovementEvent::OneStep(TileId(0), TURN),
        ]
    );
    assert_eq!(count_merges(&events), 0);
    assert_eq!(ranks, vec![Some(1), None, None, None]);
    assert_eq!(points, 0);
}

#[test]
fn an_empty_line_resolves_to_nothing() {
    let (events, ranks, points) = slide(&[None, None, None, None]);
    assert_eq!(events, vec![]);
    assert_eq!(ranks, vec![None, None, None, None]);
    assert_eq!(points, 0);
    let board = Board::new();
    assert_eq!(calc_tiles_slice(&Vec::new(), TURN, &board), Ok(vec![]));
}

#[test]
fn a_settled_line_resolves_to_nothing() {
    for ranks in [
        vec![Some(1), None, None, None],
        vec![Some(1), Some(2), None, None],
        vec![Some(1), Some(2), Some(1), None],
        vec![Some(1), Some(2), Some(1), Some(2)],
        vec![Some(3), Some(1), Some(2), Some(5)],
    ] {
        let (events, after, points) = slide(&ranks);
        assert_eq!(events, vec![]);
        assert_eq!(after, ranks);
        assert_eq!(points, 0);
    }
}

#[test]
fn four_equal_tiles_merge_in_two_pairs() {
    let (events, ranks, points) = slide(&[Some(1), Some(1), Some(1), Some(1)]);
    assert_eq!(
        events,
        vec![
            TileMovementEvent::Merge(TileId(0), TileId(1), TURN),
            TileMovementEvent::OneStep(TileId(2), TURN),
            TileMovementEvent::OneStep(TileId(3), TURN),
            TileMovementEvent::Merge(TileId(2), TileId(3), TURN),
        ]
    );
    assert_eq!(ranks, vec![Some(2), Some(2), None, None]);
    assert_eq!(points, 8);
}

#[test]
fn the_nearest_pair_merges() {
    let (events, ranks, points) = slide(&[Some(1), Some(1), Some(1), None]);
    assert_eq!(count_merges(&events), 1);
    assert_eq!(ranks, vec![Some(2), Some(1), None, None]);
    assert_eq!(points, 4);
}

#[test]
fn tiles_merge_across_gaps() {
    let (events, ranks, points) = slide(&[Some(2), None, None, Some(2)]);
    assert_eq!(
        events,
        vec![
            TileMovementEvent::OneStep(TileId(1), TURN),
            TileMovementEvent::OneStep(TileId(1), TURN),
            TileMovementEvent::Merge(TileId(0), TileId(1), TURN),
        ]
    );
    assert_eq!(ranks, vec![Some(3), None, None, None]);
    assert_eq!(points, 8);
}

#[test]
fn a_gap_in_front_lets_everything_step() {
    let (events, ranks, points) = slide(&[None, Some(1), None, Some(2)]);
    assert_eq!(
        events,
        vec![
            TileMovementEvent::OneStep(TileId(0), TURN),
            TileMovementEvent::OneStep(TileId(1), TURN),
            TileMovementEvent::OneStep(TileId(1), TURN),
        ]
    );
    assert_eq!(ranks, vec![Some(1), Some(2), None, None]);
    assert_eq!(points, 0);
}

#[test]
fn no_tile_is_part_of_two_merges() {
    let patterns: Vec<Vec<Option<u8>>> = vec![
        vec![Some(1), Some(1), Some(1), Some(1)],
        vec![Some(1), Some(1), Some(2), Some(2)],
        vec![Some(2), Some(1), Some(1), Some(2)],
        vec![None, Some(1), Some(1), Some(1)],
        vec![Some(1), None, Some(1), Some(2)],
        vec![Some(3), Some(3), None, Some(3)],
    ];
    for ranks in patterns {
        let (events, _, _) = slide(&ranks);
        let mut merged: Vec<TileId> = Vec::new();
        for event in &events {
            if let TileMovementEvent::Merge(survivor, absorbed, _) = event {
                assert_ne!(survivor, absorbed);
                assert!(!merged.contains(survivor));
                assert!(!merged.contains(absorbed));
                merged.push(*survivor);
                merged.push(*absorbed);
            }
        }
    }
}

#[test]
fn merges_take_tiles_off_the_board_and_steps_do_not() {
    let patterns: Vec<Vec<Option<u8>>> = vec![
        vec![Some(1), Some(1), Some(1), Some(1)],
        vec![None, None, Some(2), Some(2)],
        vec![None, Some(1), None, Some(2)],
        vec![Some(1), Some(2), Some(2), Some(1)],
    ];
    for ranks in patterns {
        let (mut board, line) = line_board(&ranks);
        let before = get_positions_set(&board).len();
        let events = calc_tiles_slice(&line, TURN, &board).unwrap();
        let mut score = Score::default();
        assert_eq!(move_tiles(&events, &mut board, &mut score), Ok(()));
        let after = get_positions_set(&board).len();
        assert_eq!(after + count_merges(&events), before);
    }
}

#[test]
fn the_score_grows_by_the_number_on_each_merged_tile() {
    let (mut board, line) = line_board(&[Some(3), Some(3), Some(5), Some(5)]);
    let events = calc_tiles_slice(&line, TURN, &board).unwrap();
    let mut score = Score::default();
    score.add(100);
    assert_eq!(move_tiles(&events, &mut board, &mut score), Ok(()));
    assert_eq!(score.value(), 100 + 16 + 64);
    assert_eq!(line_ranks(&board), vec![Some(4), Some(6), None, None]);
}

#[test]
fn a_missing_tile_is_a_fault_of_the_resolver() {
    let (board, mut line) = line_board(&[Some(1), Some(1), None, None]);
    line[1] = Some(TileId(17));
    assert_eq!(
        calc_tiles_slice(&line, TURN, &board),
        Err(ModelFault::NoSuchTile(TileId(17)))
    );
    line[0] = Some(TileId(16));
    assert_eq!(
        calc_tiles_slice(&line, TURN, &board),
        Err(ModelFault::NoSuchTile(TileId(16)))
    );
}

#[test]
fn the_first_faulty_slice_ends_the_resolution() {
    let (board, line) = line_board(&[Some(1), Some(1), None, None]);
    let slices = vec![
        SlicedMovementEvent(line.clone(), TURN),
        SlicedMovementEvent(vec![Some(TileId(0)), Some(TileId(9))], TURN),
        SlicedMovementEvent(vec![Some(TileId(8)), Some(TileId(7))], TURN),
    ];
    assert_eq!(
        calc_sliced_movement(&slices, &board),
        Err(ModelFault::NoSuchTile(TileId(9)))
    );
    let sound = vec![
        SlicedMovementEvent(vec![None, Some(TileId(1))], TURN),
        SlicedMovementEvent(line, QuarterTurn::Deg180),
    ];
    assert_eq!(
        calc_sliced_movement(&sound, &board),
        Ok(vec![
            TileMovementEvent::OneStep(TileId(1), TURN),
            TileMovementEvent::Merge(TileId(0), TileId(1), QuarterTurn::Deg180),
        ])
    );
}

#[test]
fn a_step_of_a_missing_tile_is_a_fault() {
    let mut board = Board::new();
    let mut score = Score::default();
    assert_eq!(
        apply_movement(TileMovementEvent::OneStep(TileId(0), TURN), &mut board, &mut score),
        Err(ModelFault::NoSuchTile(TileId(0)))
    );
    let a = create_tile(&mut board, Tile(1), Position::new(1, 1)).unwrap();
    board.despawn(a);
    assert_eq!(
        apply_movement(TileMovementEvent::OneStep(a, TURN), &mut board, &mut score),
        Err(ModelFault::NoSuchTile(a))
    );
}

#[test]
fn a_step_off_the_board_is_a_fault() {
    for (position, turn) in [
        (Position::new(1, 0), QuarterTurn::Deg000),
        (Position::new(0, 1), QuarterTurn::Deg090),
        (Position::new(1, 3), QuarterTurn::Deg180),
        (Position::new(3, 1), QuarterTurn::Deg270),
    ] {
        let mut board = Board::new();
        let mut score = Score::default();
        let a = create_tile(&mut board, Tile(1), position).unwrap();
        assert_eq!(
            apply_movement(TileMovementEvent::OneStep(a, turn), &mut board, &mut score),
            Err(ModelFault::OffBoard(a))
        );
        assert_eq!(board.get(a).unwrap().position, position);
    }
}

#[test]
fn a_step_onto_a_tile_is_a_fault() {
    let mut board = Board::new();
    let mut score = Score::default();
    create_tile(&mut board, Tile(1), Position::new(2, 0)).unwrap();
    let b = create_tile(&mut board, Tile(2), Position::new(2, 1)).unwrap();
    assert_eq!(
        apply_movement(TileMovementEvent::OneStep(b, TURN), &mut board, &mut score),
        Err(ModelFault::CellOccupied(Position::new(2, 0)))
    );
    assert_eq!(board.get(b).unwrap().position, Position::new(2, 1));
}

#[test]
fn a_merge_needs_both_tiles() {
    let mut board = Board::new();
    let mut score = Score::default();
    let a = create_tile(&mut board, Tile(1), Position::new(0, 0)).unwrap();
    assert_eq!(
        apply_movement(TileMovementEvent::Merge(a, TileId(5), TURN), &mut board, &mut score),
        Err(ModelFault::NoSuchTile(TileId(5)))
    );
    assert_eq!(
        apply_movement(TileMovementEvent::Merge(TileId(4), a, TURN), &mut board, &mut score),
        Err(ModelFault::NoSuchTile(TileId(4)))
    );
    assert_eq!(board.tile(a), Ok(Tile(1)));
    assert_eq!(score.value(), 0);
}

#[test]
fn the_highest_rank_cannot_be_raised() {
    let mut board = Board::new();
    let mut score = Score::default();
    let a = create_tile(&mut board, Tile(255), Position::new(0, 0)).unwrap();
    let b = create_tile(&mut board, Tile(255), Position::new(0, 1)).unwrap();
    assert_eq!(
        apply_movement(TileMovementEvent::Merge(a, b, TURN), &mut board, &mut score),
        Err(ModelFault::RankExhausted(a))
    );
    assert_eq!(board.tile(a), Ok(Tile(255)));
    assert_eq!(board.tile(b), Ok(Tile(255)));
}

#[test]
fn points_that_do_not_fit_are_a_fault() {
    let mut board = Board::new();
    let mut score = Score::default();
    let top = (usize::BITS - 1) as u8;
    let a = create_tile(&mut board, Tile(top), Position::new(0, 0)).unwrap();
    let b = create_tile(&mut board, Tile(top), Position::new(0, 1)).unwrap();
    assert_eq!(
        apply_movement(TileMovementEvent::Merge(a, b, TURN), &mut board, &mut score),
        Err(ModelFault::ScoreExhausted)
    );
    assert_eq!(board.tile(a), Ok(Tile(top)));
    assert_eq!(board.tile(b), Ok(Tile(top)));

    let c = create_tile(&mut board, Tile(2), Position::new(1, 0)).unwrap();
    let d = create_tile(&mut board, Tile(2), Position::new(1, 1)).unwrap();
    score.add(usize::MAX - 7);
    assert_eq!(
        apply_movement(TileMovementEvent::Merge(c, d, TURN), &mut board, &mut score),
        Err(ModelFault::ScoreExhausted)
    );
    assert_eq!(score.value(), usize::MAX - 7);
    assert_eq!(board.tile(c), Ok(Tile(2)));
}

#[test]
fn a_fault_keeps_what_was_applied_before_it() {
    let mut board = Board::new();
    let mut score = Score::default();
    let a = create_tile(&mut board, Tile(1), Position::new(0, 2)).unwrap();
    let events = vec![
        TileMovementEvent::OneStep(a, TURN),
        TileMovementEvent::OneStep(a, TURN),
        TileMovementEvent::OneStep(a, TURN),
        TileMovementEvent::OneStep(a, TURN),
    ];
    assert_eq!(
        move_tiles(&events, &mut board, &mut score),
        Err(ModelFault::OffBoard(a))
    );
    assert_eq!(board.get(a).unwrap().position, Position::new(0, 0));
}

/// A board with a single tile in the middle, moved once in the given direction.
fn moved_once(input: PlayerInputEvent) -> Position {
    let mut board = Board::new();
    let a = create_tile(&mut board, Tile(1), Position::new(1, 2)).unwrap();
    let slices = handle_player_input(&board, input);
    let events = calc_sliced_movement(&slices, &board).unwrap();
    let mut score = Score::default();
    assert_eq!(move_tiles(&events, &mut board, &mut score), Ok(()));
    board.get(a).unwrap().position
}

#[test]
fn each_direction_moves_toward_its_edge() {
    assert_eq!(moved_once(PlayerInputEvent::Down), Position::new(1, 0));
    assert_eq!(moved_once(PlayerInputEvent::Up), Position::new(1, 3));
    assert_eq!(moved_once(PlayerInputEvent::Left), Position::new(0, 2));
    assert_eq!(moved_once(PlayerInputEvent::Right), Position::new(3, 2));
}

#[test]
fn slices_are_the_lines_seen_through_the_turn() {
    let mut board = Board::new();
    let a = create_tile(&mut board, Tile(1), Position::new(0, 0)).unwrap();
    let b = create_tile(&mut board, Tile(1), Position::new(3, 1)).unwrap();
    let down = handle_player_input(&board, PlayerInputEvent::Down);
    assert_eq!(down.len(), 4);
    assert_eq!(down[0].0, vec![Some(a), None, None, None]);
    assert_eq!(down[3].0, vec![None, Some(b), None, None]);
    assert_eq!(down[0].1, QuarterTurn::Deg000);
    let left = handle_player_input(&board, PlayerInputEvent::Left);
    assert_eq!(left.len(), 4);
    // Line i holds the cells (j, 3 - i) for j = 0, 1, 2, 3.
    assert_eq!(left[3].0, vec![Some(a), None, None, None]);
    assert_eq!(left[2].0, vec![None, None, None, Some(b)]);
    assert_eq!(left[1].1, QuarterTurn::Deg090);
    let up = handle_player_input(&board, PlayerInputEvent::Up);
    assert_eq!(up[3].0, vec![None, None, None, Some(a)]);
    assert_eq!(up[0].0, vec![None, None, Some(b), None]);
    let right = handle_player_input(&board, PlayerInputEvent::Right);
    assert_eq!(right[0].0, vec![None, None, None, Some(a)]);
    assert_eq!(right[1].0, vec![Some(b), None, None, None]);
}

#[test]
fn a_whole_move_merges_in_every_line() {
    let mut board = Board::new();
    // Two lines along y: x = 0 holds 2 2 _ _, x = 2 holds _ 4 _ 4.
    create_tile(&mut board, Tile(1), Position::new(0, 0)).unwrap();
    create_tile(&mut board, Tile(1), Position::new(0, 1)).unwrap();
    create_tile(&mut board, Tile(2), Position::new(2, 1)).unwrap();
    create_tile(&mut board, Tile(2), Position::new(2, 3)).unwrap();
    let slices = handle_player_input(&board, PlayerInputEvent::Down);
    let events = calc_sliced_movement(&slices, &board).unwrap();
    assert_eq!(count_merges(&events), 2);
    let mut score = Score::default();
    assert_eq!(move_tiles(&events, &mut board, &mut score), Ok(()));
    assert_eq!(score.value(), 4 + 8);
    assert_eq!(get_positions_set(&board), vec![Position::new(0, 0), Position::new(2, 0)]);
    assert_eq!(board.tile(board.tile_at(Position::new(0, 0)).unwrap()), Ok(Tile(2)));
    assert_eq!(board.tile(board.tile_at(Position::new(2, 0)).unwrap()), Ok(Tile(3)));
}

/// A board with the rank `ranks[x][y]` on the cell `(x, y)`, where 0 stands for no tile.
fn board_of(ranks: [[u8; 4]; 4]) -> Board {
    let mut board = Board::new();
    for x in 0..4 {
        for y in 0..4 {
            if ranks[x][y] > 0 {
                create_tile(&mut board, Tile(ranks[x][y]), Position::new(x, y)).unwrap();
            }
        }
    }
    board
}

fn ranks_of(board: &Board) -> [[u8; 4]; 4] {
    let mut ranks = [[0u8; 4]; 4];
    for x in 0..4 {
        for y in 0..4 {
            if let Some(id) = board.tile_at(Position::new(x, y)) {
                ranks[x][y] = board.get(id).unwrap().tile.0;
            }
        }
    }
    ranks
}

/// Plays one move on the board of `ranks` and returns the ranks and the points after it.
fn play(ranks: [[u8; 4]; 4], input: PlayerInputEvent) -> ([[u8; 4]; 4], usize) {
    let mut board = board_of(ranks);
    let slices = handle_player_input(&board, input);
    let events = calc_sliced_movement(&slices, &board).unwrap();
    let mut score = Score::default();
    assert_eq!(move_tiles(&events, &mut board, &mut score), Ok(()));
    (ranks_of(&board), score.value())
}

#[test]
fn a_move_slides_every_line_to_its_edge() {
    let start = [[1, 1, 2, 2], [0, 3, 0, 3], [4, 0, 0, 0], [1, 2, 1, 2]];
    assert_eq!(
        play(start, PlayerInputEvent::Down),
        ([[2, 3, 0, 0], [4, 0, 0, 0], [4, 0, 0, 0], [1, 2, 1, 2]], 4 + 8 + 16)
    );
    assert_eq!(
        play(start, PlayerInputEvent::Up),
        ([[0, 0, 2, 3], [0, 0, 0, 4], [0, 0, 0, 4], [1, 2, 1, 2]], 8 + 4 + 16)
    );
    assert_eq!(
        play(start, PlayerInputEvent::Left),
        ([[1, 1, 2, 2], [4, 3, 1, 3], [1, 2, 0, 2], [0, 0, 0, 0]], 0)
    );
    assert_eq!(
        play(start, PlayerInputEvent::Right),
        ([[0, 0, 0, 0], [1, 1, 0, 2], [4, 3, 2, 3], [1, 2, 1, 2]], 0)
    );
}

/// The line of ranks after a slide toward its front, and the points it brings:
/// the tiles without gaps, with equal neighbours merged pairwise from the front.
fn pushed_together(line: [u8; 4]) -> ([u8; 4], usize) {
    let tiles: Vec<u8> = line.iter().copied().filter(|rank| *rank > 0).collect();
    let mut after = [0u8; 4];
    let mut points = 0;
    let mut from = 0;
    let mut to = 0;
    while from < tiles.len() {
        if from + 1 < tiles.len() && tiles[from] == tiles[from + 1] {
            after[to] = tiles[from] + 1;
            points += 1usize << after[to];
            from += 2;
        } else {
            after[to] = tiles[from];
            from += 1;
        }
        to += 1;
    }
    (after, points)
}

/// The cell of the board that stands at column `j` of line `i` for each move.
fn cell_of(input: PlayerInputEvent, i: usize, j: usize) -> (usize, usize) {
    match input {
        PlayerInputEvent::Down => (i, j),
        PlayerInputEvent::Left => (j, 3 - i),
        PlayerInputEvent::Up => (3 - i, 3 - j),
        PlayerInputEvent::Right => (3 - j, i),
    }
}

#[test]
fn every_move_pushes_every_line_together() {
    let mut state: u64 = 0x2048;
    let mut next = move || {
        state = state.wrapping_mul(6364136223846793005).wrapping_add(1442695040888963407);
        (state >> 33) as u8
    };
    for _ in 0..300 {
        let mut ranks = [[0u8; 4]; 4];
        for x in 0..4 {
            for y in 0..4 {
                ranks[x][y] = next() % 4;
            }
        }
        for input in [
            PlayerInputEvent::Down,
            PlayerInputEvent::Left,
            PlayerInputEvent::Up,
            PlayerInputEvent::Right,
        ] {
            let mut expected = [[0u8; 4]; 4];
            let mut expected_points = 0;
            for i in 0..4 {
                let mut line = [0u8; 4];
                for j in 0..4 {
                    let (x, y) = cell_of(input, i, j);
                    line[j] = ranks[x][y];
                }
                let (after, points) = pushed_together(line);
                expected_points += points;
                for j in 0..4 {
                    let (x, y) = cell_of(input, i, j);
                    expected[x][y] = after[j];
                }
            }
            assert_eq!(play(ranks, input), (expected, expected_points));
        }
    }
}

#[test]
fn a_move_has_at_most_six_events_in_each_line() {
    // Four lines with two gaps in front of two equal tiles: five events each.
    let board = board_of([[0, 0, 1, 1], [0, 0, 2, 2], [0, 0, 3, 3], [0, 0, 1, 1]]);
    let slices = handle_player_input(&board, PlayerInputEvent::Down);
    let events = calc_sliced_movement(&slices, &board).unwrap();
    assert_eq!(events.len(), 20);
    // Two gaps in front of two different tiles: four steps.
    let (events, _, _) = slide(&[None, None, Some(1), Some(2)]);
    assert_eq!(events.len(), 4);
    let (events, _, _) = slide(&[None, Some(1), Some(1), Some(2)]);
    assert_eq!(events.len(), 5);
}
