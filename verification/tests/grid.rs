use game2048::board::{
    board_is_full, create_tile, generate_universal_position_set, get_positions_complement_set,
    get_positions_set, get_tiles_layout, get_tiles_layout_with_entity, Board, TileBundle,
};
use game2048::error::ModelFault;
use game2048::grid_array::{GridArray, RotatedGridArray};
use game2048::position::Position;
use game2048::quarter_turn::QuarterTurn;
use game2048::tile::{Tile, TileId};

/// The grid that holds `10 * x + y` in the cell `(x, y)`.
fn numbered_grid() -> GridArray<usize> {
    let mut grid = GridArray::new(0usize);
    for x in 0..4 {
        for y in 0..4 {
            grid.set(x, y, 10 * x + y);
        }
    }
    grid
}

fn grid_from_rows(rows: &Vec<Vec<usize>>) -> GridArray<usize> {
    let mut grid = GridArray::new(0usize);
    for x in 0..4 {
        for y in 0..4 {
            grid.set(x, y, rows[x][y]);
        }
    }
    grid
}

fn inverse(turn: QuarterTurn) -> QuarterTurn {
    match turn {
        QuarterTurn::Deg000 => QuarterTurn::Deg000,
        QuarterTurn::Deg090 => QuarterTurn::Deg270,
        QuarterTurn::Deg180 => QuarterTurn::Deg180,
        QuarterTurn::Deg270 => QuarterTurn::Deg090,
    }
}

#[test]
fn new_grid_holds_the_value_everywhere() {
    let grid = GridArray::new(7u8);
    for x in 0..4 {
        for y in 0..4 {
            assert_eq!(grid.get(x, y), 7);
        }
    }
}

#[test]
fn set_changes_one_cell_only() {
    let mut grid = GridArray::new(0u8);
    grid.set(2, 1, 9);
    for x in 0..4 {
        for y in 0..4 {
            assert_eq!(grid.get(x, y), if (x, y) == (2, 1) { 9 } else { 0 });
        }
    }
}

#[test]
fn rotated_grid_is_four_by_four() {
    for turn in [
        QuarterTurn::Deg000,
        QuarterTurn::Deg090,
        QuarterTurn::Deg180,
        QuarterTurn::Deg270,
    ] {
        let rotated = RotatedGridArray::new(numbered_grid(), turn);
        assert_eq!(rotated.width(), 4);
        assert_eq!(rotated.height(), 4);
    }
}

#[test]
fn no_turn_reads_the_grid_itself() {
    let rows = RotatedGridArray::new(numbered_grid(), QuarterTurn::Deg000).into_vec();
    for i in 0..4 {
        for j in 0..4 {
            assert_eq!(rows[i][j], 10 * i + j);
        }
    }
}

#[test]
fn quarter_turn_reads_j_and_three_minus_i() {
    let rows = RotatedGridArray::new(numbered_grid(), QuarterTurn::Deg090).into_vec();
    for i in 0..4 {
        for j in 0..4 {
            assert_eq!(rows[i][j], 10 * j + (3 - i));
        }
    }
    assert_eq!(rows[0], vec![3, 13, 23, 33]);
}

#[test]
fn half_turn_reads_three_minus_i_and_three_minus_j() {
    let rows = RotatedGridArray::new(numbered_grid(), QuarterTurn::Deg180).into_vec();
    for i in 0..4 {
        for j in 0..4 {
            assert_eq!(rows[i][j], 10 * (3 - i) + (3 - j));
        }
    }
    assert_eq!(rows[0], vec![33, 32, 31, 30]);
}

#[test]
fn three_quarter_turn_reads_three_minus_j_and_i() {
    let rows = RotatedGridArray::new(numbered_grid(), QuarterTurn::Deg270).into_vec();
    for i in 0..4 {
        for j in 0..4 {
            assert_eq!(rows[i][j], 10 * (3 - j) + i);
        }
    }
    assert_eq!(rows[0], vec![30, 20, 10, 0]);
}

#[test]
fn rotated_get_is_none_outside_the_grid() {
    let rotated = RotatedGridArray::new(numbered_grid(), QuarterTurn::Deg090);
    assert_eq!(rotated.get(0, 0), Some(&3));
    assert_eq!(rotated.get(3, 3), Some(&30));
    assert_eq!(rotated.get(4, 0), None);
    assert_eq!(rotated.get(0, 4), None);
}

#[test]
fn turning_there_and_back_gives_the_grid() {
    for turn in [
        QuarterTurn::Deg000,
        QuarterTurn::Deg090,
        QuarterTurn::Deg180,
        QuarterTurn::Deg270,
    ] {
        let there = RotatedGridArray::new(numbered_grid(), turn).into_vec();
        let back = RotatedGridArray::new(grid_from_rows(&there), inverse(turn)).into_vec();
        for x in 0..4 {
            for y in 0..4 {
                assert_eq!(back[x][y], 10 * x + y);
            }
        }
        let other_way = RotatedGridArray::new(numbered_grid(), inverse(turn)).into_vec();
        let and_back = RotatedGridArray::new(grid_from_rows(&other_way), turn).into_vec();
        for x in 0..4 {
            for y in 0..4 {
                assert_eq!(and_back[x][y], 10 * x + y);
            }
        }
    }
}

#[test]
fn four_quarter_turns_give_the_grid() {
    let mut rows = RotatedGridArray::new(numbered_grid(), QuarterTurn::Deg090).into_vec();
    for _ in 0..3 {
        rows = RotatedGridArray::new(grid_from_rows(&rows), QuarterTurn::Deg090).into_vec();
    }
    for x in 0..4 {
        for y in 0..4 {
            assert_eq!(rows[x][y], 10 * x + y);
        }
    }
}

#[test]
fn empty_board_has_no_tiles() {
    let board = Board::new();
    assert_eq!(board.handles(), 0);
    assert_eq!(board.get(TileId(0)), None);
    assert_eq!(board.tile(TileId(0)), Err(ModelFault::NoSuchTile(TileId(0))));
    assert_eq!(board.tile_at(Position::new(0, 0)), None);
    assert!(!board_is_full(&board));
    assert_eq!(get_positions_set(&board), Vec::<Position>::new());
    assert_eq!(get_positions_complement_set(&board).len(), 16);
}

#[test]
fn created_tiles_get_handles_in_order() {
    let mut board = Board::new();
    assert_eq!(create_tile(&mut board, Tile(1), Position::new(2, 1)), Ok(TileId(0)));
    assert_eq!(create_tile(&mut board, Tile(3), Position::new(0, 3)), Ok(TileId(1)));
    assert_eq!(board.handles(), 2);
    assert_eq!(
        board.get(TileId(0)),
        Some(TileBundle { tile: Tile(1), position: Position::new(2, 1) })
    );
    assert_eq!(board.tile(TileId(1)), Ok(Tile(3)));
    assert_eq!(board.tile_at(Position::new(0, 3)), Some(TileId(1)));
    assert_eq!(board.tile_at(Position::new(3, 0)), None);
}

#[test]
fn a_tile_cannot_be_created_off_the_board() {
    let mut board = Board::new();
    assert_eq!(
        create_tile(&mut board, Tile(1), Position::new(4, 0)),
        Err(ModelFault::NoSuchCell(Position::new(4, 0)))
    );
    assert_eq!(
        create_tile(&mut board, Tile(1), Position::new(0, 4)),
        Err(ModelFault::NoSuchCell(Position::new(0, 4)))
    );
    assert_eq!(board.handles(), 0);
}

#[test]
fn a_tile_cannot_be_created_on_a_taken_cell() {
    let mut board = Board::new();
    create_tile(&mut board, Tile(1), Position::new(1, 1)).unwrap();
    assert_eq!(
        create_tile(&mut board, Tile(2), Position::new(1, 1)),
        Err(ModelFault::CellOccupied(Position::new(1, 1)))
    );
    assert_eq!(board.handles(), 1);
    assert_eq!(board.tile(TileId(0)), Ok(Tile(1)));
}

#[test]
fn board_mutators_change_one_tile() {
    let mut board = Board::new();
    let a = create_tile(&mut board, Tile(1), Position::new(0, 0)).unwrap();
    let b = create_tile(&mut board, Tile(2), Position::new(0, 1)).unwrap();
    board.move_tile(a, Position::new(3, 3));
    assert_eq!(board.get(a), Some(TileBundle { tile: Tile(1), position: Position::new(3, 3) }));
    board.set_tile(b, Tile(5));
    assert_eq!(board.get(b), Some(TileBundle { tile: Tile(5), position: Position::new(0, 1) }));
    board.despawn(a);
    assert_eq!(board.get(a), None);
    assert_eq!(board.tile_at(Position::new(3, 3)), None);
    assert_eq!(board.handles(), 2);
    assert_eq!(board.get(b), Some(TileBundle { tile: Tile(5), position: Position::new(0, 1) }));
}

#[test]
fn layouts_show_where_the_tiles_stand() {
    let mut board = Board::new();
    let a = create_tile(&mut board, Tile(1), Position::new(2, 1)).unwrap();
    let b = create_tile(&mut board, Tile(1), Position::new(0, 3)).unwrap();
    let taken = get_tiles_layout(&board);
    let tiles = get_tiles_layout_with_entity(&board);
    for x in 0..4 {
        for y in 0..4 {
            let expected = if (x, y) == (2, 1) {
                Some(a)
            } else if (x, y) == (0, 3) {
                Some(b)
            } else {
                None
            };
            assert_eq!(tiles.get(x, y), expected);
            assert_eq!(taken.get(x, y), expected.is_some());
        }
    }
}

#[test]
fn all_cells_come_in_order() {
    let cells = generate_universal_position_set();
    assert_eq!(cells.len(), 16);
    for (number, cell) in cells.iter().enumerate() {
        assert_eq!(*cell, Position::new(number / 4, number % 4));
    }
    for pair in cells.windows(2) {
        assert!(pair[0] < pair[1]);
    }
}

#[test]
fn occupied_and_empty_cells_part_the_board() {
    let mut board = Board::new();
    create_tile(&mut board, Tile(1), Position::new(3, 0)).unwrap();
    create_tile(&mut board, Tile(1), Position::new(0, 2)).unwrap();
    create_tile(&mut board, Tile(2), Position::new(1, 1)).unwrap();
    let occupied = get_positions_set(&board);
    assert_eq!(
        occupied,
        vec![Position::new(0, 2), Position::new(1, 1), Position::new(3, 0)]
    );
    let empty = get_positions_complement_set(&board);
    assert_eq!(empty.len(), 13);
    for pair in empty.windows(2) {
        assert!(pair[0] < pair[1]);
    }
    for cell in generate_universal_position_set() {
        assert_ne!(occupied.contains(&cell), empty.contains(&cell));
    }
    assert_eq!(empty[0], Position::new(0, 0));
    assert_eq!(empty[2], Position::new(0, 3));
    assert_eq!(empty[12], Position::new(3, 3));
}

#[test]
fn a_board_with_sixteen_tiles_is_full() {
    let mut board = Board::new();
    for x in 0..4 {
        for y in 0..4 {
            assert!(!board_is_full(&board));
            create_tile(&mut board, Tile(1), Position::new(x, y)).unwrap();
        }
    }
    assert!(board_is_full(&board));
    assert_eq!(get_positions_complement_set(&board), Vec::<Position>::new());
    assert_eq!(get_positions_set(&board), generate_universal_position_set());
    board.despawn(TileId(5));
    assert!(!board_is_full(&board));
    assert_eq!(get_positions_complement_set(&board), vec![Position::new(1, 1)]);
}

#[test]
fn a_tile_has_a_rank_of_at_least_one() {
    let mut board = Board::new();
    assert_eq!(
        create_tile(&mut board, Tile(0), Position::new(1, 1)),
        Err(ModelFault::NoSuchRank(Tile(0)))
    );
    assert_eq!(
        create_tile(&mut board, Tile(0), Position::new(9, 9)),
        Err(ModelFault::NoSuchRank(Tile(0)))
    );
    assert_eq!(board.handles(), 0);
    assert_eq!(create_tile(&mut board, Tile(1), Position::new(1, 1)), Ok(TileId(0)));
}
