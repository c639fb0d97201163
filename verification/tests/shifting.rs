use game::board::{Board, PositionMap, ShiftTileError};
use game::player::Position;
use game::tile::{Rotation, Side, SideIndex, Tile};

fn ids(board: &Board) -> Vec<usize> {
    let side = board.get_side_length();
    let mut ids = Vec::new();
    for y in 0..side {
        for x in 0..side {
            ids.push(board.get_tile(Position::new(x, y)).unwrap().get_id());
        }
    }
    ids
}

fn tiles(board: &Board) -> Vec<Tile> {
    let side = board.get_side_length();
    let mut tiles = Vec::new();
    for y in 0..side {
        for x in 0..side {
            tiles.push(*board.get_tile(Position::new(x, y)).unwrap());
        }
    }
    tiles.push(board.get_free_tile().get_tile());
    tiles
}

fn free_id(board: &Board) -> usize {
    board.get_free_tile().get_tile().get_id()
}

/// The moves of a board of the given side, in reading order of the positions
/// that moved.
fn pairs(map: &PositionMap, side: usize) -> Vec<((usize, usize), (usize, usize))> {
    let mut moves = Vec::new();
    for y in 0..side + 2 {
        for x in 0..side + 2 {
            if let Some(to) = map.get(&Position::new(x, y)) {
                moves.push(((x, y), (to.get_x(), to.get_y())));
            }
        }
    }
    assert_eq!(moves.len(), map.len());
    moves
}

#[test]
fn even_lines_do_not_move() {
    let mut board = Board::new(7).unwrap();
    let before = tiles(&board);
    for index in [0, 2, 4, 6] {
        for side in [Side::Top, Side::Right, Side::Bottom, Side::Left] {
            let result = board.shift_tiles(SideIndex::new(side, index));
            assert!(matches!(result, Err(ShiftTileError::UnMovable)));
        }
    }
    assert_eq!(tiles(&board), before);
    assert_eq!(board.get_free_tile().get_side_index(), None);
}

#[test]
fn lines_beyond_the_board_do_not_exist() {
    let mut board = Board::new(7).unwrap();
    let before = tiles(&board);
    for index in [7, 8, 99] {
        let result = board.shift_tiles(SideIndex::new(Side::Left, index));
        assert!(matches!(result, Err(ShiftTileError::OutOfBounds)));
    }
    assert_eq!(tiles(&board), before);
}

#[test]
fn a_push_cannot_be_undone_at_once_but_can_be_repeated() {
    let mut board = Board::new(7).unwrap();
    assert!(matches!(
        board.shift_tiles(SideIndex::new(Side::Top, 0)),
        Err(ShiftTileError::UnMovable)
    ));

    let map = board.shift_tiles(SideIndex::new(Side::Top, 1)).unwrap();
    assert!(!map.is_empty());
    assert_eq!(map.len(), 7);
    for y in 0..7 {
        assert_eq!(
            map.get(&Position::new(1, y)),
            Some(Position::new(1, (y + 1) % 7))
        );
    }
    assert_eq!(map.get(&Position::new(0, 0)), None);
    assert_eq!(map.get(&Position::new(2, 3)), None);

    let after_first = tiles(&board);
    assert!(matches!(
        board.shift_tiles(SideIndex::new(Side::Bottom, 1)),
        Err(ShiftTileError::UndoMove)
    ));
    assert_eq!(tiles(&board), after_first);

    assert!(board.shift_tiles(SideIndex::new(Side::Top, 1)).is_ok());
    assert!(matches!(
        board.shift_tiles(SideIndex::new(Side::Bottom, 1)),
        Err(ShiftTileError::UndoMove)
    ));
    // Another line, or another edge of another line, is not barred.
    assert!(board.shift_tiles(SideIndex::new(Side::Bottom, 3)).is_ok());
    assert!(board.shift_tiles(SideIndex::new(Side::Bottom, 1)).is_ok());
}

#[test]
fn a_push_from_the_top_moves_the_column_down() {
    let mut board = Board::new(5).unwrap();
    let map = board.shift_tiles(SideIndex::new(Side::Top, 1)).unwrap();
    let expected = vec![
         0, 25,  2,  3,  4,
         5,  1,  7,  8,  9,
        10,  6, 12, 13, 14,
        15, 11, 17, 18, 19,
        20, 16, 22, 23, 24,
    ];
    assert_eq!(ids(&board), expected);
    assert_eq!(free_id(&board), 21);
    assert_eq!(
        board.get_free_tile().get_side_index(),
        Some(SideIndex::new(Side::Bottom, 1))
    );
    assert_eq!(
        pairs(&map, 5),
        vec![
            ((1, 0), (1, 1)),
            ((1, 1), (1, 2)),
            ((1, 2), (1, 3)),
            ((1, 3), (1, 4)),
            ((1, 4), (1, 0)),
        ]
    );
}

#[test]
fn a_push_from_the_bottom_moves_the_column_up() {
    let mut board = Board::new(5).unwrap();
    let map = board.shift_tiles(SideIndex::new(Side::Bottom, 3)).unwrap();
    let expected = vec![
         0,  1,  2,  8,  4,
         5,  6,  7, 13,  9,
        10, 11, 12, 18, 14,
        15, 16, 17, 23, 19,
        20, 21, 22, 25, 24,
    ];
    assert_eq!(ids(&board), expected);
    assert_eq!(free_id(&board), 3);
    assert_eq!(
        board.get_free_tile().get_side_index(),
        Some(SideIndex::new(Side::Top, 3))
    );
    assert_eq!(
        pairs(&map, 5),
        vec![
            ((3, 0), (3, 4)),
            ((3, 1), (3, 0)),
            ((3, 2), (3, 1)),
            ((3, 3), (3, 2)),
            ((3, 4), (3, 3)),
        ]
    );
}

#[test]
fn a_push_from_the_left_moves_the_row_right() {
    let mut board = Board::new(5).unwrap();
    let map = board.shift_tiles(SideIndex::new(Side::Left, 1)).unwrap();
    let expected = vec![
         0,  1,  2,  3,  4,
        25,  5,  6,  7,  8,
        10, 11, 12, 13, 14,
        15, 16, 17, 18, 19,
        20, 21, 22, 23, 24,
    ];
    assert_eq!(ids(&board), expected);
    assert_eq!(free_id(&board), 9);
    assert_eq!(
        board.get_free_tile().get_side_index(),
        Some(SideIndex::new(Side::Right, 1))
    );
    assert_eq!(
        pairs(&map, 5),
        vec![
            ((0, 1), (1, 1)),
            ((1, 1), (2, 1)),
            ((2, 1), (3, 1)),
            ((3, 1), (4, 1)),
            ((4, 1), (0, 1)),
        ]
    );
}

#[test]
fn a_push_from_the_right_moves_the_row_left() {
    let mut board = Board::new(5).unwrap();
    let map = board.shift_tiles(SideIndex::new(Side::Right, 3)).unwrap();
    let expected = vec![
         0,  1,  2,  3,  4,
         5,  6,  7,  8,  9,
        10, 11, 12, 13, 14,
        16, 17, 18, 19, 25,
        20, 21, 22, 23, 24,
    ];
    assert_eq!(ids(&board), expected);
    assert_eq!(free_id(&board), 15);
    assert_eq!(
        board.get_free_tile().get_side_index(),
        Some(SideIndex::new(Side::Left, 3))
    );
    assert_eq!(
        pairs(&map, 5),
        vec![
            ((0, 3), (4, 3)),
            ((1, 3), (0, 3)),
            ((2, 3), (1, 3)),
            ((3, 3), (2, 3)),
            ((4, 3), (3, 3)),
        ]
    );
}

#[test]
fn a_push_moves_whole_tiles_and_loses_none() {
    let mut board = Board::new(7).unwrap();
    let mut before = tiles(&board);
    board.shift_tiles(SideIndex::new(Side::Right, 5)).unwrap();
    board.shift_tiles(SideIndex::new(Side::Top, 3)).unwrap();
    let mut after = tiles(&board);
    assert_ne!(before, after);
    before.sort_by_key(|tile| tile.get_id());
    after.sort_by_key(|tile| tile.get_id());
    assert_eq!(before, after);
}

#[test]
fn the_free_tile_enters_as_it_was_turned() {
    let mut board = Board::new(5).unwrap();
    board.rotate_free_tile(Rotation::TwoSeventy);
    let free = board.get_free_tile().get_tile();
    assert_eq!(free.get_rotation(), Rotation::TwoSeventy);
    let before = ids(&board);
    board.shift_tiles(SideIndex::new(Side::Left, 3)).unwrap();
    assert_eq!(*board.get_tile(Position::new(0, 3)).unwrap(), free);
    assert_ne!(ids(&board), before);
}

#[test]
fn rotating_the_free_tile_leaves_the_board_alone() {
    let mut board = Board::new(5).unwrap();
    let grid = ids(&board);
    let free = board.get_free_tile().get_tile();
    board.rotate_free_tile(Rotation::Ninety);
    let turned = board.get_free_tile().get_tile();
    assert_eq!(turned.get_rotation(), Rotation::Ninety);
    assert_eq!(turned.get_id(), free.get_id());
    assert_eq!(turned.get_variant(), free.get_variant());
    assert_eq!(turned.get_item(), free.get_item());
    assert_eq!(ids(&board), grid);
    assert_eq!(board.get_free_tile().get_side_index(), None);
}

#[test]
fn tiles_are_looked_up_by_column_and_row() {
    let board = Board::new(5).unwrap();
    assert_eq!(board.get_tile(Position::new(3, 1)).unwrap().get_id(), 8);
    assert_eq!(board.get_tile(Position::new(1, 3)).unwrap().get_id(), 16);
    assert_eq!(board.get_tile(Position::new(4, 4)).unwrap().get_id(), 24);
    assert!(board.get_tile(Position::new(5, 0)).is_none());
    assert!(board.get_tile(Position::new(0, 5)).is_none());
    assert!(board.get_tile(Position::new(usize::MAX, usize::MAX)).is_none());
}
