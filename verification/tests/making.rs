use game::board::{calculate_number_of_items, Board, NewBoardError};
use game::generate::{get_tile_assortment, item_pool};
use game::player::Position;
use game::tile::Rotation::{Ninety, OneEighty, TwoSeventy, Zero};
use game::tile::TileVariant::{IShape, LShape, TShape};
use game::tile::{Item, Rotation, Side, Tile, TileVariant};

fn count(deck: &[TileVariant], variant: TileVariant) -> usize {
    deck.iter().filter(|v| **v == variant).count()
}

fn all_tiles(board: &Board) -> Vec<Tile> {
    let side = board.get_side_length();
    let mut tiles = Vec::new();
    for y in 0..side {
        for x in 0..side {
            tiles.push(*board.get_tile(Position::new(x, y)).unwrap());
        }
    }
    tiles.push(board.get_free_tile().get_tile());
    tiles
}

fn is_fixed(x: usize, y: usize) -> bool {
    x % 2 == 0 && y % 2 == 0
}

fn movable_shapes(board: &Board) -> Vec<TileVariant> {
    let side = board.get_side_length();
    let mut shapes = Vec::new();
    for y in 0..side {
        for x in 0..side {
            if !is_fixed(x, y) {
                shapes.push(board.get_tile(Position::new(x, y)).unwrap().get_variant());
            }
        }
    }
    shapes.push(board.get_free_tile().get_tile().get_variant());
    shapes
}

fn items(ids: &[usize]) -> Vec<Item> {
    ids.iter().map(|id| Item::new(*id)).collect()
}

#[test]
fn number_of_items_follows_the_formula() {
    assert_eq!(calculate_number_of_items(3), 0);
    assert_eq!(calculate_number_of_items(5), 10);
    assert_eq!(calculate_number_of_items(7), 24);
    assert_eq!(calculate_number_of_items(9), 42);
    assert_eq!(calculate_number_of_items(59), 2 * (30 * 30 - 4));
    assert_eq!(Board::new(7).unwrap().get_number_of_items(), 24);
}

#[test]
fn assortment_of_the_classic_board() {
    let deck = get_tile_assortment(7);
    assert_eq!(deck.len(), 34);
    assert_eq!(count(&deck, TileVariant::TShape), 6);
    assert_eq!(count(&deck, TileVariant::IShape), 13);
    assert_eq!(count(&deck, TileVariant::LShape), 15);
    let mut expected = vec![TileVariant::TShape; 6];
    expected.extend(vec![TileVariant::IShape; 13]);
    expected.extend(vec![TileVariant::LShape; 15]);
    assert_eq!(deck, expected);
}

#[test]
fn assortment_hands_the_first_leftover_tile_to_the_l_shapes() {
    let deck = get_tile_assortment(5);
    assert_eq!(deck.len(), 17);
    assert_eq!(count(&deck, TileVariant::TShape), 3);
    assert_eq!(count(&deck, TileVariant::IShape), 6);
    assert_eq!(count(&deck, TileVariant::LShape), 8);

    let deck = get_tile_assortment(3);
    assert_eq!(deck.len(), 6);
    assert_eq!(count(&deck, TileVariant::TShape), 1);
    assert_eq!(count(&deck, TileVariant::IShape), 2);
    assert_eq!(count(&deck, TileVariant::LShape), 3);
}

#[test]
fn assortment_hands_the_second_leftover_tile_to_the_t_shapes() {
    let deck = get_tile_assortment(11);
    assert_eq!(deck.len(), 86);
    assert_eq!(count(&deck, TileVariant::TShape), 16);
    assert_eq!(count(&deck, TileVariant::IShape), 32);
    assert_eq!(count(&deck, TileVariant::LShape), 38);
}

#[test]
fn item_pool_counts_from_one() {
    assert_eq!(item_pool(0), Vec::<Item>::new());
    assert_eq!(item_pool(4), items(&[1, 2, 3, 4]));
}

#[test]
fn too_small_and_even_sides_are_refused() {
    assert!(matches!(Board::new(0), Err(NewBoardError::TooSmall)));
    assert!(matches!(Board::new(1), Err(NewBoardError::TooSmall)));
    assert!(matches!(Board::new(2), Err(NewBoardError::TooSmall)));
    assert!(matches!(Board::new(4), Err(NewBoardError::EvenLength)));
    assert!(matches!(Board::new(60), Err(NewBoardError::EvenLength)));
    assert!(Board::new(3).is_ok());
}

#[test]
fn every_odd_board_is_full_and_holds_each_item_once() {
    for side in (3..=59).step_by(2) {
        let board = Board::new(side).unwrap();
        assert_eq!(board.get_side_length(), side);
        let number_of_items = 2 * ((side / 2 + 1) * (side / 2 + 1) - 4);
        assert_eq!(board.get_number_of_items(), number_of_items);

        let tiles = all_tiles(&board);
        assert_eq!(tiles.len(), side * side + 1);
        assert!(board.get_tile(Position::new(side, 0)).is_none());
        assert!(board.get_tile(Position::new(0, side)).is_none());

        let mut ids: Vec<usize> = tiles
            .iter()
            .filter_map(|tile| tile.get_item())
            .map(|item| item.get_id())
            .collect();
        ids.sort();
        let expected: Vec<usize> = (1..=number_of_items).collect();
        assert_eq!(ids, expected);

        for (index, tile) in tiles.iter().enumerate() {
            assert_eq!(tile.get_id(), index);
        }
    }
}

#[test]
fn fixed_tiles_stand_by_rule() {
    let side = 9;
    let last = side - 1;
    let board = Board::new(side).unwrap();
    let tile = |x: usize, y: usize| *board.get_tile(Position::new(x, y)).unwrap();

    let corners = [
        (0, 0, Rotation::Ninety),
        (last, 0, Rotation::OneEighty),
        (0, last, Rotation::Zero),
        (last, last, Rotation::TwoSeventy),
    ];
    for (x, y, rotation) in corners {
        assert_eq!(tile(x, y).get_variant(), TileVariant::LShape);
        assert_eq!(tile(x, y).get_rotation(), rotation);
        assert_eq!(tile(x, y).get_item(), None);
    }
    for even in (2..last).step_by(2) {
        let edges = [
            (even, 0, Rotation::Zero),
            (0, even, Rotation::TwoSeventy),
            (even, last, Rotation::OneEighty),
            (last, even, Rotation::Ninety),
        ];
        for (x, y, rotation) in edges {
            assert_eq!(tile(x, y).get_variant(), TileVariant::TShape);
            assert_eq!(tile(x, y).get_rotation(), rotation);
            assert!(tile(x, y).get_item().is_some());
        }
    }
    let cycle = [
        Rotation::Ninety,
        Rotation::TwoSeventy,
        Rotation::Zero,
        Rotation::OneEighty,
    ];
    let mut met = 0;
    for y in (2..last).step_by(2) {
        for x in (2..last).step_by(2) {
            met += 1;
            assert_eq!(tile(x, y).get_variant(), TileVariant::TShape);
            assert_eq!(tile(x, y).get_rotation(), cycle[met % 4]);
            assert!(tile(x, y).get_item().is_some());
        }
    }
    assert_eq!(met, 9);
}

#[test]
fn corners_open_toward_the_board() {
    let board = Board::new(7).unwrap();
    let sides = |x: usize, y: usize| board.get_tile(Position::new(x, y)).unwrap().get_connection();
    assert_eq!(sides(0, 0), vec![Side::Bottom, Side::Right]);
    assert_eq!(sides(6, 0), vec![Side::Bottom, Side::Left]);
    assert_eq!(sides(0, 6), vec![Side::Top, Side::Right]);
    assert_eq!(sides(6, 6), vec![Side::Top, Side::Left]);
}

#[test]
fn free_tile_of_a_fresh_board() {
    let board = Board::new(7).unwrap();
    let free = board.get_free_tile();
    assert_eq!(free.get_side_index(), None);
    assert_eq!(free.get_tile().get_id(), 49);
    assert_eq!(free.get_tile().get_rotation(), Rotation::Zero);
}

#[test]
fn movable_tiles_keep_the_ratio_of_shapes() {
    for side in [3, 5, 7, 9, 11, 21] {
        let board = Board::new(side).unwrap();
        let shapes = movable_shapes(&board);
        let deck = get_tile_assortment(side);
        assert_eq!(shapes.len(), deck.len());
        for variant in [TileVariant::TShape, TileVariant::IShape, TileVariant::LShape] {
            assert_eq!(count(&shapes, variant), count(&deck, variant));
        }
    }
}

#[test]
fn half_of_the_items_lie_on_movable_tiles() {
    let board = Board::new(7).unwrap();
    let mut on_movable = 0;
    for y in 0..7 {
        for x in 0..7 {
            let tile = board.get_tile(Position::new(x, y)).unwrap();
            if !is_fixed(x, y) && tile.get_item().is_some() {
                on_movable += 1;
            }
        }
    }
    if board.get_free_tile().get_tile().get_item().is_some() {
        on_movable += 1;
    }
    assert_eq!(on_movable, 12);
}

#[test]
fn the_movable_tiles_are_shuffled() {
    // The unshuffled deck, dealt from its end, would put the same shapes in
    // the same cells every time.
    let first = movable_shapes(&Board::new(7).unwrap());
    let varied = (0..20).any(|_| movable_shapes(&Board::new(7).unwrap()) != first);
    assert!(varied);

    let mut dealt_in_order: Vec<TileVariant> = get_tile_assortment(7);
    dealt_in_order.reverse();
    let shuffled = (0..20).any(|_| movable_shapes(&Board::new(7).unwrap()) != dealt_in_order);
    assert!(shuffled);
}

#[test]
fn the_items_are_shuffled() {
    let order = |board: &Board| -> Vec<usize> {
        all_tiles(board)
            .iter()
            .filter_map(|tile| tile.get_item())
            .map(|item| item.get_id())
            .collect()
    };
    let first = order(&Board::new(7).unwrap());
    assert!((0..20).any(|_| order(&Board::new(7).unwrap()) != first));
}

#[test]
fn the_rotations_of_movable_tiles_vary() {
    let board = Board::new(21).unwrap();
    let mut seen = Vec::new();
    for y in 0..21 {
        for x in 0..21 {
            if !is_fixed(x, y) {
                let rotation = board.get_tile(Position::new(x, y)).unwrap().get_rotation();
                if !seen.contains(&rotation) {
                    seen.push(rotation);
                }
            }
        }
    }
    assert_eq!(seen.len(), 4);
}

#[test]
fn the_places_of_the_items_vary() {
    let places = |board: &Board| -> Vec<bool> {
        all_tiles(board)
            .iter()
            .map(|tile| tile.get_item().is_some())
            .collect()
    };
    let first = places(&Board::new(7).unwrap());
    assert!((0..20).any(|_| places(&Board::new(7).unwrap()) != first));
}

#[test]
fn assemble_lays_out_the_smallest_board() {
    let deck = vec![TShape, IShape, LShape, IShape, TShape, LShape];
    let spins = vec![Zero, Ninety, OneEighty, TwoSeventy, Ninety];
    let board = Board::assemble(3, deck, spins, vec![], vec![]);
    let tile = |x: usize, y: usize| *board.get_tile(Position::new(x, y)).unwrap();

    assert_eq!(tile(0, 0), Tile::new(0, LShape, Ninety, None));
    assert_eq!(tile(1, 0), Tile::new(1, LShape, Ninety, None));
    assert_eq!(tile(2, 0), Tile::new(2, LShape, OneEighty, None));
    assert_eq!(tile(0, 1), Tile::new(3, TShape, TwoSeventy, None));
    assert_eq!(tile(1, 1), Tile::new(4, IShape, OneEighty, None));
    assert_eq!(tile(2, 1), Tile::new(5, LShape, Ninety, None));
    assert_eq!(tile(0, 2), Tile::new(6, LShape, Zero, None));
    assert_eq!(tile(1, 2), Tile::new(7, IShape, Zero, None));
    assert_eq!(tile(2, 2), Tile::new(8, LShape, TwoSeventy, None));
    assert_eq!(board.get_free_tile().get_tile(), Tile::new(9, TShape, Zero, None));
    assert_eq!(board.get_free_tile().get_side_index(), None);
}

#[test]
fn assemble_hands_out_items_from_the_end() {
    // 17 movable tiles: slots 16 down to 1 go to the cells in reading order,
    // slot 0 to the free tile.
    let mut deck = vec![IShape; 17];
    deck[16] = TShape;
    deck[0] = LShape;
    let mut spins = vec![Zero; 16];
    spins[15] = TwoSeventy;
    // Items on the first movable cell (slot 16), on slots 9, 5 and 1, and on
    // the free tile (slot 0).
    let slots = vec![16, 0, 9, 5, 1];
    let pool = items(&[10, 9, 8, 7, 6, 5, 4, 3, 2, 1]);
    let board = Board::assemble(5, deck, spins, slots, pool);
    let tile = |x: usize, y: usize| *board.get_tile(Position::new(x, y)).unwrap();
    let item = |x: usize, y: usize| tile(x, y).get_item().map(|item| item.get_id());

    // Row 0: corner, slot 16, fixed, slot 15, corner.
    assert_eq!(tile(1, 0), Tile::new(1, TShape, TwoSeventy, Some(Item::new(1))));
    assert_eq!(tile(2, 0), Tile::new(2, TShape, Zero, Some(Item::new(2))));
    assert_eq!(tile(3, 0), Tile::new(3, IShape, Zero, None));
    assert_eq!(item(0, 0), None);
    assert_eq!(item(4, 0), None);
    // Row 1: slots 14 to 10. Row 2: fixed, slot 9, inner, slot 8, fixed.
    for x in 0..5 {
        assert_eq!(item(x, 1), None);
    }
    assert_eq!(tile(0, 2), Tile::new(10, TShape, TwoSeventy, Some(Item::new(3))));
    assert_eq!(item(1, 2), Some(4));
    assert_eq!(tile(2, 2), Tile::new(12, TShape, TwoSeventy, Some(Item::new(5))));
    assert_eq!(item(3, 2), None);
    assert_eq!(tile(4, 2), Tile::new(14, TShape, Ninety, Some(Item::new(6))));
    // Row 3: slots 7 to 3. Row 4: corner, slot 2, fixed, slot 1, corner.
    assert_eq!(item(0, 3), None);
    assert_eq!(item(1, 3), None);
    assert_eq!(item(2, 3), Some(7));
    assert_eq!(item(3, 3), None);
    assert_eq!(item(4, 3), None);
    assert_eq!(item(1, 4), None);
    assert_eq!(tile(2, 4), Tile::new(22, TShape, OneEighty, Some(Item::new(8))));
    assert_eq!(item(3, 4), Some(9));
    assert_eq!(
        board.get_free_tile().get_tile(),
        Tile::new(25, LShape, Zero, Some(Item::new(10)))
    );
}
