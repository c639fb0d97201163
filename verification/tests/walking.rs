use game::board::Board;
use game::player::Position;
use game::tile::Rotation::{Ninety, OneEighty, TwoSeventy, Zero};
use game::tile::TileVariant::{IShape, LShape, TShape};
use game::tile::{Rotation, Side, SideIndex, TileVariant};

fn at(x: usize, y: usize) -> Position {
    Position::new(x, y)
}

fn cells(positions: &[Position]) -> Vec<(usize, usize)> {
    positions.iter().map(|p| (p.get_x(), p.get_y())).collect()
}

fn sorted(mut cells: Vec<(usize, usize)>) -> Vec<(usize, usize)> {
    cells.sort();
    cells
}

/// A board of side 3 from the tiles of its five movable cells, in reading
/// order, and the free tile.
fn small_board(movable: [(TileVariant, Rotation); 5], free: TileVariant) -> Board {
    let mut deck = vec![free];
    let mut spins = Vec::new();
    for (variant, rotation) in movable.iter().rev() {
        deck.push(*variant);
        spins.push(*rotation);
    }
    Board::assemble(3, deck, spins, vec![], vec![])
}

/// ┌─┐
/// │└│   a ring around a closed-off centre
/// └─┘
fn ring() -> Board {
    small_board(
        [
            (IShape, Ninety),
            (IShape, Zero),
            (LShape, Zero),
            (IShape, Zero),
            (IShape, Ninety),
        ],
        TShape,
    )
}

/// ┌┬┐
/// ├┼┤ without the cross: every movable tile is a T that opens to the centre
/// └┴┘
fn star() -> Board {
    small_board(
        [
            (TShape, Zero),
            (TShape, TwoSeventy),
            (TShape, Zero),
            (TShape, Ninety),
            (TShape, OneEighty),
        ],
        IShape,
    )
}

#[test]
fn neighbours_follow_the_open_sides_in_order() {
    let board = ring();
    assert_eq!(cells(&board.neighbours(at(0, 0))), vec![(0, 1), (1, 0)]);
    assert_eq!(cells(&board.neighbours(at(1, 0))), vec![(0, 0), (2, 0)]);
    assert_eq!(cells(&board.neighbours(at(0, 1))), vec![(0, 0), (0, 2)]);
    assert_eq!(cells(&board.neighbours(at(2, 2))), vec![(2, 1), (1, 2)]);
    assert_eq!(cells(&board.neighbours(at(1, 1))), vec![]);
    assert_eq!(cells(&board.neighbours(at(3, 1))), vec![]);
    assert_eq!(cells(&board.neighbours(at(7, 7))), vec![]);
}

#[test]
fn a_link_needs_both_tiles_to_be_open() {
    let board = star();
    // The centre is a T that opens down, left and right: up it is closed,
    // though the tile above opens down.
    assert_eq!(
        cells(&board.neighbours(at(1, 1))),
        vec![(1, 2), (0, 1), (2, 1)]
    );
    assert_eq!(
        cells(&board.neighbours(at(1, 0))),
        vec![(0, 0), (2, 0)]
    );
    assert_eq!(
        cells(&board.neighbours(at(0, 1))),
        vec![(0, 0), (0, 2), (1, 1)]
    );
}

#[test]
fn reach_of_the_ring() {
    let board = ring();
    let reached = board.get_reachable(at(0, 0));
    assert_eq!(
        cells(&reached),
        vec![(0, 0), (0, 1), (1, 0), (0, 2), (2, 0), (1, 2), (2, 1), (2, 2)]
    );
    assert_eq!(cells(&board.get_reachable(at(1, 1))), vec![(1, 1)]);
    for start in [at(2, 1), at(1, 2), at(2, 2)] {
        let reached = sorted(cells(&board.get_reachable(start)));
        assert_eq!(
            reached,
            vec![(0, 0), (0, 1), (0, 2), (1, 0), (1, 2), (2, 0), (2, 1), (2, 2)]
        );
    }
}

#[test]
fn a_start_off_the_board_reaches_only_itself() {
    let board = ring();
    assert_eq!(cells(&board.get_reachable(at(5, 5))), vec![(5, 5)]);
    assert_eq!(cells(&board.get_path(at(5, 5), at(5, 5)).unwrap()), vec![(5, 5)]);
    assert!(board.get_path(at(5, 5), at(0, 0)).is_none());
    assert!(board.get_path(at(0, 0), at(5, 5)).is_none());
    assert!(board.is_reachable(at(3, 0), at(3, 0)));
    assert!(!board.is_reachable(at(3, 0), at(2, 0)));
}

#[test]
fn paths_on_the_ring() {
    let board = ring();
    assert_eq!(cells(&board.get_path(at(0, 0), at(0, 0)).unwrap()), vec![(0, 0)]);
    assert_eq!(
        cells(&board.get_path(at(0, 0), at(2, 0)).unwrap()),
        vec![(0, 0), (1, 0), (2, 0)]
    );
    assert_eq!(
        cells(&board.get_path(at(2, 0), at(0, 0)).unwrap()),
        vec![(2, 0), (1, 0), (0, 0)]
    );
    assert_eq!(
        cells(&board.get_path(at(1, 0), at(1, 2)).unwrap()),
        vec![(1, 0), (0, 0), (0, 1), (0, 2), (1, 2)]
    );
    assert!(board.get_path(at(0, 0), at(1, 1)).is_none());
    assert!(board.get_path(at(1, 1), at(0, 0)).is_none());
    assert!(board.is_reachable(at(0, 0), at(2, 2)));
    assert!(!board.is_reachable(at(0, 0), at(1, 1)));
}

#[test]
fn of_two_shortest_paths_the_one_met_first_is_taken() {
    let board = ring();
    // Both ways round the ring take four steps. The corner opens down before
    // it opens right, so the search meets the far corner by the way down.
    assert_eq!(
        cells(&board.get_path(at(0, 0), at(2, 2)).unwrap()),
        vec![(0, 0), (0, 1), (0, 2), (1, 2), (2, 2)]
    );
    assert_eq!(
        cells(&board.get_path(at(2, 2), at(0, 0)).unwrap()),
        vec![(2, 2), (2, 1), (2, 0), (1, 0), (0, 0)]
    );
}

#[test]
fn paths_take_the_short_cut() {
    let board = star();
    assert_eq!(
        cells(&board.get_path(at(0, 1), at(2, 1)).unwrap()),
        vec![(0, 1), (1, 1), (2, 1)]
    );
    assert_eq!(
        cells(&board.get_path(at(0, 0), at(2, 2)).unwrap()),
        vec![(0, 0), (0, 1), (0, 2), (1, 2), (2, 2)]
    );
    assert_eq!(board.get_reachable(at(1, 1)).len(), 9);
}

#[test]
fn a_push_changes_what_can_be_reached() {
    let mut board = ring();
    // The free T enters the middle column from the top, unturned: it opens
    // down, left and right, and the straight tile below now stands in the
    // centre, closed toward it.
    board.shift_tiles(SideIndex::new(Side::Top, 1)).unwrap();
    assert_eq!(cells(&board.neighbours(at(1, 0))), vec![(0, 0), (2, 0)]);
    assert_eq!(cells(&board.neighbours(at(1, 1))), vec![]);
    // The old centre, an L that opens up and right, stands at the bottom and
    // opens to the right-hand corner only.
    assert_eq!(cells(&board.neighbours(at(1, 2))), vec![(2, 2)]);
    assert!(board.get_path(at(0, 2), at(1, 2)).is_some());
    assert_eq!(
        cells(&board.get_path(at(0, 2), at(2, 2)).unwrap()),
        vec![(0, 2), (0, 1), (0, 0), (1, 0), (2, 0), (2, 1), (2, 2)]
    );
}

fn mutually_open(board: &Board, from: Position, to: Position) -> bool {
    let sides = board.get_tile(from).unwrap().get_connection();
    let facing = board.get_tile(to).unwrap().get_connection();
    let (side, back) = if to.get_x() == from.get_x() && to.get_y() + 1 == from.get_y() {
        (Side::Top, Side::Bottom)
    } else if to.get_x() == from.get_x() && to.get_y() == from.get_y() + 1 {
        (Side::Bottom, Side::Top)
    } else if to.get_y() == from.get_y() && to.get_x() + 1 == from.get_x() {
        (Side::Left, Side::Right)
    } else if to.get_y() == from.get_y() && to.get_x() == from.get_x() + 1 {
        (Side::Right, Side::Left)
    } else {
        return false;
    };
    sides.contains(&side) && facing.contains(&back)
}

#[test]
fn every_reached_cell_has_a_path_of_open_links() {
    for _ in 0..5 {
        let board = Board::new(9).unwrap();
        for start in [at(0, 0), at(4, 4), at(3, 7)] {
            let reached = board.get_reachable(start);
            assert_eq!(reached[0], start);
            for goal in &reached {
                let path = board.get_path(start, *goal).unwrap();
                assert_eq!(path[0], start);
                assert_eq!(path[path.len() - 1], *goal);
                for step in path.windows(2) {
                    assert!(mutually_open(&board, step[0], step[1]));
                    assert!(mutually_open(&board, step[1], step[0]));
                }
                assert!(board.is_reachable(start, *goal));
            }
            for y in 0..9 {
                for x in 0..9 {
                    if !reached.contains(&at(x, y)) {
                        assert!(board.get_path(start, at(x, y)).is_none());
                        assert!(!board.is_reachable(start, at(x, y)));
                    }
                }
            }
        }
    }
}

#[test]
fn reach_holds_no_cell_twice_and_is_closed_under_links() {
    let board = Board::new(11).unwrap();
    let reached = board.get_reachable(at(5, 5));
    for (index, cell) in reached.iter().enumerate() {
        assert!(!reached[..index].contains(cell));
        for neighbour in board.neighbours(*cell) {
            assert!(reached.contains(&neighbour));
        }
    }
}
