use game::board::Board;
use game::player::{get_start_position, sorted_ids, MoveResult, Player, Players, Position};
use game::tile::Rotation::{Ninety, Zero};
use game::tile::TileVariant::{IShape, LShape, TShape};
use game::tile::{Item, Rotation, TileVariant};

fn at(x: usize, y: usize) -> Position {
    Position::new(x, y)
}

fn items(ids: &[usize]) -> Vec<Item> {
    ids.iter().map(|id| Item::new(*id)).collect()
}

fn ids_of(items: &[Item]) -> Vec<usize> {
    items.iter().map(|item| item.get_id()).collect()
}

/// A board of side 3 whose edge is a ring around a closed-off centre.
fn ring() -> Board {
    let movable: [(TileVariant, Rotation); 5] = [
        (IShape, Ninety),
        (IShape, Zero),
        (LShape, Zero),
        (IShape, Zero),
        (IShape, Ninety),
    ];
    let mut deck = vec![TShape];
    let mut spins = Vec::new();
    for (variant, rotation) in movable.iter().rev() {
        deck.push(*variant);
        spins.push(*rotation);
    }
    Board::assemble(3, deck, spins, vec![], vec![])
}

/// A board of side 5 of upright straight tiles, with items 3 and 6 on the
/// left and right edge.
fn columns() -> Board {
    let deck = vec![IShape; 17];
    let spins = vec![Zero; 16];
    let slots = vec![16, 0, 9, 5, 1];
    Board::assemble(5, deck, spins, slots, items(&[10, 9, 8, 7, 6, 5, 4, 3, 2, 1]))
}

fn state(player: &Player) -> (usize, Position, Position, Vec<usize>, Vec<usize>) {
    (
        player.get_id(),
        player.get_position(),
        player.get_start_position(),
        ids_of(player.get_collected()),
        ids_of(player.get_to_collect()),
    )
}

fn states(players: &Players) -> Vec<(usize, Position, Position, Vec<usize>, Vec<usize>)> {
    players.get_players().iter().map(state).collect()
}

#[test]
fn start_positions_go_round_the_corners() {
    assert_eq!(get_start_position(0, 7), at(0, 0));
    assert_eq!(get_start_position(1, 7), at(0, 6));
    assert_eq!(get_start_position(2, 7), at(6, 6));
    assert_eq!(get_start_position(3, 7), at(6, 0));
    assert_eq!(get_start_position(4, 7), at(0, 0));
    assert_eq!(get_start_position(5, 9), at(0, 8));
    assert_eq!(get_start_position(usize::MAX, 3), at(2, 0));
}

#[test]
fn positions_know_their_neighbours() {
    let board = Board::new(5).unwrap();
    let middle = at(2, 3);
    assert_eq!(middle.top(&board), Some(at(2, 2)));
    assert_eq!(middle.bottom(&board), Some(at(2, 4)));
    assert_eq!(middle.left(&board), Some(at(1, 3)));
    assert_eq!(middle.right(&board), Some(at(3, 3)));

    assert_eq!(at(0, 0).top(&board), None);
    assert_eq!(at(0, 0).left(&board), None);
    assert_eq!(at(4, 4).bottom(&board), None);
    assert_eq!(at(4, 4).right(&board), None);
    assert_eq!(at(3, 3).right(&board), Some(at(4, 3)));
    assert_eq!(at(3, 3).bottom(&board), Some(at(3, 4)));
    assert_eq!(at(9, 9).right(&board), None);
    assert_eq!(at(9, 9).bottom(&board), None);
}

#[test]
fn ids_are_sorted_and_counted_once() {
    assert_eq!(sorted_ids(&vec![]), Vec::<usize>::new());
    assert_eq!(sorted_ids(&vec![3, 1, 2, 0]), vec![0, 1, 2, 3]);
    assert_eq!(sorted_ids(&vec![5, 5, 5]), vec![5]);
    assert_eq!(sorted_ids(&vec![9, 2, 9, 7, 2]), vec![2, 7, 9]);
}

#[test]
fn fewer_than_two_players_are_no_game() {
    let board = Board::new(7).unwrap();
    assert!(Players::new(vec![], 6, &board).is_none());
    assert!(Players::new(vec![3], 6, &board).is_none());
    assert!(Players::new(vec![3, 3], 6, &board).is_none());
    assert!(Players::new(vec![3, 4], 6, &board).is_some());
}

#[test]
fn four_players_get_six_items_each_and_share_none() {
    let board = Board::new(7).unwrap();
    let players = Players::new(vec![0, 1, 2, 3], 6, &board).unwrap();
    assert_eq!(players.len(), 4);
    assert_eq!(players.get_player_turn(), 0);
    let mut all = Vec::new();
    for player in players.get_players() {
        assert_eq!(player.get_to_collect().len(), 6);
        assert!(player.get_collected().is_empty());
        all.extend(ids_of(player.get_to_collect()));
    }
    all.sort();
    let expected: Vec<usize> = (1..=24).collect();
    assert_eq!(all, expected);
}

#[test]
fn fewer_cards_than_items_are_all_different() {
    let board = Board::new(7).unwrap();
    for _ in 0..10 {
        let players = Players::new(vec![8, 5, 2], 3, &board).unwrap();
        let mut all = Vec::new();
        for player in players.get_players() {
            assert_eq!(player.get_to_collect().len(), 3);
            all.extend(ids_of(player.get_to_collect()));
        }
        assert_eq!(all.len(), 9);
        assert!(all.iter().all(|id| 1 <= *id && *id <= 24));
        all.sort();
        all.dedup();
        assert_eq!(all.len(), 9);
    }
}

#[test]
fn the_cards_are_left_to_chance() {
    let board = Board::new(7).unwrap();
    let hands = |players: &Players| -> Vec<Vec<usize>> {
        players
            .get_players()
            .iter()
            .map(|player| ids_of(player.get_to_collect()))
            .collect()
    };
    let first = hands(&Players::new(vec![0, 1], 3, &board).unwrap());
    assert!((0..20).any(|_| hands(&Players::new(vec![0, 1], 3, &board).unwrap()) != first));
    // A selection that took the first cards of the pool every time would deal
    // the same six items to the two players.
    let mut seen: Vec<usize> = Vec::new();
    for _ in 0..20 {
        for hand in hands(&Players::new(vec![0, 1], 3, &board).unwrap()) {
            for id in hand {
                if !seen.contains(&id) {
                    seen.push(id);
                }
            }
        }
    }
    assert!(seen.len() > 6);
}

#[test]
fn players_sit_in_the_order_of_their_ids() {
    let board = Board::new(7).unwrap();
    let players = Players::new(vec![7, 3, 9, 5, 1], 0, &board).unwrap();
    assert_eq!(
        states(&players),
        vec![
            (1, at(0, 0), at(0, 0), vec![], vec![]),
            (3, at(0, 6), at(0, 6), vec![], vec![]),
            (5, at(6, 6), at(6, 6), vec![], vec![]),
            (7, at(6, 0), at(6, 0), vec![], vec![]),
            (9, at(0, 0), at(0, 0), vec![], vec![]),
        ]
    );
    assert_eq!(players.get_player_turn(), 1);
    assert!(players.has_player(5));
    assert!(!players.has_player(4));
    assert_eq!(players.get_player(9).unwrap().get_id(), 9);
    assert!(players.get_player(0).is_none());
    assert_eq!(players.current_player().get_id(), 1);
}

#[test]
fn seat_deals_the_cards_in_order() {
    let board = columns();
    let players = Players::seat(vec![2, 4, 6], 2, &board, items(&[7, 3, 6, 1, 9, 8]));
    assert_eq!(
        states(&players),
        vec![
            (2, at(0, 0), at(0, 0), vec![], vec![7, 3]),
            (4, at(0, 4), at(0, 4), vec![], vec![6, 1]),
            (6, at(4, 4), at(4, 4), vec![], vec![9, 8]),
        ]
    );
    assert_eq!(players.get_player_turn(), 2);
    assert_eq!(
        players.get_player(4).unwrap().get_next_to_collect(),
        Some(Item::new(1))
    );
}

#[test]
fn a_new_player_stands_at_the_start() {
    let player = Player::new(4, at(6, 0), items(&[5, 2]));
    assert_eq!(state(&player), (4, at(6, 0), at(6, 0), vec![], vec![5, 2]));
    assert!(player.is_at_start());
    assert_eq!(player.get_next_to_collect(), Some(Item::new(2)));

    let idle = Player::new(1, at(0, 0), vec![]);
    assert_eq!(idle.get_next_to_collect(), None);
}

#[test]
fn set_position_moves_the_figure_only() {
    let mut player = Player::new(4, at(6, 0), items(&[5, 2]));
    player.set_position(at(3, 3));
    assert_eq!(state(&player), (4, at(3, 3), at(6, 0), vec![], vec![5, 2]));
    assert!(!player.is_at_start());
    player.set_position(at(6, 0));
    assert!(player.is_at_start());
}

#[test]
fn only_the_next_item_is_collected() {
    let board = columns();
    // Item 3 lies at (0, 2), item 6 at (4, 2).
    let mut player = Player::restore(1, at(0, 2), at(0, 0), items(&[9]), items(&[6, 3]));
    player.try_collect_item(&board);
    assert_eq!(state(&player), (1, at(0, 2), at(0, 0), vec![9, 3], vec![6]));
    // The next item is 6 now: nothing more to find here.
    player.try_collect_item(&board);
    assert_eq!(state(&player), (1, at(0, 2), at(0, 0), vec![9, 3], vec![6]));

    // Item 6 is wanted, but not next.
    let mut early = Player::restore(2, at(4, 2), at(4, 0), vec![], items(&[6, 3]));
    early.try_collect_item(&board);
    assert_eq!(state(&early), (2, at(4, 2), at(4, 0), vec![], vec![6, 3]));

    // A tile without an item, a player without a wish, a figure off the board.
    let mut bare = Player::restore(3, at(0, 1), at(0, 0), vec![], items(&[3]));
    bare.try_collect_item(&board);
    assert_eq!(state(&bare), (3, at(0, 1), at(0, 0), vec![], vec![3]));
    let mut done = Player::restore(4, at(0, 2), at(0, 0), items(&[3]), vec![]);
    done.try_collect_item(&board);
    assert_eq!(state(&done), (4, at(0, 2), at(0, 0), vec![3], vec![]));
    let mut lost = Player::restore(5, at(9, 9), at(0, 0), vec![], items(&[3]));
    lost.try_collect_item(&board);
    assert_eq!(state(&lost), (5, at(9, 9), at(0, 0), vec![], vec![3]));
}

#[test]
fn the_turn_goes_round_in_rising_order() {
    let board = ring();
    let mut players = Players::seat(vec![1, 4, 7], 0, &board, vec![]);
    assert_eq!(players.get_player_turn(), 1);
    players.next_player_turn();
    assert_eq!(players.get_player_turn(), 4);
    players.next_player_turn();
    assert_eq!(players.get_player_turn(), 7);
    players.next_player_turn();
    assert_eq!(players.get_player_turn(), 1);
}

#[test]
fn without_players_the_turn_stays() {
    let board = ring();
    let mut players = Players::seat(vec![], 0, &board, vec![]);
    let turn = players.get_player_turn();
    players.next_player_turn();
    assert_eq!(players.get_player_turn(), turn);
    assert_eq!(players.len(), 0);
}

#[test]
fn restored_players_must_rise() {
    let list = |ids: &[usize]| -> Vec<Player> {
        ids.iter().map(|id| Player::new(*id, at(0, 0), vec![])).collect()
    };
    assert!(Players::restore(list(&[1, 2, 5]), 2).is_some());
    assert!(Players::restore(list(&[]), 0).is_some());
    assert!(Players::restore(list(&[4]), 9).is_some());
    assert!(Players::restore(list(&[1, 1]), 1).is_none());
    assert!(Players::restore(list(&[1, 5, 3]), 1).is_none());

    let mut late = Players::restore(list(&[1, 2, 5]), 3).unwrap();
    assert_eq!(late.get_player_turn(), 3);
    late.next_player_turn();
    assert_eq!(late.get_player_turn(), 5);
}

#[test]
fn removing_the_player_in_turn_passes_the_turn_on() {
    let board = ring();
    let mut players = Players::seat(vec![1, 4, 7], 0, &board, vec![]);
    assert_eq!(players.remove_player(1), Ok(None));
    assert_eq!(players.get_player_turn(), 4);
    assert_eq!(players.len(), 2);
    assert!(!players.has_player(1));

    let mut players = Players::seat(vec![1, 4, 7, 9], 0, &board, vec![]);
    players.next_player_turn();
    players.next_player_turn();
    players.next_player_turn();
    assert_eq!(players.get_player_turn(), 9);
    assert_eq!(players.remove_player(9), Ok(None));
    assert_eq!(players.get_player_turn(), 1);
}

#[test]
fn removing_another_player_keeps_the_turn() {
    let board = ring();
    let mut players = Players::seat(vec![1, 4, 7], 0, &board, vec![]);
    assert_eq!(players.remove_player(4), Ok(None));
    assert_eq!(players.get_player_turn(), 1);
    assert_eq!(
        players.get_players().iter().map(|p| p.get_id()).collect::<Vec<_>>(),
        vec![1, 7]
    );
}

#[test]
fn the_last_player_left_has_won() {
    let board = ring();
    let mut players = Players::seat(vec![1, 4, 7], 0, &board, vec![]);
    assert_eq!(players.remove_player(9), Err(()));
    assert_eq!(players.len(), 3);
    assert_eq!(players.remove_player(7), Ok(None));
    assert_eq!(players.remove_player(1), Ok(Some(4)));
    assert_eq!(players.len(), 1);
    assert_eq!(players.remove_player(1), Err(()));
    assert_eq!(players.remove_player(4), Ok(None));
    assert_eq!(players.len(), 0);
    assert_eq!(players.remove_player(4), Err(()));
}

#[test]
fn a_move_out_of_reach_changes_nothing() {
    let board = ring();
    let mut players = Players::seat(vec![1, 4], 1, &columns(), items(&[3, 6]));
    let before = states(&players);
    let reached = board.get_reachable(at(0, 0));
    assert!(!reached.contains(&at(1, 1)));
    assert!(matches!(
        players.move_player(1, at(1, 1), &board),
        MoveResult::Unreachable
    ));
    assert!(matches!(
        players.move_player(1, at(8, 8), &board),
        MoveResult::Unreachable
    ));
    assert_eq!(states(&players), before);
    assert_eq!(players.get_player_turn(), 1);
}

#[test]
fn a_move_of_nobody_changes_nothing() {
    let board = ring();
    let mut players = Players::seat(vec![1, 4], 0, &board, vec![]);
    let before = states(&players);
    assert!(matches!(
        players.move_player(2, at(0, 0), &board),
        MoveResult::InvalidPlayer
    ));
    assert_eq!(states(&players), before);
}

#[test]
fn a_move_within_reach_moves_the_figure() {
    let board = columns();
    let mut players = Players::seat(vec![1, 4], 1, &board, items(&[3, 6]));
    match players.move_player(4, at(0, 3), &board) {
        MoveResult::Moved(player) => {
            assert_eq!(state(player), (4, at(0, 3), at(0, 4), vec![], vec![6]));
            player.try_collect_item(&board);
        }
        _ => panic!("the player should have moved"),
    }
    assert_eq!(
        states(&players),
        vec![
            (1, at(0, 0), at(0, 0), vec![], vec![3]),
            (4, at(0, 3), at(0, 4), vec![], vec![6]),
        ]
    );
    assert_eq!(players.get_player_turn(), 1);
    // Back home, but with an item left to collect: no win.
    assert!(matches!(
        players.move_player(4, at(0, 4), &board),
        MoveResult::Moved(_)
    ));
}

#[test]
fn coming_home_with_nothing_left_to_collect_wins() {
    let board = ring();
    let mut players = Players::seat(vec![1, 4], 0, &board, vec![]);
    assert!(matches!(
        players.move_player(4, at(2, 2), &board),
        MoveResult::Moved(_)
    ));
    // The way home counts, not any corner: the top right is no win.
    assert!(matches!(
        players.move_player(4, at(2, 0), &board),
        MoveResult::Moved(_)
    ));
    assert!(matches!(
        players.move_player(4, at(0, 2), &board),
        MoveResult::Won(4)
    ));
    assert_eq!(players.get_player(4).unwrap().get_position(), at(0, 2));
    assert!(matches!(
        players.move_player(1, at(0, 0), &board),
        MoveResult::Won(1)
    ));
}

#[test]
fn iter_mut_reaches_every_player() {
    let board = ring();
    let mut players = Players::seat(vec![1, 4, 7], 0, &board, vec![]);
    for index in 0..players.len() {
        let player = players.iter_mut(index);
        assert_eq!(player.get_id(), [1, 4, 7][index]);
        player.set_position(at(1, 1));
    }
    for player in players.get_players() {
        assert_eq!(player.get_position(), at(1, 1));
    }
    assert_eq!(players.get_player_turn(), 1);
}
