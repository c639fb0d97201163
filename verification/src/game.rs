//! The game: a board, its players, and the cycle of their turns.
//!
//! A turn has two parts. First a tile is pushed into the board, then the
//! player whose turn it is moves. A game is over once it has a winner.

use std::collections::BTreeSet;
use vstd::prelude::*;
use vstd::std_specs::iter::IteratorSpec;

use crate::board::{
    moved_position,
    Board,
    NewBoardError,
    ShiftTileError,
};
use crate::layout::{number_of_items, valid_side_length};
use crate::player::{is_next_turn, MoveResult, Player, PlayerId, Players, Position};
use crate::tile::{Rotation, SideIndex};

verus! {

#[derive(Clone, Debug)]
pub struct Game {
    board: Board,
    players: Players,
    phase: GamePhase,
    winner: Option<PlayerId>,
}

/// The part of a turn that comes next.
#[derive(Copy, Clone, PartialEq, Eq, Debug, Structural)]
pub enum GamePhase {
    MoveTiles,
    MovePlayer,
}

/// What a game starts from: who plays, on how large a board, and for how many
/// items each.
#[derive(Clone, Debug)]
pub struct GameStartSettings {
    players: BTreeSet<PlayerId>,
    side_length: usize,
    items_per_player: usize,
}

#[derive(Clone, Copy, PartialEq, Eq, Debug, Structural)]
pub enum NewGameError {
    BoardError(NewBoardError),
    PlayerError,
}

#[derive(Clone, Copy, PartialEq, Eq, Debug, Structural)]
pub enum MovePlayerError {
    InvalidPosition,
    InvalidPlayer,
    UnreachablePosition,
}

pub type ActionResult<E> = Result<(), GameError<E>>;

/// Why an action was refused: the game is over, the action belongs to the
/// other part of the turn, or the action itself failed.
#[derive(Clone, Copy, PartialEq, Eq, Debug)]
pub enum GameError<T> {
    GameOver,
    StateError,
    ActionError(T),
}

/// Whether every player stands on a cell of the board.
pub open spec fn stand_on_board(players: Players, board: Board) -> bool {
    forall|k: int|
        0 <= k < players.list().len() ==> board.has_tile((#[trigger] players.list()[k]).position())
}

impl From<NewBoardError> for NewGameError {
    fn from(value: NewBoardError) -> (error: Self) {
        NewGameError::BoardError(value)
    }
}

impl vstd::std_specs::convert::FromSpecImpl<NewBoardError> for NewGameError {
    open spec fn obeys_from_spec() -> bool {
        true
    }

    open spec fn from_spec(value: NewBoardError) -> Self {
        NewGameError::BoardError(value)
    }
}

impl<E> From<E> for GameError<E> {
    fn from(value: E) -> (error: Self) {
        GameError::ActionError(value)
    }
}

impl<E> vstd::std_specs::convert::FromSpecImpl<E> for GameError<E> {
    open spec fn obeys_from_spec() -> bool {
        true
    }

    open spec fn from_spec(value: E) -> Self {
        GameError::ActionError(value)
    }
}

/// The ids of a set as a list.
fn ids_of(players: &BTreeSet<PlayerId>) -> (ids: Vec<PlayerId>)
    ensures
        ids@.to_set() == players@,
        ids@.len() == players@.len(),
        ids@.no_duplicates(),
{
    broadcast use vstd::std_specs::btree::group_btree_axioms;

    let mut ids: Vec<PlayerId> = Vec::new();
    for id in it: players.iter()
        invariant
            ids@.len() == it.index(),
            forall|k: int| 0 <= k < ids@.len() ==> ids@[k] == *it.seq()[k],
    {
        ids.push(*id);
    }
    assert(ids@ =~= players.iter().remaining().unref());
    ids
}

impl GameStartSettings {
    /// The ids of those who play.
    pub closed spec fn players(&self) -> Set<PlayerId> {
        self.players@
    }

    pub closed spec fn side_length(&self) -> nat {
        self.side_length as nat
    }

    pub closed spec fn items_per_player(&self) -> nat {
        self.items_per_player as nat
    }

    /// Whether a game can be made from these settings on this machine: the
    /// board fits, and it has an item for every card that is dealt.
    pub open spec fn fits(&self) -> bool {
        &&& self.side_length() * self.side_length() <= usize::MAX
        &&& valid_side_length(self.side_length() as int) ==> self.players().len()
            * self.items_per_player() <= number_of_items(self.side_length() as int)
    }

    pub fn new(
        players: BTreeSet<PlayerId>,
        side_length: usize,
        items_per_player: usize,
    ) -> (settings: Self)
        ensures
            settings.players() == players@,
            settings.side_length() == side_length,
            settings.items_per_player() == items_per_player,
    {
        Self { players, side_length, items_per_player }
    }

    pub fn get_players(&self) -> (players: &BTreeSet<PlayerId>)
        ensures
            players@ == self.players(),
    {
        &self.players
    }

    pub fn get_side_length(&self) -> (side_length: usize)
        ensures
            side_length == self.side_length(),
    {
        self.side_length
    }

    pub fn get_items_per_player(&self) -> (items_per_player: usize)
        ensures
            items_per_player == self.items_per_player(),
    {
        self.items_per_player
    }

    /// Whether a game can be made from these settings on this machine.
    pub fn is_playable(&self) -> (playable: bool)
        ensures
            playable == self.fits(),
    {
        broadcast use vstd::std_specs::btree::group_btree_axioms;

        let side_length = self.side_length;
        match side_length.checked_mul(side_length) {
            Some(_) => {},
            None => {
                return false;
            },
        }
        if side_length < 3 || side_length % 2 == 0 {
            return true;
        }
        let number_of_items = crate::board::calculate_number_of_items(side_length);
        match self.players.len().checked_mul(self.items_per_player) {
            Some(cards) => cards <= number_of_items,
            None => false,
        }
    }
}

impl Game {
    pub closed spec fn board(&self) -> Board {
        self.board
    }

    pub closed spec fn players(&self) -> Players {
        self.players
    }

    pub closed spec fn phase(&self) -> GamePhase {
        self.phase
    }

    pub closed spec fn winner(&self) -> Option<PlayerId> {
        self.winner
    }

    /// Whether the game is over.
    pub open spec fn is_over(&self) -> bool {
        self.winner().is_some()
    }

    /// The board and the players are in order, every player stands on the
    /// board, and as long as the game has no winner two or more players are
    /// in it and it is the turn of one of them.
    pub open spec fn wf(&self) -> bool {
        &&& self.board().wf()
        &&& self.players().wf()
        &&& stand_on_board(self.players(), self.board())
        &&& !self.is_over() ==> {
            &&& self.players().list().len() >= 2
            &&& self.players().contains(self.players().turn())
        }
    }

    /// The player whose turn it is.
    pub open spec fn current(&self) -> Player {
        self.players().player(self.players().turn())
    }

    /// Starts a game: makes the board, then seats the players and deals them
    /// their items. The first part of the first turn comes next.
    pub fn new(settings: GameStartSettings) -> (result: Result<Self, NewGameError>)
        requires
            settings.fits(),
        ensures
            match result {
                Ok(game) => {
                    &&& valid_side_length(settings.side_length() as int)
                    &&& settings.players().len() >= 2
                    &&& game.wf()
                    &&& game.phase() == GamePhase::MoveTiles
                    &&& game.winner().is_none()
                    &&& game.board().is_fresh(settings.side_length() as int)
                    &&& game.board().items_unique()
                    &&& game.players().is_fresh(
                        settings.players(),
                        settings.items_per_player() as int,
                        settings.side_length() as int,
                    )
                },
                Err(NewGameError::BoardError(NewBoardError::TooSmall)) => settings.side_length()
                    < 3,
                Err(NewGameError::BoardError(NewBoardError::EvenLength)) => settings.side_length()
                    >= 3 && settings.side_length() % 2 == 0,
                Err(NewGameError::PlayerError) => valid_side_length(settings.side_length() as int)
                    && settings.players().len() < 2,
            },
    {
        let board = match Board::new(settings.side_length) {
            Ok(board) => board,
            Err(error) => {
                return Err(NewGameError::from(error));
            },
        };
        let ids = ids_of(&settings.players);
        proof {
            vstd::seq_lib::seq_to_set_is_finite(ids@);
        }
        let players = match Players::new(ids, settings.items_per_player, &board) {
            Some(players) => players,
            None => {
                return Err(NewGameError::PlayerError);
            },
        };
        proof {
            Self::lemma_two_ids(players, settings.players());
            assert(players.ids()[0] == players.list()[0].id());
            assert(players.list()[0].id() == players.turn());
            assert(stand_on_board(players, board));
        }

        Ok(Self { board, players, phase: GamePhase::MoveTiles, winner: None })
    }

    /// Players that are as many as their ids are at least as many as any set
    /// of ids that holds exactly theirs.
    proof fn lemma_two_ids(players: Players, ids: Set<PlayerId>)
        requires
            players.wf(),
            ids.finite(),
            forall|id: PlayerId| players.contains(id) <==> ids.contains(id),
        ensures
            players.list().len() == ids.len(),
    {
        let listed = players.ids();
        assert(listed.no_duplicates()) by {
            assert forall|i: int, j: int|
                0 <= i < listed.len() && 0 <= j < listed.len() && i != j implies listed[i]
                != listed[j] by {
                if i < j {
                    assert(listed[i] < listed[j]);
                } else {
                    assert(listed[j] < listed[i]);
                }
            }
        }
        listed.unique_seq_to_set();
        assert(listed.to_set() =~= ids) by {
            assert forall|id: PlayerId| listed.to_set().contains(id) <==> ids.contains(id) by {
                if listed.contains(id) {
                    let k = choose|k: int| 0 <= k < listed.len() && listed[k] == id;
                    assert(players.list()[k].id() == id);
                }
                if players.contains(id) {
                    let k = choose|k: int|
                        0 <= k < players.list().len() && (#[trigger] players.list()[k]).id() == id;
                    assert(listed[k] == id);
                }
            }
        }
    }

    /// A game in the given state, if that is a state of a game: every player
    /// stands on the board and, unless the game has a winner, two or more
    /// players are in it and it is the turn of one of them.
    pub fn restore(
        board: Board,
        players: Players,
        phase: GamePhase,
        winner: Option<PlayerId>,
    ) -> (game: Option<Self>)
        requires
            board.wf(),
            players.wf(),
        ensures
            match game {
                Some(game) => {
                    &&& game.wf()
                    &&& game.board() == board
                    &&& game.players() == players
                    &&& game.phase() == phase
                    &&& game.winner() == winner
                },
                None => !stand_on_board(players, board) || (winner.is_none() && !(
                players.list().len() >= 2 && players.contains(players.turn()))),
            },
    {
        let list = players.get_players();
        let mut k: usize = 0;
        while k < list.len()
            invariant
                board.wf(),
                list@ == players.list(),
                k <= list@.len(),
                forall|j: int| 0 <= j < k ==> board.has_tile((#[trigger] list@[j]).position()),
            decreases list.len() - k,
        {
            if board.get_tile(list[k].get_position()).is_none() {
                return None;
            }
            k += 1;
        }
        if winner.is_none() && !(players.len() >= 2 && players.has_player(
            players.get_player_turn(),
        )) {
            return None;
        }
        Some(Self { board, players, phase, winner })
    }

    pub fn get_board(&self) -> (board: &Board)
        ensures
            *board == self.board(),
    {
        &self.board
    }

    pub fn get_players(&self) -> (players: &Players)
        ensures
            *players == self.players(),
    {
        &self.players
    }

    pub fn get_phase(&self) -> (phase: GamePhase)
        ensures
            phase == self.phase(),
    {
        self.phase
    }

    pub fn get_winner(&self) -> (winner: Option<PlayerId>)
        ensures
            winner == self.winner(),
    {
        self.winner
    }

    /// The cells to which the player whose turn it is can walk, or nothing if
    /// the game is over.
    pub fn currently_reachable(&self) -> (cells: Option<Vec<Position>>)
        requires
            self.wf(),
        ensures
            match cells {
                Some(cells) => {
                    &&& !self.is_over()
                    &&& self.board().is_reach(self.current().position(), cells@)
                    &&& self.board().is_search_order(self.current().position(), cells@)
                },
                None => self.is_over(),
            },
    {
        if self.winner.is_some() {
            return None;
        }
        Some(self.board.get_reachable(self.players.current_player().get_position()))
    }

    /// Turns the free tile, unless the game is over. Says whether it did.
    pub fn rotate_free_tile(&mut self, rotation: Rotation) -> (rotated: bool)
        ensures
            rotated == !old(self).is_over(),
            !rotated ==> *final(self) == *old(self),
            rotated ==> {
                &&& final(self).board().free().tile() == old(self).board().free().tile().rotated(
                    rotation,
                )
                &&& final(self).board().free().side_index() == old(
                    self,
                ).board().free().side_index()
                &&& final(self).board().grid() == old(self).board().grid()
                &&& final(self).board().side() == old(self).board().side()
                &&& final(self).players() == old(self).players()
                &&& final(self).phase() == old(self).phase()
                &&& final(self).winner() == old(self).winner()
            },
            old(self).wf() ==> final(self).wf(),
            old(self).board().items_unique() ==> final(self).board().items_unique(),
    {
        if self.winner.is_some() {
            false
        } else {
            self.board.rotate_free_tile(rotation);
            true
        }
    }
}

impl Game {
    /// Whether `after` are the players `before` once a push at `side_index` has
    /// carried along those who stood on the line: nobody has changed but in
    /// position, and the turn is whose it was.
    pub open spec fn is_rehomed(
        before: Players,
        side_index: SideIndex,
        s: nat,
        after: Players,
    ) -> bool {
        &&& after.turn() == before.turn()
        &&& after.list().len() == before.list().len()
        &&& forall|k: int|
            0 <= k < before.list().len() ==> #[trigger] after.list()[k]
                == before.list()[k].moved_to(
                moved_position(side_index, s, before.list()[k].position()),
            )
    }

    /// Players who differ from others only in where they stand have the same
    /// ids in the same order.
    proof fn lemma_same_ids(before: Players, after: Players)
        requires
            after.list().len() == before.list().len(),
            forall|k: int|
                0 <= k < before.list().len() ==> (#[trigger] after.list()[k]).id()
                    == before.list()[k].id(),
        ensures
            after.ids() == before.ids(),
            before.wf() ==> after.wf(),
            forall|id: PlayerId| before.contains(id) <==> after.contains(id),
    {
        assert(after.ids() =~= before.ids());
        assert forall|id: PlayerId| before.contains(id) <==> after.contains(id) by {
            if before.contains(id) {
                let k = choose|k: int|
                    0 <= k < before.list().len() && (#[trigger] before.list()[k]).id() == id;
                assert(after.list()[k].id() == id);
            }
            if after.contains(id) {
                let k = choose|k: int|
                    0 <= k < after.list().len() && (#[trigger] after.list()[k]).id() == id;
                assert(before.list()[k].id() == id);
            }
        }
    }

    /// The first part of a turn: pushes the free tile into the board at
    /// `side_index`. Players on the line ride along with their tiles. The
    /// second part of the turn comes next.
    pub fn shift_tiles(&mut self, side_index: SideIndex) -> (result: ActionResult<ShiftTileError>)
        requires
            old(self).wf(),
        ensures
            final(self).wf(),
            old(self).board().items_unique() ==> final(self).board().items_unique(),
            match result {
                Ok(_) => {
                    &&& !old(self).is_over()
                    &&& old(self).phase() == GamePhase::MoveTiles
                    &&& old(self).board().shift_error(side_index).is_none()
                    &&& old(self).board().is_shifted(side_index, final(self).board())
                    &&& Self::is_rehomed(
                        old(self).players(),
                        side_index,
                        old(self).board().side(),
                        final(self).players(),
                    )
                    &&& final(self).phase() == GamePhase::MovePlayer
                    &&& final(self).winner().is_none()
                },
                Err(GameError::GameOver) => old(self).is_over() && *final(self) == *old(self),
                Err(GameError::StateError) => {
                    &&& !old(self).is_over()
                    &&& old(self).phase() != GamePhase::MoveTiles
                    &&& *final(self) == *old(self)
                },
                Err(GameError::ActionError(error)) => {
                    &&& !old(self).is_over()
                    &&& old(self).phase() == GamePhase::MoveTiles
                    &&& old(self).board().shift_error(side_index) == Some(error)
                    &&& *final(self) == *old(self)
                },
            },
    {
        if self.winner.is_some() {
            return Err(GameError::GameOver);
        }
        if self.phase != GamePhase::MoveTiles {
            return Err(GameError::StateError);
        }

        let ghost s = self.board.side();
        let ghost before = self.players;
        let changes = match self.board.shift_tiles(side_index) {
            Ok(changes) => changes,
            Err(error) => {
                return Err(GameError::from(error));
            },
        };
        let ghost shifted = self.board;
        let count = self.players.len();
        let mut k: usize = 0;
        while k < count
            invariant
                self.board == shifted,
                self.winner == old(self).winner,
                self.phase == old(self).phase,
                changes.wf(),
                changes@ == crate::board::shift_map(side_index, s),
                side_index.index() < s <= usize::MAX,
                k <= count,
                count == before.list().len(),
                self.players.list().len() == count,
                self.players.turn() == before.turn(),
                forall|j: int|
                    0 <= j < k ==> #[trigger] self.players.list()[j] == before.list()[j].moved_to(
                        moved_position(side_index, s, before.list()[j].position()),
                    ),
                forall|j: int|
                    k <= j < count ==> #[trigger] self.players.list()[j] == before.list()[j],
            decreases count - k,
        {
            let player = self.players.iter_mut(k);
            let position = player.get_position();
            proof {
                before.list()[k as int].lemma_moved_to(position);
            }
            if let Some(new_pos) = changes.get(&position) {
                player.set_position(new_pos);
            }
            k += 1;
        }
        self.phase = GamePhase::MovePlayer;
        proof {
            assert forall|k: int| 0 <= k < before.list().len() implies (
            #[trigger] self.players.list()[k]).id() == before.list()[k].id() by {
                before.list()[k].lemma_moved_to(
                    moved_position(side_index, s, before.list()[k].position()),
                );
            }
            Self::lemma_same_ids(before, self.players);
            assert forall|k: int| 0 <= k < self.players.list().len() implies self.board.has_tile(
                (#[trigger] self.players.list()[k]).position(),
            ) by {
                let stood = before.list()[k].position();
                before.list()[k].lemma_moved_to(moved_position(side_index, s, stood));
                assert(old(self).board().has_tile(stood));
            }
        }

        Ok(())
    }

    /// Takes the player with the given id out of the game. If one player is
    /// left then, that player has won.
    pub fn remove_player(&mut self, player_id: PlayerId) -> (result: ActionResult<()>)
        requires
            old(self).wf(),
        ensures
            final(self).wf(),
            match result {
                Ok(_) => {
                    &&& !old(self).is_over()
                    &&& old(self).players().contains(player_id)
                    &&& final(self).board() == old(self).board()
                    &&& final(self).phase() == old(self).phase()
                    &&& final(self).players().list() == old(self).players().list().remove(
                        old(self).players().index_of(player_id),
                    )
                    &&& if final(self).players().list().len() == 1 {
                        &&& final(self).winner() == Some(final(self).players().list()[0].id())
                        &&& final(self).players().turn() == old(self).players().turn()
                    } else {
                        &&& final(self).winner().is_none()
                        &&& if player_id == old(self).players().turn() {
                            is_next_turn(
                                final(self).players().ids(),
                                old(self).players().turn(),
                                final(self).players().turn(),
                            )
                        } else {
                            final(self).players().turn() == old(self).players().turn()
                        }
                    }
                },
                Err(GameError::GameOver) => old(self).is_over() && *final(self) == *old(self),
                Err(GameError::StateError) => false,
                Err(GameError::ActionError(_)) => {
                    &&& !old(self).is_over()
                    &&& !old(self).players().contains(player_id)
                    &&& *final(self) == *old(self)
                },
            },
    {
        if self.winner.is_some() {
            return Err(GameError::GameOver);
        }
        let ghost before = self.players;
        match self.players.remove_player(player_id) {
            Ok(winner) => {
                self.winner = winner;
            },
            Err(error) => {
                return Err(GameError::from(error));
            },
        }
        proof {
            let index = before.index_of(player_id);
            let turn = before.turn();
            assert forall|k: int| 0 <= k < self.players.list().len() implies self.board.has_tile(
                (#[trigger] self.players.list()[k]).position(),
            ) by {
                let was = if k < index {
                    k
                } else {
                    k + 1
                };
                assert(self.players.list()[k] == before.list()[was]);
            }
            if self.winner.is_none() && player_id != turn {
                let at = before.index_of(turn);
                assert(before.list()[at].id() == turn);
                let now = if at < index {
                    at
                } else {
                    at - 1
                };
                assert(self.players.list()[now] == before.list()[at]);
            }
            if self.winner.is_none() && player_id == turn {
                let next = self.players.turn();
                let k = choose|k: int|
                    0 <= k < self.players.ids().len() && self.players.ids()[k] == next;
                assert(self.players.list()[k].id() == next);
            }
        }

        Ok(())
    }

    /// The second part of a turn: moves the figure of the player with the
    /// given id to `position` along a shortest walk, which is the result. A
    /// player who comes home with nothing left to collect has won. Any other
    /// player collects the item under the figure, if it is the next to
    /// collect, and the turn passes on. Either way the first part of a turn
    /// comes next.
    pub fn move_player(&mut self, player_id: PlayerId, position: Position) -> (result: Result<
        Vec<Position>,
        GameError<MovePlayerError>,
    >)
        requires
            old(self).wf(),
        ensures
            final(self).wf(),
            match result {
                Ok(path) => {
                    let player = old(self).players().player(player_id);
                    let index = old(self).players().index_of(player_id);
                    let moved = player.moved_to(position);
                    &&& !old(self).is_over()
                    &&& old(self).phase() == GamePhase::MovePlayer
                    &&& old(self).board().has_tile(position)
                    &&& old(self).players().contains(player_id)
                    &&& old(self).board().is_shortest_walk(path@, player.position(), position)
                    &&& old(self).board().is_search_path(player.position(), position, path@)
                    &&& final(self).board() == old(self).board()
                    &&& final(self).phase() == GamePhase::MoveTiles
                    &&& final(self).players().list().len() == old(self).players().list().len()
                    &&& forall|k: int|
                        0 <= k < old(self).players().list().len() && k != index
                            ==> #[trigger] final(self).players().list()[k] == old(
                            self,
                        ).players().list()[k]
                    &&& if moved.has_won() {
                        &&& final(self).winner() == Some(player_id)
                        &&& final(self).players().list()[index] == moved
                        &&& final(self).players().turn() == old(self).players().turn()
                    } else {
                        &&& final(self).winner().is_none()
                        &&& moved.is_after_collecting(
                            &old(self).board(),
                            final(self).players().list()[index],
                        )
                        &&& is_next_turn(
                            old(self).players().ids(),
                            old(self).players().turn(),
                            final(self).players().turn(),
                        )
                    }
                },
                Err(GameError::GameOver) => old(self).is_over() && *final(self) == *old(self),
                Err(GameError::StateError) => {
                    &&& !old(self).is_over()
                    &&& old(self).phase() != GamePhase::MovePlayer
                    &&& *final(self) == *old(self)
                },
                Err(GameError::ActionError(error)) => {
                    &&& !old(self).is_over()
                    &&& old(self).phase() == GamePhase::MovePlayer
                    &&& *final(self) == *old(self)
                    &&& error == old(self).move_error(player_id, position).unwrap()
                    &&& old(self).move_error(player_id, position).is_some()
                },
            },
    {
        if self.winner.is_some() {
            return Err(GameError::GameOver);
        }
        if self.phase != GamePhase::MovePlayer {
            return Err(GameError::StateError);
        }
        if self.board.get_tile(position).is_none() {
            return Err(GameError::ActionError(MovePlayerError::InvalidPosition));
        }
        let from = match self.players.get_player(player_id) {
            Some(player) => player.get_position(),
            None => {
                return Err(GameError::ActionError(MovePlayerError::InvalidPlayer));
            },
        };
        let path = match self.board.get_path(from, position) {
            Some(path) => path,
            None => {
                return Err(GameError::ActionError(MovePlayerError::UnreachablePosition));
            },
        };
        let ghost before = self.players;
        let ghost index = before.index_of(player_id);
        proof {
            assert(self.board.reachable(from, position));
            before.player(player_id).lemma_moved_to(position);
        }
        match self.players.move_player(player_id, position, &self.board) {
            MoveResult::Moved(player) => {
                player.try_collect_item(&self.board);
            },
            MoveResult::Won(winner) => {
                self.winner = Some(winner);
                self.phase = GamePhase::MoveTiles;
                return Ok(path);
            },
            MoveResult::InvalidPlayer => {
                return Err(GameError::ActionError(MovePlayerError::InvalidPlayer));
            },
            MoveResult::Unreachable => {
                return Err(GameError::ActionError(MovePlayerError::UnreachablePosition));
            },
        }
        let ghost moved = self.players;
        proof {
            assert forall|k: int| 0 <= k < before.list().len() implies (
            #[trigger] moved.list()[k]).id() == before.list()[k].id() by {}
            Self::lemma_same_ids(before, moved);
        }
        self.players.next_player_turn();
        self.phase = GamePhase::MoveTiles;
        proof {
            Self::lemma_same_ids(moved, self.players);
            let next = self.players.turn();
            let k = choose|k: int| 0 <= k < moved.ids().len() && moved.ids()[k] == next;
            assert(self.players.list()[k].id() == next);
        }

        Ok(path)
    }

    /// Why a move of the player with the given id to `position` is refused,
    /// if it is: the position is off the board, there is no such player, or
    /// no walk leads the player there.
    pub open spec fn move_error(&self, player_id: PlayerId, position: Position) -> Option<
        MovePlayerError,
    > {
        if !self.board().has_tile(position) {
            Some(MovePlayerError::InvalidPosition)
        } else if !self.players().contains(player_id) {
            Some(MovePlayerError::InvalidPlayer)
        } else if !self.board().reachable(
            self.players().player(player_id).position(),
            position,
        ) {
            Some(MovePlayerError::UnreachablePosition)
        } else {
            None
        }
    }
}

} // verus!
