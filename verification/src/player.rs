//! Players, their positions on the board and the order of their turns.

use rand::rngs::ThreadRng;
use vstd::prelude::*;

use crate::board::Board;
use crate::chance::{choose_multiple, lemma_reordered, lemma_selected, shuffle, thread_rng};
use crate::generate::item_pool;
use crate::layout::number_of_items;
use crate::tile::Item;

verus! {

pub type PlayerId = usize;

/// The players of a game in the order of their turns, which is the rising
/// order of their ids, and the id of the player whose turn it is.
#[derive(Clone, Debug)]
pub struct Players {
    players: Vec<Player>,
    player_turn: PlayerId,
}

/// One player: where the figure stands, where it started, and the items that
/// it has collected and has yet to collect. The last item of `to_collect` is
/// the one to collect next.
#[derive(Clone, Debug)]
pub struct Player {
    id: PlayerId,
    position: Position,
    start_position: Position,
    collected: Vec<Item>,
    to_collect: Vec<Item>,
}

/// What came of an attempt to move a player.
pub enum MoveResult<'a> {
    /// The player stands at the new position and has not won.
    Moved(&'a mut Player),
    /// The player stands at the new position, which is where it started, and
    /// has no item left to collect.
    Won(PlayerId),
    /// There is no player with that id.
    InvalidPlayer,
    /// No walk leads from the player to the new position.
    Unreachable,
}

/// A cell of the board: `x` is the column, `y` the row, both counted from 0.
#[derive(Clone, Copy, PartialEq, Eq, Hash, Debug, Structural)]
pub struct Position {
    pub x: usize,
    pub y: usize,
}

impl Position {
    pub fn new(x: usize, y: usize) -> (position: Self)
        ensures
            position == (Position { x, y }),
    {
        Self { x, y }
    }

    pub fn get_x(&self) -> (x: usize)
        ensures
            x == self.x,
    {
        self.x
    }

    pub fn get_y(&self) -> (y: usize)
        ensures
            y == self.y,
    {
        self.y
    }

    /// The cell above, unless this one lies in the top row.
    pub fn top(&self, _board: &Board) -> (above: Option<Self>)
        ensures
            above == (if self.y == 0 {
                None
            } else {
                Some(Position { x: self.x, y: (self.y - 1) as usize })
            }),
    {
        if self.y == 0 {
            return None;
        }
        Some(Self { x: self.x, y: self.y - 1 })
    }

    /// The cell below, unless this one lies in or under the bottom row.
    pub fn bottom(&self, board: &Board) -> (below: Option<Self>)
        requires
            board.wf(),
        ensures
            below == (if self.y + 1 < board.side() {
                Some(Position { x: self.x, y: (self.y + 1) as usize })
            } else {
                None
            }),
    {
        if self.y > board.get_side_length() - 2 {
            return None;
        }
        Some(Self { x: self.x, y: self.y + 1 })
    }

    /// The cell to the left, unless this one lies in the leftmost column.
    pub fn left(&self, _board: &Board) -> (beside: Option<Self>)
        ensures
            beside == (if self.x == 0 {
                None
            } else {
                Some(Position { x: (self.x - 1) as usize, y: self.y })
            }),
    {
        if self.x == 0 {
            return None;
        }
        Some(Self { x: self.x - 1, y: self.y })
    }

    /// The cell to the right, unless this one lies in or beyond the rightmost
    /// column.
    pub fn right(&self, board: &Board) -> (beside: Option<Self>)
        requires
            board.wf(),
        ensures
            beside == (if self.x + 1 < board.side() {
                Some(Position { x: (self.x + 1) as usize, y: self.y })
            } else {
                None
            }),
    {
        if self.x > board.get_side_length() - 2 {
            return None;
        }
        Some(Self { x: self.x + 1, y: self.y })
    }
}

/// The corner in which the player with the given place in the turn order
/// starts, as column and row: (0, 0), (0, last), (last, last), (last, 0), and
/// round again. That is top left, bottom left, bottom right, top right.
pub open spec fn start_corner(index: int, s: int) -> Position {
    let last = (s - 1) as usize;
    if index % 4 == 0 {
        Position { x: 0, y: 0 }
    } else if index % 4 == 1 {
        Position { x: 0, y: last }
    } else if index % 4 == 2 {
        Position { x: last, y: last }
    } else {
        Position { x: last, y: 0 }
    }
}

pub fn get_start_position(index: usize, side_length: usize) -> (position: Position)
    requires
        side_length >= 1,
    ensures
        position == start_corner(index as int, side_length as int),
{
    match index % 4 {
        0 => Position::new(0, 0),
        1 => Position::new(0, side_length - 1),
        2 => Position::new(side_length - 1, side_length - 1),
        _ => Position::new(side_length - 1, 0),
    }
}

impl Player {
    pub closed spec fn id(&self) -> PlayerId {
        self.id
    }

    pub closed spec fn position(&self) -> Position {
        self.position
    }

    pub closed spec fn start_position(&self) -> Position {
        self.start_position
    }

    /// The items that the player has collected, in the order of collecting.
    pub closed spec fn collected(&self) -> Seq<Item> {
        self.collected@
    }

    /// The items that the player has yet to collect, the next one last.
    pub closed spec fn to_collect(&self) -> Seq<Item> {
        self.to_collect@
    }

    /// The item that the player has to collect next, if any is left.
    pub open spec fn next_to_collect(&self) -> Option<Item> {
        if self.to_collect().len() == 0 {
            None
        } else {
            Some(self.to_collect().last())
        }
    }

    /// Whether the player stands where it started.
    pub open spec fn at_start(&self) -> bool {
        self.position() == self.start_position()
    }

    /// Whether the player has won: nothing is left to collect and the figure
    /// is back where it started.
    pub open spec fn has_won(&self) -> bool {
        self.to_collect().len() == 0 && self.at_start()
    }

    /// This player with the figure at `position`.
    pub closed spec fn moved_to(self, position: Position) -> Player {
        Player { position, ..self }
    }

    /// Whether the player, standing on `board`, can collect an item now: the
    /// tile under the figure carries the item that is next to collect.
    pub open spec fn can_collect(&self, board: &Board) -> bool {
        &&& self.to_collect().len() > 0
        &&& board.tile_at(self.position()) matches Some(tile)
        &&& tile.item() == Some(self.to_collect().last())
    }

    /// Whether `after` is this player after an attempt to collect an item on
    /// `board`: if the tile under the figure carries the item that is next to
    /// collect, that item has moved from `to_collect` to the end of
    /// `collected`; nothing else has changed.
    pub open spec fn is_after_collecting(&self, board: &Board, after: Player) -> bool {
        &&& after.id() == self.id()
        &&& after.position() == self.position()
        &&& after.start_position() == self.start_position()
        &&& if self.can_collect(board) {
            &&& after.to_collect() == self.to_collect().drop_last()
            &&& after.collected() == self.collected().push(self.to_collect().last())
        } else {
            &&& after.to_collect() == self.to_collect()
            &&& after.collected() == self.collected()
        }
    }

    /// Moving the figure changes the position and nothing else.
    pub proof fn lemma_moved_to(self, position: Position)
        ensures
            self.moved_to(position).position() == position,
            self.moved_to(position).id() == self.id(),
            self.moved_to(position).start_position() == self.start_position(),
            self.moved_to(position).collected() == self.collected(),
            self.moved_to(position).to_collect() == self.to_collect(),
            self.moved_to(self.position()) == self,
    {
    }

    pub fn new(id: PlayerId, start_position: Position, to_collect: Vec<Item>) -> (player: Self)
        ensures
            player.id() == id,
            player.position() == start_position,
            player.start_position() == start_position,
            player.collected() == Seq::<Item>::empty(),
            player.to_collect() == to_collect@,
    {
        Self { id, position: start_position, start_position, collected: Vec::new(), to_collect }
    }

    /// A player in the middle of a game.
    pub fn restore(
        id: PlayerId,
        position: Position,
        start_position: Position,
        collected: Vec<Item>,
        to_collect: Vec<Item>,
    ) -> (player: Self)
        ensures
            player.id() == id,
            player.position() == position,
            player.start_position() == start_position,
            player.collected() == collected@,
            player.to_collect() == to_collect@,
    {
        Self { id, position, start_position, collected, to_collect }
    }

    pub fn get_id(&self) -> (id: PlayerId)
        ensures
            id == self.id(),
    {
        self.id
    }

    pub fn get_position(&self) -> (position: Position)
        ensures
            position == self.position(),
    {
        self.position
    }

    pub fn get_start_position(&self) -> (position: Position)
        ensures
            position == self.start_position(),
    {
        self.start_position
    }

    pub fn get_collected(&self) -> (items: &Vec<Item>)
        ensures
            items@ == self.collected(),
    {
        &self.collected
    }

    pub fn get_to_collect(&self) -> (items: &Vec<Item>)
        ensures
            items@ == self.to_collect(),
    {
        &self.to_collect
    }

    pub fn get_next_to_collect(&self) -> (item: Option<Item>)
        ensures
            item == self.next_to_collect(),
    {
        if self.to_collect.len() == 0 {
            None
        } else {
            Some(self.to_collect[self.to_collect.len() - 1])
        }
    }

    pub fn is_at_start(&self) -> (at_start: bool)
        ensures
            at_start == self.at_start(),
    {
        self.position == self.start_position
    }

    pub fn set_position(&mut self, position: Position)
        ensures
            *final(self) == old(self).moved_to(position),
            final(self).position() == position,
            final(self).id() == old(self).id(),
            final(self).start_position() == old(self).start_position(),
            final(self).collected() == old(self).collected(),
            final(self).to_collect() == old(self).to_collect(),
    {
        self.position = position;
    }

    /// Collects the item on the tile under the figure, if it is the item that
    /// is next to collect: it moves from `to_collect` to the end of
    /// `collected`. Otherwise nothing changes.
    pub fn try_collect_item(&mut self, board: &Board)
        requires
            board.wf(),
        ensures
            old(self).is_after_collecting(board, *final(self)),
            !old(self).can_collect(board) ==> *final(self) == *old(self),
    {
        let next = self.get_next_to_collect();
        let found = match board.get_tile(self.position) {
            Some(tile) => tile.get_item(),
            None => None,
        };
        match (next, found) {
            (Some(wanted), Some(item)) => {
                if wanted == item {
                    let taken = self.to_collect.pop().unwrap();
                    self.collected.push(taken);
                }
            },
            _ => {},
        }
    }
}

/// Whether the ids rise strictly.
pub open spec fn strictly_ascending(ids: Seq<PlayerId>) -> bool {
    forall|i: int, j: int| 0 <= i < j < ids.len() ==> ids[i] < ids[j]
}

/// Whether `next` is the id whose turn follows that of `turn` among `ids`: the
/// smallest id above `turn`, or the smallest of all if none is above. With no
/// ids the turn stays.
pub open spec fn is_next_turn(ids: Seq<PlayerId>, turn: PlayerId, next: PlayerId) -> bool {
    if ids.len() == 0 {
        next == turn
    } else {
        &&& ids.contains(next)
        &&& if exists|i: int| 0 <= i < ids.len() && ids[i] > turn {
            &&& next > turn
            &&& forall|i: int| 0 <= i < ids.len() && ids[i] > turn ==> next <= ids[i]
        } else {
            forall|i: int| 0 <= i < ids.len() ==> next <= ids[i]
        }
    }
}

/// Whether no two of the ids differ: there is one id at most.
pub open spec fn all_same(ids: Seq<PlayerId>) -> bool {
    forall|i: int, j: int| 0 <= i < ids.len() && 0 <= j < ids.len() ==> ids[i] == ids[j]
}

/// The ids, each once, in rising order.
pub fn sorted_ids(ids: &Vec<PlayerId>) -> (sorted: Vec<PlayerId>)
    ensures
        strictly_ascending(sorted@),
        forall|id: PlayerId| sorted@.contains(id) <==> ids@.contains(id),
        sorted@.len() == ids@.to_set().len(),
        sorted@.len() <= ids@.len(),
{
    let mut sorted: Vec<PlayerId> = Vec::new();
    let mut taken: usize = 0;
    while taken < ids.len()
        invariant
            taken <= ids@.len(),
            sorted@.len() <= taken,
            strictly_ascending(sorted@),
            forall|id: PlayerId| sorted@.contains(id) <==> ids@.take(taken as int).contains(id),
        decreases ids.len() - taken,
    {
        let id = ids[taken];
        let mut at: usize = 0;
        while at < sorted.len() && sorted[at] < id
            invariant
                at <= sorted@.len(),
                forall|i: int| 0 <= i < at ==> sorted@[i] < id,
            decreases sorted.len() - at,
        {
            at += 1;
        }
        let ghost before = sorted@;
        let ghost seen = ids@.take(taken as int);
        proof {
            assert(ids@.take(taken + 1) =~= seen.push(id));
        }
        if at < sorted.len() && sorted[at] == id {
            proof {
                assert forall|other: PlayerId| before.contains(other) <==> seen.push(
                    id,
                ).contains(other) by {
                    assert(before.contains(other) <==> seen.contains(other));
                    if seen.push(id).contains(other) {
                        let k = choose|k: int| 0 <= k < seen.len() + 1 && seen.push(id)[k] == other;
                        if k < seen.len() {
                            assert(seen.contains(seen[k]));
                        } else {
                            assert(before[at as int] == other);
                        }
                    }
                    if before.contains(other) {
                        let k = choose|k: int| 0 <= k < seen.len() && seen[k] == other;
                        assert(seen.push(id)[k] == other);
                    }
                }
            }
        } else {
            sorted.insert(at, id);
            proof {
                assert(strictly_ascending(sorted@)) by {
                    assert forall|i: int, j: int| 0 <= i < j < sorted@.len() implies sorted@[i]
                        < sorted@[j] by {
                        let a = if i < at {
                            i
                        } else {
                            i - 1
                        };
                        let b = if j < at {
                            j
                        } else {
                            j - 1
                        };
                        if i != at && j != at {
                            assert(before[a] < before[b]);
                        } else if i == at {
                            assert(before[at as int] <= before[b]) by {
                                if at < b {
                                    assert(before[at as int] < before[b]);
                                }
                            }
                        }
                    }
                }
                assert forall|other: PlayerId| sorted@.contains(other) <==> seen.push(
                    id,
                ).contains(other) by {
                    if sorted@.contains(other) {
                        let k = choose|k: int| 0 <= k < sorted@.len() && sorted@[k] == other;
                        if k == at {
                            assert(seen.push(id)[seen.len() as int] == other);
                        } else {
                            let a = if k < at {
                                k
                            } else {
                                k - 1
                            };
                            assert(before.contains(before[a]));
                            assert(before.contains(other) <==> seen.contains(other));
                            let m = choose|m: int| 0 <= m < seen.len() && seen[m] == other;
                            assert(seen.push(id)[m] == other);
                        }
                    }
                    if seen.push(id).contains(other) {
                        let k = choose|k: int| 0 <= k < seen.len() + 1 && seen.push(id)[k] == other;
                        if k < seen.len() {
                            assert(seen.contains(seen[k]));
                            assert(before.contains(other) <==> seen.contains(other));
                            let m = choose|m: int| 0 <= m < before.len() && before[m] == other;
                            let b = if m < at {
                                m
                            } else {
                                m + 1
                            };
                            assert(sorted@[b] == other);
                        } else {
                            assert(sorted@[at as int] == other);
                        }
                    }
                }
            }
        }
        taken += 1;
    }
    proof {
        assert(ids@.take(taken as int) =~= ids@);
        assert(sorted@.no_duplicates()) by {
            assert forall|i: int, j: int|
                0 <= i < sorted@.len() && 0 <= j < sorted@.len() && i != j implies sorted@[i]
                != sorted@[j] by {
                if i < j {
                    assert(sorted@[i] < sorted@[j]);
                } else {
                    assert(sorted@[j] < sorted@[i]);
                }
            }
        }
        sorted@.unique_seq_to_set();
        assert(sorted@.to_set() =~= ids@.to_set());
    }
    sorted
}

/// Draws `num_item_cards` different items out of the items 1 to
/// `num_board_items`, in an order left to chance.
pub fn get_items_to_collect(
    num_board_items: usize,
    num_item_cards: usize,
    rng: &mut ThreadRng,
) -> (cards: Vec<Item>)
    requires
        num_item_cards <= num_board_items,
    ensures
        is_hand_of_cards(cards@, num_item_cards as int, num_board_items as int),
{
    let mut items = item_pool(num_board_items);
    let ghost pool = items@;
    shuffle(&mut items, rng);
    let ghost shuffled = items@;
    proof {
        lemma_reordered(pool, shuffled);
    }
    let mut cards = choose_multiple(items, rng, num_item_cards);
    let ghost chosen = cards@;
    shuffle(&mut cards, rng);
    proof {
        lemma_selected(chosen, shuffled);
        lemma_reordered(chosen, cards@);
        assert(pool.no_duplicates()) by {
            assert forall|i: int, j: int|
                0 <= i < pool.len() && 0 <= j < pool.len() && i != j implies pool[i] != pool[j] by {
                assert(pool[i].id() != pool[j].id());
            }
        }
        assert forall|k: int| 0 <= k < cards@.len() implies 1 <= (#[trigger] cards@[k]).id()
            <= num_board_items by {
            assert(cards@.contains(cards@[k]));
            assert(chosen.contains(cards@[k]));
            assert(shuffled.contains(cards@[k]));
            assert(pool.contains(cards@[k]));
        }
    }
    cards
}

/// The cards of the player in place `k` of `n`, `p` cards each, lie within the
/// `n * p` cards that are dealt.
proof fn lemma_hand_bounds(k: int, n: int, p: int)
    requires
        0 <= k < n,
        0 <= p,
    ensures
        0 <= k * p,
        (k + 1) * p == k * p + p,
        (k + 1) * p <= n * p,
{
    assert(0 <= k * p && (k + 1) * p <= n * p && (k + 1) * p == k * p + p) by (nonlinear_arith)
        requires
            0 <= k < n,
            0 <= p,
    ;
}

/// Whether `cards` holds `count` different items of a board with `items`
/// items.
pub open spec fn is_hand_of_cards(cards: Seq<Item>, count: int, items: int) -> bool {
    &&& cards.len() == count
    &&& cards.no_duplicates()
    &&& forall|k: int| 0 <= k < cards.len() ==> 1 <= (#[trigger] cards[k]).id() <= items
}

impl Players {
    /// The players in the order of their turns.
    pub closed spec fn list(&self) -> Seq<Player> {
        self.players@
    }

    /// The id of the player whose turn it is.
    pub closed spec fn turn(&self) -> PlayerId {
        self.player_turn
    }

    /// The ids of the players in the order of their turns.
    pub open spec fn ids(&self) -> Seq<PlayerId> {
        Seq::new(self.list().len(), |k: int| self.list()[k].id())
    }

    /// The players stand in the rising order of their ids, so no id occurs
    /// twice.
    pub open spec fn wf(&self) -> bool {
        strictly_ascending(self.ids())
    }

    /// Whether a player has the given id.
    pub open spec fn contains(&self, id: PlayerId) -> bool {
        exists|k: int| 0 <= k < self.list().len() && (#[trigger] self.list()[k]).id() == id
    }

    /// The place of the player with the given id in the turn order.
    pub open spec fn index_of(&self, id: PlayerId) -> int {
        choose|k: int| 0 <= k < self.list().len() && (#[trigger] self.list()[k]).id() == id
    }

    /// The player with the given id.
    pub open spec fn player(&self, id: PlayerId) -> Player {
        self.list()[self.index_of(id)]
    }

    /// Whether these are the players with the given ids as they sit down to a
    /// game on a board of side `s`: in the order of the ids, each in a corner,
    /// with nothing collected, holding the next `items_per_player` of `cards`;
    /// the first one begins.
    pub open spec fn is_seated(
        &self,
        ids: Seq<PlayerId>,
        items_per_player: int,
        s: int,
        cards: Seq<Item>,
    ) -> bool {
        &&& self.list().len() == ids.len()
        &&& ids.len() > 0 ==> self.turn() == ids[0]
        &&& forall|k: int|
            0 <= k < ids.len() ==> {
                let player = #[trigger] self.list()[k];
                &&& player.id() == ids[k]
                &&& player.position() == start_corner(k, s)
                &&& player.start_position() == start_corner(k, s)
                &&& player.collected() == Seq::<Item>::empty()
                &&& player.to_collect() == cards.subrange(
                    k * items_per_player,
                    (k + 1) * items_per_player,
                )
            }
    }

    /// Whether no item is held twice: not by two players, and not twice by one.
    pub open spec fn hands_disjoint(&self) -> bool {
        forall|a: int, i: int, b: int, j: int|
            0 <= a < self.list().len() && 0 <= b < self.list().len() && 0 <= i
                < self.list()[a].to_collect().len() && 0 <= j < self.list()[b].to_collect().len()
                && (a != b || i != j) ==> #[trigger] self.list()[a].to_collect()[i]
                != #[trigger] self.list()[b].to_collect()[j]
    }

    /// Whether these players can come out of the start of a game for the given
    /// ids on a board of side `s`: they sit in the rising order of those ids,
    /// and they hold cards dealt from a hand of different items of the board.
    pub open spec fn is_fresh(&self, ids: Set<PlayerId>, items_per_player: int, s: int) -> bool {
        &&& self.wf()
        &&& forall|id: PlayerId| self.contains(id) <==> ids.contains(id)
        &&& self.hands_disjoint()
        &&& forall|k: int|
            0 <= k < self.list().len() ==> (#[trigger] self.list()[k]).to_collect().len()
                == items_per_player
        &&& exists|cards: Seq<Item>|
            is_hand_of_cards(cards, self.list().len() * items_per_player, number_of_items(s))
                && #[trigger] self.is_seated(self.ids(), items_per_player, s, cards)
    }

    /// Players who were dealt their items from cards that are all different
    /// hold no item twice: each holds as many different items as were dealt to
    /// each, and no two players share one.
    pub proof fn lemma_dealt_hands_disjoint(
        &self,
        ids: Seq<PlayerId>,
        items_per_player: int,
        s: int,
        cards: Seq<Item>,
    )
        requires
            self.is_seated(ids, items_per_player, s, cards),
            cards.no_duplicates(),
            cards.len() == ids.len() * items_per_player,
            0 <= items_per_player,
        ensures
            self.hands_disjoint(),
            forall|k: int|
                0 <= k < self.list().len() ==> (#[trigger] self.list()[k]).to_collect().len()
                    == items_per_player,
    {
        let n = ids.len() as int;
        let p = items_per_player;
        assert forall|k: int| 0 <= k < self.list().len() implies (#[trigger] self.list()[
            k
        ]).to_collect().len() == p by {
            lemma_hand_bounds(k, n, p);
        }
        assert forall|a: int, i: int, b: int, j: int|
            0 <= a < self.list().len() && 0 <= b < self.list().len() && 0 <= i
                < self.list()[a].to_collect().len() && 0 <= j < self.list()[b].to_collect().len()
                && (a != b || i != j) implies #[trigger] self.list()[a].to_collect()[i]
            != #[trigger] self.list()[b].to_collect()[j] by {
            lemma_hand_bounds(a, n, p);
            lemma_hand_bounds(b, n, p);
            assert(self.list()[a].to_collect().len() == p);
            assert(self.list()[b].to_collect().len() == p);
            assert(self.list()[a].to_collect()[i] == cards[a * p + i]);
            assert(self.list()[b].to_collect()[j] == cards[b * p + j]);
            assert(a * p + i != b * p + j) by (nonlinear_arith)
                requires
                    0 <= i < p,
                    0 <= j < p,
                    a != b || i != j,
            ;
        }
    }

    /// Seats the players with the given ids, which rise, at a game on `board`
    /// and hands each the next `items_per_player` of `cards`.
    pub fn seat(
        ids: Vec<PlayerId>,
        items_per_player: usize,
        board: &Board,
        cards: Vec<Item>,
    ) -> (players: Self)
        requires
            board.wf(),
            strictly_ascending(ids@),
            cards@.len() == ids@.len() * items_per_player,
        ensures
            players.wf(),
            players.ids() == ids@,
            players.is_seated(ids@, items_per_player as int, board.side() as int, cards@),
    {
        let side_length = board.get_side_length();
        let ghost n = ids@.len() as int;
        let ghost p = items_per_player as int;
        let player_turn = if ids.len() > 0 {
            ids[0]
        } else {
            0
        };
        assert(cards@.len() == cards.len() <= usize::MAX);
        let mut players: Vec<Player> = Vec::new();
        let mut index: usize = 0;
        while index < ids.len()
            invariant
                index <= ids@.len(),
                n == ids@.len(),
                p == items_per_player,
                side_length == board.side(),
                side_length >= 1,
                cards@.len() == n * p,
                n * p <= usize::MAX,
                players@.len() == index,
                forall|k: int|
                    0 <= k < index ==> {
                        let player = #[trigger] players@[k];
                        &&& player.id() == ids@[k]
                        &&& player.position() == start_corner(k, side_length as int)
                        &&& player.start_position() == start_corner(k, side_length as int)
                        &&& player.collected() == Seq::<Item>::empty()
                        &&& player.to_collect() == cards@.subrange(k * p, (k + 1) * p)
                    },
            decreases ids.len() - index,
        {
            proof {
                lemma_hand_bounds(index as int, n, p);
            }
            let first = index * items_per_player;
            let mut hand: Vec<Item> = Vec::new();
            let mut dealt: usize = 0;
            while dealt < items_per_player
                invariant
                    dealt <= items_per_player,
                    p == items_per_player,
                    first == index * p,
                    first + p <= cards@.len() <= usize::MAX,
                    hand@ == cards@.subrange(first as int, first + dealt),
                decreases items_per_player - dealt,
            {
                hand.push(cards[first + dealt]);
                dealt += 1;
                assert(hand@ =~= cards@.subrange(first as int, first + dealt));
            }
            players.push(Player::new(ids[index], get_start_position(index, side_length), hand));
            index += 1;
        }
        let seated = Self { players, player_turn };
        assert(seated.ids() =~= ids@);
        seated
    }

    /// Seats the players with the given ids at a game on `board` and deals
    /// each `items_per_player` items of the board, no item twice. There is no
    /// game for fewer than two players.
    pub fn new(ids: Vec<PlayerId>, items_per_player: usize, board: &Board) -> (players: Option<
        Self,
    >)
        requires
            board.wf(),
            ids@.len() * items_per_player <= number_of_items(board.side() as int),
        ensures
            players.is_none() <==> ids@.to_set().len() < 2,
            players.is_none() <==> all_same(ids@),
            players matches Some(players) ==> players.is_fresh(
                ids@.to_set(),
                items_per_player as int,
                board.side() as int,
            ),
    {
        let seats = sorted_ids(&ids);
        proof {
            if seats@.len() >= 2 {
                assert(seats@[0] < seats@[1]);
                assert(seats@.contains(seats@[0]) && seats@.contains(seats@[1]));
                assert(ids@.contains(seats@[0]) && ids@.contains(seats@[1]));
            } else {
                assert forall|i: int, j: int|
                    0 <= i < ids@.len() && 0 <= j < ids@.len() implies ids@[i] == ids@[j] by {
                    assert(ids@.contains(ids@[i]) && ids@.contains(ids@[j]));
                    assert(seats@.contains(ids@[i]) && seats@.contains(ids@[j]));
                }
            }
        }
        if seats.len() < 2 {
            return None;
        }
        let ghost given = seats@;
        proof {
            assert(seats@.len() * items_per_player <= number_of_items(board.side() as int))
                by (nonlinear_arith)
                requires
                    seats@.len() <= ids@.len(),
                    ids@.len() * items_per_player <= number_of_items(board.side() as int),
            ;
        }

        let mut rng = thread_rng();
        let items = get_items_to_collect(
            board.get_number_of_items(),
            seats.len() * items_per_player,
            &mut rng,
        );
        let ghost cards = items@;
        let players = Self::seat(seats, items_per_player, board, items);
        proof {
            players.lemma_dealt_hands_disjoint(
                given,
                items_per_player as int,
                board.side() as int,
                cards,
            );
            assert forall|id: PlayerId| players.contains(id) <==> ids@.contains(id) by {
                assert(given.contains(id) <==> ids@.contains(id));
                if players.contains(id) {
                    let k = choose|k: int|
                        0 <= k < players.list().len() && (#[trigger] players.list()[k]).id() == id;
                    assert(given[k] == id);
                    assert(given.contains(id));
                }
                if ids@.contains(id) {
                    assert(given.contains(id));
                    let k = choose|k: int| 0 <= k < given.len() && given[k] == id;
                    assert(players.list()[k].id() == id);
                }
            }
        }
        Some(players)
    }
}

impl Players {
    /// The place in the turn order of the player with the given id.
    fn find(&self, player_id: PlayerId) -> (place: Option<usize>)
        ensures
            match place {
                Some(index) => index < self.list().len() && self.list()[index as int].id()
                    == player_id,
                None => !self.contains(player_id),
            },
    {
        let mut index: usize = 0;
        while index < self.players.len()
            invariant
                index <= self.list().len(),
                forall|k: int| 0 <= k < index ==> (#[trigger] self.list()[k]).id() != player_id,
            decreases self.players.len() - index,
        {
            if self.players[index].get_id() == player_id {
                return Some(index);
            }
            index += 1;
        }
        None
    }

    /// Among players that stand in the rising order of their ids, an id names
    /// one place.
    pub proof fn lemma_index_of(&self, index: int)
        requires
            self.wf(),
            0 <= index < self.list().len(),
        ensures
            self.contains(self.list()[index].id()),
            self.index_of(self.list()[index].id()) == index,
            self.player(self.list()[index].id()) == self.list()[index],
    {
        let id = self.list()[index].id();
        let found = self.index_of(id);
        assert(self.ids()[index] == id);
        assert(self.ids()[found] == id);
        if found < index {
            assert(self.ids()[found] < self.ids()[index]);
        } else if index < found {
            assert(self.ids()[index] < self.ids()[found]);
        }
    }

    /// The given players with the turn at `player_turn`, if they stand in the
    /// rising order of their ids.
    pub fn restore(players: Vec<Player>, player_turn: PlayerId) -> (restored: Option<Self>)
        ensures
            match restored {
                Some(restored) => {
                    &&& restored.wf()
                    &&& restored.list() == players@
                    &&& restored.turn() == player_turn
                },
                None => !strictly_ascending(Seq::new(players@.len(), |k: int| players@[k].id())),
            },
    {
        let ghost ids = Seq::new(players@.len(), |k: int| players@[k].id());
        let mut index: usize = 1;
        while index < players.len()
            invariant
                1 <= index,
                ids == Seq::new(players@.len(), |k: int| players@[k].id()),
                forall|i: int, j: int| 0 <= i < j < index && j < ids.len() ==> ids[i] < ids[j],
            decreases players.len() - index,
        {
            if players[index - 1].get_id() >= players[index].get_id() {
                assert(!(ids[index - 1] < ids[index as int]));
                return None;
            }
            proof {
                assert forall|i: int, j: int| 0 <= i < j < index + 1 && j < ids.len() implies ids[i]
                    < ids[j] by {
                    if j == index && i < index - 1 {
                        assert(ids[i] < ids[index - 1]);
                    }
                }
            }
            index += 1;
        }
        let restored = Self { players, player_turn };
        assert(restored.ids() =~= ids);
        Some(restored)
    }

    pub fn len(&self) -> (len: usize)
        ensures
            len == self.list().len(),
    {
        self.players.len()
    }

    /// The players in the order of their turns.
    pub fn get_players(&self) -> (players: &Vec<Player>)
        ensures
            players@ == self.list(),
    {
        &self.players
    }

    /// Whether a player has the given id.
    pub fn has_player(&self, player_id: PlayerId) -> (found: bool)
        ensures
            found == self.contains(player_id),
    {
        self.find(player_id).is_some()
    }

    pub fn get_player_turn(&self) -> (turn: PlayerId)
        ensures
            turn == self.turn(),
    {
        self.player_turn
    }

    /// The player with the given id, if there is one.
    pub fn get_player(&self, player_id: PlayerId) -> (player: Option<&Player>)
        requires
            self.wf(),
        ensures
            match player {
                Some(player) => self.contains(player_id) && *player == self.player(player_id),
                None => !self.contains(player_id),
            },
    {
        match self.find(player_id) {
            Some(index) => {
                proof {
                    self.lemma_index_of(index as int);
                }
                Some(&self.players[index])
            },
            None => None,
        }
    }

    /// The player whose turn it is.
    pub fn current_player(&self) -> (player: &Player)
        requires
            self.wf(),
            self.contains(self.turn()),
        ensures
            *player == self.player(self.turn()),
    {
        let place = self.find(self.player_turn);
        let index = place.unwrap();
        proof {
            self.lemma_index_of(index as int);
        }
        &self.players[index]
    }

    /// The player in place `index` of the turn order, to be moved or handed
    /// items. The places from 0 up to `len()` reach every player once. The
    /// order of the turns holds only as long as the player keeps its id.
    pub fn iter_mut(&mut self, index: usize) -> (player: &mut Player)
        requires
            index < old(self).list().len(),
        ensures
            *player == old(self).list()[index as int],
            final(self).list() == old(self).list().update(index as int, *final(player)),
            final(self).turn() == old(self).turn(),
    {
        &mut self.players[index]
    }

    /// Takes the player with the given id out of the game. If one player is
    /// left then, that player has won and the result names it. Otherwise, if
    /// it was the turn of the player who left, the turn passes on.
    pub fn remove_player(&mut self, player_id: PlayerId) -> (result: Result<Option<PlayerId>, ()>)
        requires
            old(self).wf(),
        ensures
            final(self).wf(),
            match result {
                Err(_) => !old(self).contains(player_id) && *final(self) == *old(self),
                Ok(winner) => {
                    &&& old(self).contains(player_id)
                    &&& final(self).list() == old(self).list().remove(
                        old(self).index_of(player_id),
                    )
                    &&& !final(self).contains(player_id)
                    &&& if final(self).list().len() == 1 {
                        &&& winner == Some(final(self).list()[0].id())
                        &&& final(self).turn() == old(self).turn()
                    } else {
                        &&& winner.is_none()
                        &&& if player_id == old(self).turn() {
                            is_next_turn(final(self).ids(), old(self).turn(), final(self).turn())
                        } else {
                            final(self).turn() == old(self).turn()
                        }
                    }
                },
            },
    {
        let index = match self.find(player_id) {
            Some(index) => index,
            None => {
                return Err(());
            },
        };
        proof {
            self.lemma_index_of(index as int);
        }
        let ghost before = self.ids();
        self.players.remove(index);
        proof {
            assert(self.ids() =~= before.remove(index as int));
            assert forall|i: int, j: int| 0 <= i < j < self.ids().len() implies self.ids()[i]
                < self.ids()[j] by {
                let a = if i < index {
                    i
                } else {
                    i + 1
                };
                let b = if j < index {
                    j
                } else {
                    j + 1
                };
                assert(before[a] < before[b]);
            }
            if self.contains(player_id) {
                let k = choose|k: int|
                    0 <= k < self.list().len() && (#[trigger] self.list()[k]).id() == player_id;
                let a = if k < index {
                    k
                } else {
                    k + 1
                };
                assert(before[a] == before[index as int]);
                if a < index {
                    assert(before[a] < before[index as int]);
                } else {
                    assert(before[index as int] < before[a]);
                }
            }
        }

        if self.players.len() == 1 {
            return Ok(Some(self.players[0].get_id()));
        }
        if player_id == self.player_turn {
            self.next_player_turn();
        }

        Ok(None)
    }

    /// Passes the turn on to the player with the next higher id, or to the one
    /// with the lowest id if there is none higher. Without players nothing
    /// changes.
    pub fn next_player_turn(&mut self)
        requires
            old(self).wf(),
        ensures
            final(self).list() == old(self).list(),
            is_next_turn(old(self).ids(), old(self).turn(), final(self).turn()),
    {
        if self.players.len() == 0 {
            return ;
        }
        let ghost ids = self.ids();
        let mut index: usize = 0;
        while index < self.players.len()
            invariant
                *self == *old(self),
                ids == self.ids(),
                self.wf(),
                index <= self.list().len(),
                forall|k: int| 0 <= k < index ==> ids[k] <= self.turn(),
            decreases self.players.len() - index,
        {
            let id = self.players[index].get_id();
            assert(ids[index as int] == id);
            if id > self.player_turn {
                proof {
                    assert forall|i: int| 0 <= i < ids.len() && ids[i] > self.turn() implies id
                        <= ids[i] by {
                        if i < index {
                            assert(ids[i] <= self.turn());
                        } else if i > index {
                            assert(ids[index as int] < ids[i]);
                        }
                    }
                }
                self.player_turn = id;
                return ;
            }
            index += 1;
        }
        let first = self.players[0].get_id();
        proof {
            assert(ids[0] == first);
            assert forall|i: int| 0 <= i < ids.len() implies first <= ids[i] by {
                if 0 < i {
                    assert(ids[0] < ids[i]);
                }
            }
        }
        self.player_turn = first;
    }

    /// Moves the figure of the player with the given id to `position`, if a
    /// walk on `board` leads there from where it stands. Nothing changes
    /// unless the player moves.
    pub fn move_player(
        &mut self,
        player_id: PlayerId,
        position: Position,
        board: &Board,
    ) -> (result: MoveResult<'_>)
        requires
            old(self).wf(),
            board.wf(),
        ensures
            final(self).turn() == old(self).turn(),
            !old(self).contains(player_id) ==> result matches MoveResult::InvalidPlayer,
            old(self).contains(player_id) && !board.reachable(
                old(self).player(player_id).position(),
                position,
            ) ==> result matches MoveResult::Unreachable,
            match result {
                MoveResult::InvalidPlayer => {
                    &&& !old(self).contains(player_id)
                    &&& *final(self) == *old(self)
                },
                MoveResult::Unreachable => {
                    &&& old(self).contains(player_id)
                    &&& !board.reachable(old(self).player(player_id).position(), position)
                    &&& *final(self) == *old(self)
                },
                MoveResult::Won(winner) => {
                    &&& winner == player_id
                    &&& old(self).contains(player_id)
                    &&& board.reachable(old(self).player(player_id).position(), position)
                    &&& old(self).player(player_id).moved_to(position).has_won()
                    &&& final(self).list() == old(self).list().update(
                        old(self).index_of(player_id),
                        old(self).player(player_id).moved_to(position),
                    )
                    &&& final(self).wf()
                },
                MoveResult::Moved(player) => {
                    &&& old(self).contains(player_id)
                    &&& board.reachable(old(self).player(player_id).position(), position)
                    &&& !old(self).player(player_id).moved_to(position).has_won()
                    &&& *player == old(self).player(player_id).moved_to(position)
                    &&& final(self).list() == old(self).list().update(
                        old(self).index_of(player_id),
                        *final(player),
                    )
                },
            },
    {
        let index = match self.find(player_id) {
            Some(index) => index,
            None => {
                return MoveResult::InvalidPlayer;
            },
        };
        proof {
            self.lemma_index_of(index as int);
            self.list()[index as int].lemma_moved_to(position);
        }
        let ghost before = self.ids();
        if !board.is_reachable(self.players[index].get_position(), position) {
            return MoveResult::Unreachable;
        }
        let wins = self.players[index].get_next_to_collect().is_none()
            && self.players[index].get_start_position() == position;
        if wins {
            self.players[index].set_position(position);
            assert(self.ids() =~= before);
            MoveResult::Won(player_id)
        } else {
            let player = &mut self.players[index];
            player.set_position(position);
            MoveResult::Moved(player)
        }
    }
}

impl Players {
    /// A move to a cell that is not among those that the player can reach
    /// fails: the position is unreachable. (And a move that fails so changes
    /// nothing, as `move_player` says.)
    pub proof fn lemma_move_outside_reach(
        &self,
        player_id: PlayerId,
        position: Position,
        board: &Board,
        cells: Seq<Position>,
    )
        requires
            self.contains(player_id),
            board.is_reach(self.player(player_id).position(), cells),
            !cells.contains(position),
        ensures
            !board.reachable(self.player(player_id).position(), position),
    {
    }
}

} // verus!
