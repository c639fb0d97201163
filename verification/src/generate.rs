//! The making of a fresh board: which tiles there are, and where each goes.
//!
//! [`Board::new`] draws what chance decides (the order of the movable tiles,
//! their rotations, which of them carry an item, the order of the items) and
//! hands it to [`Board::assemble`], which lays the tiles out by fixed rules.

use vstd::prelude::*;

use crate::board::{calculate_number_of_items, Board, NewBoardError};
use crate::chance::{
    choose_multiple,
    choose_one,
    lemma_reordered,
    lemma_selected,
    shuffle,
    thread_rng,
};
use crate::layout::{
    inner_before,
    inner_rank,
    is_corner,
    is_fixed,
    is_inner,
    item_cells_from,
    lemma_cell_counts,
    lemma_cell_step,
    lemma_inner_rank,
    lemma_movable_after,
    movable_after,
    movable_count,
    movable_from,
    number_of_items,
    valid_side_length,
};
use crate::tile::{FreeTile, Item, Rotation, Tile, TileVariant};

verus! {

/// The part of `supply` tiles that a shape with the given weight gets, of 34
/// parts in all, rounded down.
pub open spec fn share(supply: int, weight: int) -> int {
    supply * weight / 34
}

/// The tiles that are left over when each shape has got its rounded share.
pub open spec fn unshared(supply: int) -> int {
    supply - share(supply, 6) - share(supply, 13) - share(supply, 15)
}

/// The number of T-shaped tiles among `supply` movable tiles: 6 parts of 34,
/// and the second tile that rounding left over.
pub open spec fn t_count(supply: int) -> int {
    share(supply, 6) + (if unshared(supply) == 2 {
        1int
    } else {
        0int
    })
}

/// The number of straight tiles among `supply` movable tiles: 13 parts of 34.
pub open spec fn i_count(supply: int) -> int {
    share(supply, 13)
}

/// The number of L-shaped tiles among `supply` movable tiles: 15 parts of 34,
/// and the first tile that rounding left over.
pub open spec fn l_count(supply: int) -> int {
    share(supply, 15) + (if unshared(supply) >= 1 {
        1int
    } else {
        0int
    })
}

/// The movable tiles of a board before they are shuffled: the T shapes, then
/// the straight ones, then the L shapes.
pub open spec fn assortment(supply: int) -> Seq<TileVariant> {
    Seq::new(t_count(supply) as nat, |k: int| TileVariant::TShape) + Seq::new(
        i_count(supply) as nat,
        |k: int| TileVariant::IShape,
    ) + Seq::new(l_count(supply) as nat, |k: int| TileVariant::LShape)
}

/// The three shares cover the supply but for at most two tiles, so the counts
/// of the three shapes add up to it.
pub proof fn lemma_assortment_complete(supply: int)
    requires
        0 <= supply,
    ensures
        0 <= unshared(supply) <= 2,
        t_count(supply) + i_count(supply) + l_count(supply) == supply,
        assortment(supply).len() == supply,
{
}

fn push_copies(deck: &mut Vec<TileVariant>, variant: TileVariant, count: usize)
    ensures
        final(deck)@ == old(deck)@ + Seq::new(count as nat, |k: int| variant),
{
    let mut pushed: usize = 0;
    while pushed < count
        invariant
            pushed <= count,
            deck@ == old(deck)@ + Seq::new(pushed as nat, |k: int| variant),
        decreases count - pushed,
    {
        deck.push(variant);
        pushed += 1;
        assert(deck@ =~= old(deck)@ + Seq::new(pushed as nat, |k: int| variant));
    }
}

/// The shapes of the movable tiles of a board, the free tile among them, in
/// the ratio T : I : L = 6 : 13 : 15.
pub fn get_tile_assortment(side_length: usize) -> (deck: Vec<TileVariant>)
    requires
        valid_side_length(side_length as int),
        side_length * side_length <= usize::MAX,
    ensures
        deck@ == assortment(movable_count(side_length as int) + 1),
        deck@.len() == movable_count(side_length as int) + 1,
{
    proof {
        lemma_cell_counts(side_length as int);
        lemma_assortment_complete(movable_count(side_length as int) + 1);
    }
    let half: usize = side_length / 2 + 1;
    let num_moveable: usize = side_length * side_length - half * half + 1;
    let num_i_tiles: usize = num_moveable / 34 * 13 + num_moveable % 34 * 13 / 34;
    let mut num_t_tiles: usize = num_moveable / 34 * 6 + num_moveable % 34 * 6 / 34;
    let mut num_l_tiles: usize = num_moveable / 34 * 15 + num_moveable % 34 * 15 / 34;
    assert(num_i_tiles == share(num_moveable as int, 13));
    assert(num_t_tiles == share(num_moveable as int, 6));
    assert(num_l_tiles == share(num_moveable as int, 15));

    let rest: usize = num_moveable - (num_t_tiles + num_i_tiles + num_l_tiles);
    if rest >= 1 {
        num_l_tiles += 1;
        if rest == 2 {
            num_t_tiles += 1;
        }
    }
    assert(num_t_tiles + num_i_tiles + num_l_tiles == num_moveable);

    let mut movable_tiles: Vec<TileVariant> = Vec::with_capacity(num_moveable);
    push_copies(&mut movable_tiles, TileVariant::TShape, num_t_tiles);
    push_copies(&mut movable_tiles, TileVariant::IShape, num_i_tiles);
    push_copies(&mut movable_tiles, TileVariant::LShape, num_l_tiles);
    assert(movable_tiles@ =~= assortment(num_moveable as int));

    movable_tiles
}

/// The items of a board with `count` items: the numbers from 1 to `count`, in
/// rising order.
pub fn item_pool(count: usize) -> (pool: Vec<Item>)
    ensures
        pool@.len() == count,
        forall|k: int| 0 <= k < count ==> (#[trigger] pool@[k]).id() == k + 1,
{
    let mut pool: Vec<Item> = Vec::new();
    let mut made: usize = 0;
    while made < count
        invariant
            made <= count,
            pool@.len() == made,
            forall|k: int| 0 <= k < made ==> (#[trigger] pool@[k]).id() == k + 1,
        decreases count - made,
    {
        made += 1;
        pool.push(Item::new(made));
    }
    pool
}

/// The number of entries of `slots` that are below `bound`.
spec fn hits_below(slots: Seq<usize>, bound: int) -> nat
    decreases slots.len(),
{
    if slots.len() == 0 {
        0
    } else {
        hits_below(slots.drop_last(), bound) + (if slots.last() < bound {
            1nat
        } else {
            0nat
        })
    }
}

/// Raising the bound by one counts one entry more exactly when the old bound
/// is itself an entry, as long as no entry occurs twice.
proof fn lemma_hits_step(slots: Seq<usize>, bound: usize)
    requires
        slots.no_duplicates(),
    ensures
        hits_below(slots, bound + 1) == hits_below(slots, bound as int) + (if slots.contains(
            bound,
        ) {
            1nat
        } else {
            0nat
        }),
    decreases slots.len(),
{
    if slots.len() > 0 {
        let rest = slots.drop_last();
        lemma_hits_step(rest, bound);
        if slots.last() == bound {
            assert(slots[slots.len() - 1] == bound);
            if rest.contains(bound) {
                let k = choose|k: int| 0 <= k < rest.len() && rest[k] == bound;
                assert(slots[k] == slots[slots.len() - 1]);
            }
        } else {
            if slots.contains(bound) {
                let k = choose|k: int| 0 <= k < slots.len() && slots[k] == bound;
                assert(rest[k] == bound);
            }
            if rest.contains(bound) {
                let k = choose|k: int| 0 <= k < rest.len() && rest[k] == bound;
                assert(slots[k] == bound);
            }
        }
    }
}

/// A bound above every entry counts them all, and the bound 0 counts none.
proof fn lemma_hits_bounds(slots: Seq<usize>, bound: int)
    ensures
        hits_below(slots, 0) == 0,
        (forall|k: int| 0 <= k < slots.len() ==> #[trigger] slots[k] < bound) ==> hits_below(
            slots,
            bound,
        ) == slots.len(),
    decreases slots.len(),
{
    if slots.len() > 0 {
        let rest = slots.drop_last();
        lemma_hits_bounds(rest, bound);
        if forall|k: int| 0 <= k < slots.len() ==> #[trigger] slots[k] < bound {
            assert forall|k: int| 0 <= k < rest.len() implies #[trigger] rest[k] < bound by {
                assert(slots[k] < bound);
            }
            assert(slots[slots.len() - 1] < bound);
        }
    }
}

/// The rotations that the inner fixed tiles take in turn.
pub open spec fn turn_cycle(k: int) -> Rotation {
    if k % 4 == 0 {
        Rotation::Ninety
    } else if k % 4 == 1 {
        Rotation::TwoSeventy
    } else if k % 4 == 2 {
        Rotation::Zero
    } else {
        Rotation::OneEighty
    }
}

/// The shape of the tile on a fixed cell: an L in the corners, a T elsewhere.
pub open spec fn fixed_variant(s: int, x: int, y: int) -> TileVariant {
    if is_corner(s, x, y) {
        TileVariant::LShape
    } else {
        TileVariant::TShape
    }
}

/// The rotation of the tile on a fixed cell. A corner opens toward the two
/// edges that it does not touch, a cell on the edge opens away from it, and
/// the inner cells go through the cycle of rotations in reading order, one
/// step for each cell and the first step before the first cell.
pub open spec fn fixed_rotation(s: int, x: int, y: int) -> Rotation {
    let last = s - 1;
    if y == 0 && x == 0 {
        Rotation::Ninety
    } else if y == 0 && x == last {
        Rotation::OneEighty
    } else if y == last && x == 0 {
        Rotation::Zero
    } else if y == last && x == last {
        Rotation::TwoSeventy
    } else if y == 0 {
        Rotation::Zero
    } else if x == 0 {
        Rotation::TwoSeventy
    } else if y == last {
        Rotation::OneEighty
    } else if x == last {
        Rotation::Ninety
    } else {
        turn_cycle(inner_rank(s, x, y) + 1)
    }
}

/// The place in the deck from which the movable cell in column `x` and row
/// `y` gets its tile. The deck is dealt from its end in reading order, so
/// this is the number of movable cells that come after the cell, and one more
/// for the free tile, which gets the place 0.
pub open spec fn deck_slot(s: int, x: int, y: int) -> int {
    movable_after(s, x, y) + 1
}

/// What chance hands to the layout of a board of side `s`: `deck` holds the
/// shapes of the movable tiles, `spins` a rotation for each movable cell,
/// `slots` the places in the deck whose tiles carry an item, and `items` the
/// items in the order in which they are handed out, last first.
pub open spec fn valid_draw(
    s: int,
    deck: Seq<TileVariant>,
    spins: Seq<Rotation>,
    slots: Seq<usize>,
    items: Seq<Item>,
) -> bool {
    &&& deck.len() == movable_count(s) + 1
    &&& spins.len() == movable_count(s)
    &&& slots.len() == number_of_items(s) / 2
    &&& slots.no_duplicates()
    &&& forall|k: int| 0 <= k < slots.len() ==> #[trigger] slots[k] <= movable_count(s)
    &&& items.len() == number_of_items(s)
}

/// Whether `tile` is the tile that the layout puts in column `x` and row `y`,
/// but for which item it carries.
pub open spec fn is_dealt_tile(
    s: int,
    deck: Seq<TileVariant>,
    spins: Seq<Rotation>,
    slots: Seq<usize>,
    x: int,
    y: int,
    tile: Tile,
) -> bool {
    let slot = deck_slot(s, x, y);
    &&& tile.id() == x + y * s
    &&& is_fixed(x, y) ==> {
        &&& tile.variant() == fixed_variant(s, x, y)
        &&& tile.rotation() == fixed_rotation(s, x, y)
        &&& tile.item().is_some() <==> !is_corner(s, x, y)
    }
    &&& !is_fixed(x, y) ==> {
        &&& tile.variant() == deck[slot]
        &&& tile.rotation() == spins[slot - 1]
        &&& tile.item().is_some() <==> slots.contains(slot as usize)
    }
}

/// The items that the given tiles carry, in the order of the tiles.
pub open spec fn items_of(tiles: Seq<Tile>) -> Seq<Item>
    decreases tiles.len(),
{
    if tiles.len() == 0 {
        Seq::empty()
    } else {
        match tiles.last().item() {
            Some(item) => items_of(tiles.drop_last()).push(item),
            None => items_of(tiles.drop_last()),
        }
    }
}

/// One more tile adds its item, if it has one.
pub proof fn lemma_items_of_push(tiles: Seq<Tile>, tile: Tile)
    ensures
        items_of(tiles.push(tile)) == (match tile.item() {
            Some(item) => items_of(tiles).push(item),
            None => items_of(tiles),
        }),
{
    assert(tiles.push(tile).drop_last() =~= tiles);
}

impl Board {
    /// All tiles of the game: those on the grid, row by row, then the free one.
    pub open spec fn all_tiles(&self) -> Seq<Tile> {
        self.grid().push(self.free().tile())
    }

    /// Whether this board is the layout of the given draw on a board of side
    /// `s`: every cell holds the tile that the rules give it, the free tile is
    /// the first of the deck, unturned and not barred from any line, and the
    /// items were handed out cell by cell from the end of `items`.
    pub open spec fn is_dealt(
        &self,
        s: int,
        deck: Seq<TileVariant>,
        spins: Seq<Rotation>,
        slots: Seq<usize>,
        items: Seq<Item>,
    ) -> bool {
        &&& self.wf()
        &&& self.side() == s
        &&& forall|x: int, y: int|
            self.on_board(x, y) ==> is_dealt_tile(
                s,
                deck,
                spins,
                slots,
                x,
                y,
                #[trigger] self.cell(x, y),
            )
        &&& self.free().side_index().is_none()
        &&& self.free().tile().id() == s * s
        &&& self.free().tile().variant() == deck[0]
        &&& self.free().tile().rotation() == Rotation::Zero
        &&& self.free().tile().item().is_some() <==> slots.contains(0)
        &&& items_of(self.all_tiles()) == items.reverse()
    }
}

fn contains_index(slots: &Vec<usize>, slot: usize) -> (found: bool)
    ensures
        found == slots@.contains(slot),
{
    let mut k: usize = 0;
    while k < slots.len()
        invariant
            k <= slots.len(),
            forall|j: int| 0 <= j < k ==> slots@[j] != slot,
        decreases slots.len() - k,
    {
        if slots[k] == slot {
            return true;
        }
        k += 1;
    }
    false
}

fn cycle_rotation(index: usize) -> (rotation: Rotation)
    requires
        index < 4,
    ensures
        rotation == turn_cycle(index as int),
{
    if index == 0 {
        Rotation::Ninety
    } else if index == 1 {
        Rotation::TwoSeventy
    } else if index == 2 {
        Rotation::Zero
    } else {
        Rotation::OneEighty
    }
}

/// Whether `tile` is the tile that the layout puts on the cell with the index
/// `i`, but for which item it carries.
#[verifier::opaque]
spec fn is_dealt_at(
    s: int,
    deck: Seq<TileVariant>,
    spins: Seq<Rotation>,
    slots: Seq<usize>,
    i: int,
    tile: Tile,
) -> bool {
    is_dealt_tile(s, deck, spins, slots, i % s, i / s, tile)
}

/// The shape and the rotation of the tile for the cell in column `col` and
/// row `row`, and whether the tile carries an item. A fixed cell gets them by
/// rule; any other cell takes the last shape of `deck` and the last rotation
/// of `spins`.
fn pick_shape(
    side_length: usize,
    row: usize,
    col: usize,
    index: &mut usize,
    deck: &mut Vec<TileVariant>,
    spins: &mut Vec<Rotation>,
    slots: &Vec<usize>,
) -> (picked: (TileVariant, Rotation, bool))
    requires
        valid_side_length(side_length as int),
        side_length * side_length <= usize::MAX,
        row < side_length,
        col < side_length,
        *old(index) < 4,
        *old(index) == inner_before(side_length as int, col + row * side_length) % 4,
        old(deck)@.len() == movable_from(side_length as int, col + row * side_length) + 1,
        old(spins)@.len() == movable_from(side_length as int, col + row * side_length),
    ensures
        *final(index) < 4,
        *final(index) == inner_before(side_length as int, col + row * side_length + 1) % 4,
        final(deck)@.len() == movable_from(side_length as int, col + row * side_length + 1) + 1,
        final(spins)@.len() == movable_from(side_length as int, col + row * side_length + 1),
        final(deck)@ == old(deck)@.subrange(0, final(deck)@.len() as int),
        final(spins)@ == old(spins)@.subrange(0, final(spins)@.len() as int),
        is_fixed(col as int, row as int) ==> {
            &&& picked.0 == fixed_variant(side_length as int, col as int, row as int)
            &&& picked.1 == fixed_rotation(side_length as int, col as int, row as int)
            &&& picked.2 == !is_corner(side_length as int, col as int, row as int)
            &&& final(deck)@.len() == old(deck)@.len()
        },
        !is_fixed(col as int, row as int) ==> {
            let slot = deck_slot(side_length as int, col as int, row as int);
            &&& slot == final(deck)@.len()
            &&& slot == old(deck)@.len() - 1
            &&& picked.0 == old(deck)@[slot]
            &&& picked.1 == old(spins)@[slot - 1]
            &&& picked.2 == slots@.contains(slot as usize)
        },
{
    let ghost s = side_length as int;
    let last = side_length - 1;
    proof {
        lemma_cell_step(s, col as int, row as int);
        lemma_movable_after(s, col as int, row as int);
        if is_inner(s, col as int, row as int) {
            lemma_inner_rank(s, col as int, row as int);
        }
    }
    let corner = (row == 0 || row == last) && (col == 0 || col == last);
    let fixed = row % 2 == 0 && col % 2 == 0;
    if corner {
        let rotation = if row == 0 {
            if col == 0 {
                Rotation::Ninety
            } else {
                Rotation::OneEighty
            }
        } else {
            if col == 0 {
                Rotation::Zero
            } else {
                Rotation::TwoSeventy
            }
        };
        assert(deck@ =~= old(deck)@.subrange(0, deck@.len() as int));
        assert(spins@ =~= old(spins)@.subrange(0, spins@.len() as int));
        (TileVariant::LShape, rotation, false)
    } else if fixed {
        let rotation = if row == 0 {
            Rotation::Zero
        } else if col == 0 {
            Rotation::TwoSeventy
        } else if row == last {
            Rotation::OneEighty
        } else if col == last {
            Rotation::Ninety
        } else {
            *index = (*index + 1) % 4;
            cycle_rotation(*index)
        };
        assert(deck@ =~= old(deck)@.subrange(0, deck@.len() as int));
        assert(spins@ =~= old(spins)@.subrange(0, spins@.len() as int));
        (TileVariant::TShape, rotation, true)
    } else {
        let variant = deck.pop().unwrap();
        let rotation = spins.pop().unwrap();
        assert(deck@ =~= old(deck)@.subrange(0, deck@.len() as int));
        assert(spins@ =~= old(spins)@.subrange(0, spins@.len() as int));
        (variant, rotation, contains_index(slots, deck.len()))
    }
}

impl Board {
    /// Lays out a board of the given side from what was drawn. The cells are
    /// filled row by row. Fixed cells get their tile by rule; every other cell
    /// takes the last shape of `deck` and the last rotation of `spins`, and an
    /// item if the place that its shape had in the deck is among `slots`. Each
    /// cell that gets an item takes the last of `items`. The shape that is
    /// left becomes the free tile.
    pub fn assemble(
        side_length: usize,
        deck: Vec<TileVariant>,
        spins: Vec<Rotation>,
        slots: Vec<usize>,
        items: Vec<Item>,
    ) -> (board: Board)
        requires
            valid_side_length(side_length as int),
            side_length * side_length <= usize::MAX,
            valid_draw(side_length as int, deck@, spins@, slots@, items@),
        ensures
            board.is_dealt(side_length as int, deck@, spins@, slots@, items@),
    {
        let ghost s = side_length as int;
        let ghost n = number_of_items(s);
        let ghost deck0 = deck@;
        let ghost spins0 = spins@;
        let ghost items0 = items@;
        let mut deck = deck;
        let mut spins = spins;
        let mut items = items;
        proof {
            lemma_cell_counts(s);
            lemma_hits_bounds(slots@, movable_count(s) + 1);
            assert(0 + 0 * s == 0);
            assert(items0.subrange(n, n).reverse() =~= Seq::<Item>::empty());
        }

        let mut tiles: Vec<Tile> = Vec::with_capacity(side_length * side_length);
        let mut index: usize = 0;
        let mut row: usize = 0;
        while row < side_length
            invariant
                s == side_length,
                n == number_of_items(s),
                valid_side_length(s),
                s * s <= usize::MAX,
                valid_draw(s, deck0, spins0, slots@, items0),
                row <= side_length,
                tiles@.len() == 0 + row * s,
                index < 4,
                index == inner_before(s, tiles@.len() as int) % 4,
                deck@.len() == movable_from(s, tiles@.len() as int) + 1,
                spins@.len() == movable_from(s, tiles@.len() as int),
                items@.len() == item_cells_from(s, tiles@.len() as int) + hits_below(
                    slots@,
                    deck@.len() as int,
                ),
                deck@.len() <= deck0.len(),
                spins@.len() <= spins0.len(),
                items@.len() <= n,
                deck@ == deck0.subrange(0, deck@.len() as int),
                spins@ == spins0.subrange(0, spins@.len() as int),
                items@ == items0.subrange(0, items@.len() as int),
                items_of(tiles@) == items0.subrange(items@.len() as int, n).reverse(),
                forall|j: int|
                    0 <= j < tiles@.len() ==> is_dealt_at(
                        s,
                        deck0,
                        spins0,
                        slots@,
                        j,
                        #[trigger] tiles@[j],
                    ),
            decreases side_length - row,
        {
            let mut col: usize = 0;
            while col < side_length
                invariant
                    s == side_length,
                    n == number_of_items(s),
                    valid_side_length(s),
                    s * s <= usize::MAX,
                    valid_draw(s, deck0, spins0, slots@, items0),
                    row < side_length,
                    col <= side_length,
                    tiles@.len() == col + row * s,
                    index < 4,
                    index == inner_before(s, tiles@.len() as int) % 4,
                    deck@.len() == movable_from(s, tiles@.len() as int) + 1,
                    spins@.len() == movable_from(s, tiles@.len() as int),
                    items@.len() == item_cells_from(s, tiles@.len() as int) + hits_below(
                        slots@,
                        deck@.len() as int,
                    ),
                    deck@.len() <= deck0.len(),
                    spins@.len() <= spins0.len(),
                    items@.len() <= n,
                    deck@ == deck0.subrange(0, deck@.len() as int),
                    spins@ == spins0.subrange(0, spins@.len() as int),
                    items@ == items0.subrange(0, items@.len() as int),
                    items_of(tiles@) == items0.subrange(items@.len() as int, n).reverse(),
                    forall|j: int|
                        0 <= j < tiles@.len() ==> is_dealt_at(
                            s,
                            deck0,
                            spins0,
                            slots@,
                            j,
                            #[trigger] tiles@[j],
                        ),
                decreases side_length - col,
            {
                let ghost i = tiles@.len() as int;
                let ghost placed = tiles@;
                let ghost held = items@.len() as int;
                let ghost dealt = deck@;
                let ghost spun = spins@;
                proof {
                    lemma_cell_step(s, col as int, row as int);
                    assert(col + row * side_length == i) by (nonlinear_arith)
                        requires
                            i == col + row * s,
                            s == side_length,
                    ;
                }
                let (variant, rotation, add_item) = pick_shape(
                    side_length,
                    row,
                    col,
                    &mut index,
                    &mut deck,
                    &mut spins,
                    &slots,
                );
                proof {
                    assert(deck@ =~= deck0.subrange(0, deck@.len() as int));
                    assert(spins@ =~= spins0.subrange(0, spins@.len() as int));
                    if !is_fixed(col as int, row as int) {
                        lemma_hits_step(slots@, deck@.len() as usize);
                        assert(variant == deck0[deck@.len() as int]);
                        assert(rotation == spins0[spins@.len() as int]);
                    }
                }
                let item = if add_item {
                    items.pop()
                } else {
                    None
                };
                assert(add_item ==> held >= 1);
                assert(add_item ==> item == Some(items0[held - 1]));
                assert(items@ =~= items0.subrange(0, items@.len() as int));
                let tile = Tile::new(row * side_length + col, variant, rotation, item);
                tiles.push(tile);
                proof {
                    lemma_items_of_push(placed, tile);
                    if add_item {
                        assert(items0.subrange(held - 1, n).reverse() =~= items0.subrange(
                            held,
                            n,
                        ).reverse().push(items0[held - 1]));
                    }
                    assert(is_dealt_at(s, deck0, spins0, slots@, i, tile)) by {
                        reveal(is_dealt_at);
                    }
                    assert(i + 1 == (col + 1) + row * s);
                }
                col += 1;
            }
            proof {
                assert(col + row * s == 0 + (row + 1) * s) by (nonlinear_arith)
                    requires
                        col == s,
                ;
            }
            row += 1;
        }

        proof {
            assert(tiles@.len() == s * s) by (nonlinear_arith)
                requires
                    tiles@.len() == 0 + row * s,
                    row == s,
            ;
            lemma_hits_step(slots@, 0);
            lemma_hits_bounds(slots@, 0);
        }
        let ghost placed = tiles@;
        let ghost held = items@.len() as int;
        let free_variant = deck.pop().unwrap();
        assert(free_variant == deck0[0]);
        let item = if contains_index(&slots, 0) {
            items.pop()
        } else {
            None
        };
        assert(slots@.contains(0) ==> item == Some(items0[held - 1]));
        let free_tile = FreeTile::new(
            Tile::new(side_length * side_length, free_variant, Rotation::Zero, item),
        );
        let board = Board::from_parts(tiles, side_length, free_tile);
        proof {
            lemma_items_of_push(placed, free_tile.tile());
            if slots@.contains(0) {
                assert(items0.subrange(held - 1, n).reverse() =~= items0.subrange(
                    held,
                    n,
                ).reverse().push(items0[held - 1]));
            }
            assert(items0.subrange(0, n) =~= items0);
            assert forall|x: int, y: int| board.on_board(x, y) implies is_dealt_tile(
                s,
                deck0,
                spins0,
                slots@,
                x,
                y,
                #[trigger] board.cell(x, y),
            ) by {
                lemma_cell_step(s, x, y);
                assert(board.cell(x, y) == placed[x + y * s]);
                assert(is_dealt_at(s, deck0, spins0, slots@, x + y * s, placed[x + y * s]));
                reveal(is_dealt_at);
            }
        }
        board
    }
}

/// Whether the item with the number `id` is among `items`.
pub open spec fn holds_item(items: Seq<Item>, id: int) -> bool {
    exists|k: int| 0 <= k < items.len() && (#[trigger] items[k]).id() == id
}

/// Whether `items` holds each of the items 1 to `count` exactly once.
pub open spec fn is_full_pool(items: Seq<Item>, count: int) -> bool {
    &&& items.len() == count
    &&& items.no_duplicates()
    &&& forall|k: int| 0 <= k < items.len() ==> 1 <= (#[trigger] items[k]).id() <= count
    &&& forall|id: int| 1 <= id <= count ==> #[trigger] holds_item(items, id)
}

/// What chance may hand to the layout of a fresh board: a reordering of the
/// assortment, and of the items.
pub open spec fn is_fresh_draw(
    s: int,
    deck: Seq<TileVariant>,
    spins: Seq<Rotation>,
    slots: Seq<usize>,
    items: Seq<Item>,
) -> bool {
    &&& valid_draw(s, deck, spins, slots, items)
    &&& deck.to_multiset() == assortment(movable_count(s) + 1).to_multiset()
    &&& is_full_pool(items, number_of_items(s))
}

impl Board {
    /// Whether this board can come out of the making of a board of side `s`:
    /// it is the layout of some draw, and each item of the game lies on
    /// exactly one of its tiles.
    pub open spec fn is_fresh(&self, s: int) -> bool {
        &&& self.wf()
        &&& self.side() == s
        &&& is_full_pool(items_of(self.all_tiles()), number_of_items(s))
        &&& exists|
            deck: Seq<TileVariant>,
            spins: Seq<Rotation>,
            slots: Seq<usize>,
            items: Seq<Item>,
        |
            is_fresh_draw(s, deck, spins, slots, items) && #[trigger] self.is_dealt(
                s,
                deck,
                spins,
                slots,
                items,
            )
    }

    /// On a board laid out from a draw whose items are the items 1 to the
    /// number of items, each once, every one of these items lies on exactly
    /// one tile, the free tile counted in.
    pub proof fn lemma_dealt_items_unique(
        self,
        s: int,
        deck: Seq<TileVariant>,
        spins: Seq<Rotation>,
        slots: Seq<usize>,
        items: Seq<Item>,
    )
        requires
            self.is_dealt(s, deck, spins, slots, items),
            is_full_pool(items, number_of_items(s)),
        ensures
            is_full_pool(items_of(self.all_tiles()), number_of_items(s)),
            self.grid().len() == s * s,
    {
        let n = number_of_items(s);
        let placed = items_of(self.all_tiles());
        assert(placed == items.reverse());
        assert forall|id: int| 1 <= id <= n implies #[trigger] holds_item(placed, id) by {
            assert(holds_item(items, id));
            let k = choose|k: int| 0 <= k < items.len() && (#[trigger] items[k]).id() == id;
            assert(placed[n - 1 - k] == items[k]);
        }
    }
}

/// An item on one of the tiles is among the items of the tiles.
pub proof fn lemma_items_of_contains(tiles: Seq<Tile>, i: int)
    requires
        0 <= i < tiles.len(),
        tiles[i].item().is_some(),
    ensures
        items_of(tiles).contains(tiles[i].item().unwrap()),
    decreases tiles.len(),
{
    let rest = tiles.drop_last();
    let found = items_of(rest);
    if i < tiles.len() - 1 {
        lemma_items_of_contains(rest, i);
        let k = choose|k: int| 0 <= k < found.len() && found[k] == tiles[i].item().unwrap();
        assert(items_of(tiles)[k] == tiles[i].item().unwrap());
    } else {
        assert(items_of(tiles)[found.len() as int] == tiles[i].item().unwrap());
    }
}

/// Where no item occurs twice among the items of some tiles, no two of the
/// tiles carry the same item.
pub proof fn lemma_items_of_distinct(tiles: Seq<Tile>, i: int, j: int)
    requires
        items_of(tiles).no_duplicates(),
        0 <= i < j < tiles.len(),
        tiles[i].item().is_some(),
    ensures
        tiles[i].item() != tiles[j].item(),
    decreases tiles.len(),
{
    let rest = tiles.drop_last();
    let found = items_of(rest);
    assert(found.no_duplicates()) by {
        assert forall|a: int, b: int|
            0 <= a < found.len() && 0 <= b < found.len() && a != b implies found[a] != found[b] by {
            assert(items_of(tiles)[a] == found[a]);
            assert(items_of(tiles)[b] == found[b]);
        }
    }
    if j < tiles.len() - 1 {
        lemma_items_of_distinct(rest, i, j);
    } else if tiles[j].item().is_some() {
        lemma_items_of_contains(rest, i);
        let k = choose|k: int| 0 <= k < found.len() && found[k] == tiles[i].item().unwrap();
        assert(items_of(tiles)[k] == found[k]);
        assert(items_of(tiles)[found.len() as int] == tiles[j].item().unwrap());
    }
}

impl Board {
    /// On a fresh board no item lies on two tiles.
    pub proof fn lemma_fresh_items_unique(&self, s: int)
        requires
            self.is_fresh(s),
        ensures
            self.items_unique(),
    {
        let all = self.all_tiles();
        assert forall|x1: int, y1: int, x2: int, y2: int|
            self.on_board(x1, y1) && self.on_board(x2, y2) && (x1 != x2 || y1 != y2) && (
            #[trigger] self.cell(x1, y1)).item().is_some() implies self.cell(x1, y1).item() != (
        #[trigger] self.cell(x2, y2)).item() by {
            let i = x1 + y1 * s;
            let j = x2 + y2 * s;
            lemma_cell_step(s, x1, y1);
            lemma_cell_step(s, x2, y2);
            crate::board::lemma_cell_index_injective(s, x1, y1, x2, y2);
            assert(all[i] == self.cell(x1, y1));
            assert(all[j] == self.cell(x2, y2));
            if i < j {
                lemma_items_of_distinct(all, i, j);
            } else if self.cell(x2, y2).item().is_some() {
                lemma_items_of_distinct(all, j, i);
            }
        }
        assert forall|x: int, y: int|
            self.on_board(x, y) && self.free().tile().item().is_some() implies (
        #[trigger] self.cell(x, y)).item() != self.free().tile().item() by {
            let i = x + y * s;
            lemma_cell_step(s, x, y);
            assert(all[i] == self.cell(x, y));
            assert(all[s * s] == self.free().tile());
            if self.cell(x, y).item().is_some() {
                lemma_items_of_distinct(all, i, s * s);
            }
        }
    }
}

fn index_range(len: usize) -> (indices: Vec<usize>)
    ensures
        indices@.len() == len,
        forall|k: int| 0 <= k < len ==> #[trigger] indices@[k] == k,
{
    let mut indices: Vec<usize> = Vec::new();
    let mut next: usize = 0;
    while next < len
        invariant
            next <= len,
            indices@.len() == next,
            forall|k: int| 0 <= k < next ==> #[trigger] indices@[k] == k,
        decreases len - next,
    {
        indices.push(next);
        next += 1;
    }
    indices
}

impl Board {
    /// Makes a board of the given side length. The fixed tiles stand by rule;
    /// the movable tiles, their rotations and the places of the items are
    /// drawn at random.
    pub fn new(side_length: usize) -> (result: Result<Self, NewBoardError>)
        requires
            side_length * side_length <= usize::MAX,
        ensures
            side_length < 3 ==> result matches Err(NewBoardError::TooSmall),
            side_length >= 3 && side_length % 2 == 0 ==> result matches Err(
                NewBoardError::EvenLength,
            ),
            valid_side_length(side_length as int) ==> (result matches Ok(board) && board.is_fresh(
                side_length as int,
            ) && board.items_unique()),
    {
        if side_length < 3 {
            return Err(NewBoardError::TooSmall);
        }
        if side_length % 2 == 0 {
            return Err(NewBoardError::EvenLength);
        }
        let ghost s = side_length as int;
        proof {
            lemma_cell_counts(s);
        }

        let number_of_items = calculate_number_of_items(side_length);
        let mut movable_tiles = get_tile_assortment(side_length);
        let ghost sorted_tiles = movable_tiles@;

        let mut rng = thread_rng();
        shuffle(&mut movable_tiles, &mut rng);

        let places = index_range(movable_tiles.len());
        proof {
            lemma_reordered(sorted_tiles, movable_tiles@);
        }
        let movable_item_indices = choose_multiple(places, &mut rng, number_of_items / 2);

        let mut items = item_pool(number_of_items);
        let ghost sorted_items = items@;
        shuffle(&mut items, &mut rng);

        let rotations = vec![
            Rotation::Ninety,
            Rotation::TwoSeventy,
            Rotation::Zero,
            Rotation::OneEighty,
        ];
        let movable_cells = movable_tiles.len() - 1;
        let mut spins: Vec<Rotation> = Vec::new();
        while spins.len() < movable_cells
            invariant
                rotations@.len() == 4,
                spins@.len() <= movable_cells,
            decreases movable_cells - spins.len(),
        {
            spins.push(choose_one(rotations.as_slice(), &mut rng).unwrap());
        }

        proof {
            lemma_selected(movable_item_indices@, places@);
            let chosen = movable_item_indices@;
            assert forall|k: int| 0 <= k < chosen.len() implies #[trigger] chosen[k]
                <= movable_count(s) by {
                assert(chosen.contains(chosen[k]));
                assert(places@.contains(chosen[k]));
            }
            lemma_reordered(sorted_items, items@);
            assert forall|k: int| 0 <= k < items@.len() implies 1 <= (#[trigger] items@[k]).id()
                <= number_of_items by {
                assert(items@.contains(items@[k]));
                assert(sorted_items.contains(items@[k]));
            }
            assert forall|id: int| 1 <= id <= number_of_items implies #[trigger] holds_item(
                items@,
                id,
            ) by {
                assert(sorted_items.contains(sorted_items[id - 1]));
                assert(items@.contains(sorted_items[id - 1]));
            }
        }
        let ghost deck = movable_tiles@;
        let ghost drawn_spins = spins@;
        let ghost drawn_items = items@;
        let board = Board::assemble(side_length, movable_tiles, spins, movable_item_indices, items);
        proof {
            board.lemma_dealt_items_unique(
                s,
                deck,
                drawn_spins,
                movable_item_indices@,
                drawn_items,
            );
            assert(is_fresh_draw(s, deck, drawn_spins, movable_item_indices@, drawn_items));
            board.lemma_fresh_items_unique(s);
        }
        Ok(board)
    }
}

} // verus!
