//! The board: a square grid of tiles and the one tile that is off the grid.

use std::collections::HashMap;
use vstd::prelude::*;
use vstd::seq_lib::{to_multiset_build, to_multiset_contains, to_multiset_update};

use crate::layout::{
    lemma_cell_counts,
    lemma_cell_of_index,
    number_of_items,
    valid_side_length,
};
use crate::player::Position;
use crate::tile::{FreeTile, Rotation, Side, SideIndex, Tile};

verus! {

/// An odd-sided square grid of tiles, stored row by row, and the free tile.
#[derive(Clone, Debug)]
pub struct Board {
    tiles: Vec<Tile>,
    side_length: usize,
    free_tile: FreeTile,
}

#[derive(Clone, Copy, PartialEq, Eq, Debug, Structural)]
pub enum NewBoardError {
    TooSmall,
    EvenLength,
}

#[derive(Clone, Copy, PartialEq, Eq, Debug, Structural)]
pub enum ShiftTileError {
    OutOfBounds,
    UnMovable,
    UndoMove,
}

/// Where the cells of a shifted line went: for each cell of the line, the
/// cell on which a figure that stood there stands after the push. Cells are
/// kept by their index on the board.
#[derive(Clone, Debug)]
pub struct PositionMap {
    moves: HashMap<usize, usize>,
    side_length: usize,
}

/// The tile in column `x` and row `y` of a grid of side `s` stored row by row.
pub open spec fn grid_cell(grid: Seq<Tile>, s: int, x: int, y: int) -> Tile {
    grid[x + y * s]
}

/// Whether a tile pushed in at `side` enters a column, not a row.
pub open spec fn enters_column(side: Side) -> bool {
    side == Side::Top || side == Side::Bottom
}

/// Whether a tile pushed in at `side` moves the line toward growing
/// coordinates: down from the top, or right from the left.
pub open spec fn pushes_forward(side: Side) -> bool {
    side == Side::Top || side == Side::Left
}

/// Whether the cell in column `x` and row `y` lies on the line that
/// `side_index` names.
pub open spec fn on_line(side_index: SideIndex, x: int, y: int) -> bool {
    if enters_column(side_index.side()) {
        x == side_index.index()
    } else {
        y == side_index.index()
    }
}

/// The cell of the line that `side_index` names which is `t` steps from the
/// top or the left.
pub open spec fn line_position(side_index: SideIndex, t: int) -> Position {
    if enters_column(side_index.side()) {
        Position { x: side_index.index() as usize, y: t as usize }
    } else {
        Position { x: t as usize, y: side_index.index() as usize }
    }
}

/// Where the cell `t` steps along a line of `s` cells stands after a push at
/// `side`: one step on, and the cell that was pushed out wraps to the entry.
pub open spec fn moved_along(side: Side, s: int, t: int) -> int {
    if pushes_forward(side) {
        if t + 1 == s {
            0
        } else {
            t + 1
        }
    } else {
        if t == 0 {
            s - 1
        } else {
            t - 1
        }
    }
}

/// The cell with the index `i` on a board of side `s`.
pub open spec fn position_of(i: int, s: int) -> Position {
    Position { x: (i % s) as usize, y: (i / s) as usize }
}

/// The move that is noted for the cell in column `x` and row `y`, where the
/// moves are kept under the index of the cell.
spec fn move_at(moves: Map<usize, usize>, s: int, x: int, y: int) -> Option<usize> {
    let index = (x + y * s) as usize;
    if moves.contains_key(index) {
        Some(moves[index])
    } else {
        None
    }
}

impl PositionMap {
    /// The moves: each position that moved, with the position to which it
    /// moved.
    pub closed spec fn view(&self) -> Map<Position, Position> {
        let s = self.side_length as int;
        Map::new(
            |p: Position|
                p.x < s && p.y < s && self.moves@.contains_key((p.x + p.y * s) as usize),
            |p: Position| position_of(self.moves@[(p.x + p.y * s) as usize] as int, s),
        )
    }

    /// The number of positions that moved.
    pub closed spec fn count(&self) -> nat {
        self.moves@.len()
    }

    /// The moves are those of a board whose cells can be counted.
    pub closed spec fn wf(&self) -> bool {
        &&& 0 < self.side_length
        &&& self.side_length * self.side_length <= usize::MAX
        &&& self.moves@.dom().finite()
    }

    /// Where `position` went, if it moved.
    pub open spec fn target(&self, position: Position) -> Option<Position> {
        if self@.contains_key(position) {
            Some(self@[position])
        } else {
            None
        }
    }

    pub fn len(&self) -> (len: usize)
        ensures
            len == self.count(),
    {
        self.moves.len()
    }

    pub fn is_empty(&self) -> (empty: bool)
        ensures
            empty == (self.count() == 0),
    {
        self.moves.len() == 0
    }

    /// The new position of the cell that was at `position`, if it moved.
    pub fn get(&self, position: &Position) -> (moved: Option<Position>)
        requires
            self.wf(),
        ensures
            moved == self.target(*position),
    {
        let s = self.side_length;
        if position.x >= s || position.y >= s {
            return None;
        }
        proof {
            lemma_cell_in_grid(s as int, position.x as int, position.y as int);
        }
        match self.moves.get(&(position.x + position.y * s)) {
            Some(to) => Some(Position::new(*to % s, *to / s)),
            None => None,
        }
    }
}

impl Board {
    /// The number of cells along one edge.
    pub closed spec fn side(&self) -> nat {
        self.side_length as nat
    }

    /// The tiles on the grid, row by row.
    pub closed spec fn grid(&self) -> Seq<Tile> {
        self.tiles@
    }

    /// The tile that is off the grid, with the entry that is barred to it.
    pub closed spec fn free(&self) -> FreeTile {
        self.free_tile
    }

    /// The side length is odd and at least 3, and the grid is full.
    pub open spec fn wf(&self) -> bool {
        &&& valid_side_length(self.side() as int)
        &&& self.side() <= usize::MAX
        &&& self.side() * self.side() <= usize::MAX
        &&& self.grid().len() == self.side() * self.side()
    }

    /// Whether the cell in column `x` and row `y` lies on the board.
    pub open spec fn on_board(&self, x: int, y: int) -> bool {
        0 <= x < self.side() && 0 <= y < self.side()
    }

    /// The tile in column `x` and row `y`.
    pub open spec fn cell(&self, x: int, y: int) -> Tile
        recommends
            self.on_board(x, y),
    {
        grid_cell(self.grid(), self.side() as int, x, y)
    }

    /// The tile at `position`, if it lies on the board.
    pub open spec fn tile_at(&self, position: Position) -> Option<Tile> {
        if self.on_board(position.x as int, position.y as int) {
            Some(self.cell(position.x as int, position.y as int))
        } else {
            None
        }
    }

    /// The tile that a push at `side_index` leaves in column `x` and row `y`:
    /// on the line each tile comes from the cell one step nearer to the entry
    /// and the free tile stands at the entry; elsewhere nothing moves.
    pub open spec fn shifted_cell(&self, side_index: SideIndex, x: int, y: int) -> Tile {
        let side = side_index.side();
        let along = if enters_column(side) {
            y
        } else {
            x
        };
        if !on_line(side_index, x, y) {
            self.cell(x, y)
        } else if pushes_forward(side) {
            if along == 0 {
                self.free().tile()
            } else if enters_column(side) {
                self.cell(x, y - 1)
            } else {
                self.cell(x - 1, y)
            }
        } else {
            if along == self.side() - 1 {
                self.free().tile()
            } else if enters_column(side) {
                self.cell(x, y + 1)
            } else {
                self.cell(x + 1, y)
            }
        }
    }

    /// The tile that a push at `side_index` drives off the board: the one at
    /// the end of the line across from the entry.
    pub open spec fn ejected(&self, side_index: SideIndex) -> Tile {
        let last = self.side() - 1;
        let index = side_index.index() as int;
        match side_index.side() {
            Side::Top => self.cell(index, last),
            Side::Bottom => self.cell(index, 0),
            Side::Left => self.cell(last, index),
            Side::Right => self.cell(0, index),
        }
    }

    /// Whether `after` is this board after a push at `side_index`: the tiles
    /// of the line have moved on by one cell, the free tile stands at the
    /// entry, the tile that was pushed out is free, and it is barred from the
    /// line's far end, where it left.
    pub open spec fn is_shifted(&self, side_index: SideIndex, after: Board) -> bool {
        &&& after.wf()
        &&& after.side() == self.side()
        &&& forall|x: int, y: int|
            self.on_board(x, y) ==> #[trigger] after.cell(x, y) == self.shifted_cell(
                side_index,
                x,
                y,
            )
        &&& after.free().tile() == self.ejected(side_index)
        &&& after.free().side_index() == Some(side_index.shifted())
    }

    /// Whether no item lies on two tiles, the free tile counted in.
    pub open spec fn items_unique(&self) -> bool {
        &&& forall|x1: int, y1: int, x2: int, y2: int|
            self.on_board(x1, y1) && self.on_board(x2, y2) && (x1 != x2 || y1 != y2) && (
            #[trigger] self.cell(x1, y1)).item().is_some() ==> self.cell(x1, y1).item() != (
            #[trigger] self.cell(x2, y2)).item()
        &&& forall|x: int, y: int|
            self.on_board(x, y) && self.free().tile().item().is_some() ==> (#[trigger] self.cell(
                x,
                y,
            )).item() != self.free().tile().item()
    }

    /// Why a push at `side_index` is refused, if it is.
    pub open spec fn shift_error(&self, side_index: SideIndex) -> Option<ShiftTileError> {
        if side_index.index() >= self.side() {
            Some(ShiftTileError::OutOfBounds)
        } else if side_index.index() % 2 == 0 {
            Some(ShiftTileError::UnMovable)
        } else if self.free().side_index() == Some(side_index) {
            Some(ShiftTileError::UndoMove)
        } else {
            None
        }
    }

    /// A board of the given tiles, with nothing checked but that the grid is
    /// full.
    pub(crate) fn from_parts(tiles: Vec<Tile>, side_length: usize, free_tile: FreeTile) -> (board:
        Self)
        requires
            valid_side_length(side_length as int),
            tiles@.len() == side_length * side_length,
        ensures
            board.wf(),
            board.side() == side_length,
            board.grid() == tiles@,
            board.free() == free_tile,
    {
        assert(tiles@.len() == tiles.len() <= usize::MAX);
        Self { tiles, side_length, free_tile }
    }

    /// A board of the given tiles, row by row, if they fill a board of the
    /// given side length and that is odd and at least 3.
    pub fn restore(tiles: Vec<Tile>, side_length: usize, free_tile: FreeTile) -> (board: Option<
        Self,
    >)
        ensures
            match board {
                Some(board) => {
                    &&& board.wf()
                    &&& board.side() == side_length
                    &&& board.grid() == tiles@
                    &&& board.free() == free_tile
                },
                None => !(valid_side_length(side_length as int) && tiles@.len() == side_length
                    * side_length),
            },
    {
        if side_length < 3 || side_length % 2 == 0 {
            return None;
        }
        let count = tiles.len();
        match side_length.checked_mul(side_length) {
            Some(cells) => {
                if count != cells {
                    return None;
                }
            },
            None => {
                return None;
            },
        }
        Some(Self::from_parts(tiles, side_length, free_tile))
    }

    pub fn get_side_length(&self) -> (side_length: usize)
        ensures
            side_length == self.side(),
    {
        self.side_length
    }

    pub fn get_number_of_items(&self) -> (count: usize)
        requires
            self.wf(),
        ensures
            count == number_of_items(self.side() as int),
    {
        calculate_number_of_items(self.side_length)
    }

    pub fn get_tile(&self, position: Position) -> (tile: Option<&Tile>)
        requires
            self.wf(),
        ensures
            match tile {
                Some(tile) => self.tile_at(position) == Some(*tile),
                None => self.tile_at(position).is_none(),
            },
    {
        let x = position.get_x();
        let y = position.get_y();
        if x >= self.side_length || y >= self.side_length {
            return None;
        }
        proof {
            lemma_cell_in_grid(self.side_length as int, x as int, y as int);
        }
        Some(&self.tiles[x + y * self.side_length])
    }

    pub fn get_free_tile(&self) -> (free_tile: &FreeTile)
        ensures
            *free_tile == self.free(),
    {
        &self.free_tile
    }

    pub fn rotate_free_tile(&mut self, rotation: Rotation)
        ensures
            final(self).free().tile() == old(self).free().tile().rotated(rotation),
            final(self).free().tile().rotation() == rotation,
            final(self).free().tile().id() == old(self).free().tile().id(),
            final(self).free().tile().variant() == old(self).free().tile().variant(),
            final(self).free().tile().item() == old(self).free().tile().item(),
            final(self).free().side_index() == old(self).free().side_index(),
            final(self).grid() == old(self).grid(),
            final(self).side() == old(self).side(),
            old(self).wf() ==> final(self).wf(),
            old(self).items_unique() ==> final(self).items_unique(),
    {
        proof {
            self.free_tile.tile().lemma_rotated(rotation);
        }
        self.free_tile.set_rotation(rotation);
        proof {
            if old(self).items_unique() {
                assert forall|x1: int, y1: int, x2: int, y2: int|
                    self.on_board(x1, y1) && self.on_board(x2, y2) && (x1 != x2 || y1 != y2) && (
                    #[trigger] self.cell(x1, y1)).item().is_some() implies self.cell(
                    x1,
                    y1,
                ).item() != (#[trigger] self.cell(x2, y2)).item() by {
                    assert(self.cell(x1, y1) == old(self).cell(x1, y1));
                    assert(self.cell(x2, y2) == old(self).cell(x2, y2));
                }
                assert forall|x: int, y: int|
                    self.on_board(x, y) && self.free().tile().item().is_some() implies (
                #[trigger] self.cell(x, y)).item() != self.free().tile().item() by {
                    assert(self.cell(x, y) == old(self).cell(x, y));
                }
            }
        }
    }
}

impl Board {
    /// Pushes the free tile into the line that `side_index` names, at the edge
    /// that it names. The line moves one cell away from that edge, the tile at
    /// its far end leaves the board and becomes the free tile, and pushing that
    /// tile straight back in is barred.
    pub fn shift_tiles(&mut self, side_index: SideIndex) -> (result: Result<
        PositionMap,
        ShiftTileError,
    >)
        requires
            old(self).wf(),
        ensures
            final(self).wf(),
            final(self).side() == old(self).side(),
            old(self).items_unique() ==> final(self).items_unique(),
            final(self).all_tiles().to_multiset() == old(self).all_tiles().to_multiset(),
            match result {
                Ok(map) => {
                    &&& old(self).shift_error(side_index).is_none()
                    &&& map.wf()
                    &&& map@ == shift_map(side_index, old(self).side())
                    &&& map.count() == old(self).side()
                    &&& old(self).is_shifted(side_index, *final(self))
                },
                Err(error) => {
                    &&& old(self).shift_error(side_index) == Some(error)
                    &&& *final(self) == *old(self)
                },
            },
    {
        let index = side_index.get_index();
        let side = side_index.get_side();
        let s = self.side_length;

        if index >= s {
            return Err(ShiftTileError::OutOfBounds);
        }
        if index % 2 == 0 {
            return Err(ShiftTileError::UnMovable);
        }
        match self.free_tile.get_side_index() {
            Some(barred) => {
                if barred == side_index {
                    return Err(ShiftTileError::UndoMove);
                }
            },
            None => {},
        }

        let column = match side {
            Side::Top | Side::Bottom => true,
            Side::Right | Side::Left => false,
        };
        let forward = match side {
            Side::Top | Side::Left => true,
            Side::Right | Side::Bottom => false,
        };
        let ghost before = *self;
        let mut carried: Tile = self.free_tile.get_tile();
        proof {
            to_multiset_build(self.tiles@, carried);
        }
        let mut step: usize = 0;
        while step < s
            invariant
                before.wf(),
                s == before.side(),
                index < s,
                index == side_index.index(),
                column == enters_column(side_index.side()),
                forward == pushes_forward(side_index.side()),
                step <= s,
                self.side_length == s,
                self.free_tile == before.free(),
                self.tiles@.len() == s * s,
                self.tiles@.to_multiset().insert(carried) == before.all_tiles().to_multiset(),
                forall|x: int, y: int|
                    0 <= x < s && 0 <= y < s ==> #[trigger] grid_cell(self.tiles@, s as int, x, y)
                        == (if on_line(
                        side_index,
                        x,
                        y,
                    ) && travelled(forward, s as int, if column {
                        y
                    } else {
                        x
                    }) < step {
                        before.shifted_cell(side_index, x, y)
                    } else {
                        before.cell(x, y)
                    }),
                carried == (if step == 0 {
                    before.free().tile()
                } else {
                    let t = travelled(forward, s as int, step - 1);
                    if column {
                        before.cell(index as int, t)
                    } else {
                        before.cell(t, index as int)
                    }
                }),
            decreases s - step,
        {
            let t = if forward {
                step
            } else {
                s - 1 - step
            };
            let (x, y) = if column {
                (index, t)
            } else {
                (t, index)
            };
            proof {
                lemma_cell_in_grid(s as int, x as int, y as int);
            }
            let at = x + y * s;
            let ghost grid = self.tiles@;
            let found = self.tiles[at];
            self.tiles.set(at, carried);
            proof {
                to_multiset_update(grid, at as int, carried);
                to_multiset_contains(grid, found);
                assert(grid.contains(found));
                assert(self.tiles@.to_multiset().insert(found) =~= grid.to_multiset().insert(
                    carried,
                ));
                assert(grid_cell(grid, s as int, x as int, y as int) == before.cell(
                    x as int,
                    y as int,
                ));
                assert forall|x2: int, y2: int|
                    0 <= x2 < s && 0 <= y2 < s implies #[trigger] grid_cell(
                    self.tiles@,
                    s as int,
                    x2,
                    y2,
                ) == (if on_line(side_index, x2, y2) && travelled(
                    forward,
                    s as int,
                    if column {
                        y2
                    } else {
                        x2
                    },
                ) < step + 1 {
                    before.shifted_cell(side_index, x2, y2)
                } else {
                    before.cell(x2, y2)
                }) by {
                    lemma_cell_in_grid(s as int, x2, y2);
                    lemma_cell_index_injective(s as int, x2, y2, x as int, y as int);
                    assert(grid_cell(grid, s as int, x2, y2) == (if on_line(
                        side_index,
                        x2,
                        y2,
                    ) && travelled(
                        forward,
                        s as int,
                        if column {
                            y2
                        } else {
                            x2
                        },
                    ) < step {
                        before.shifted_cell(side_index, x2, y2)
                    } else {
                        before.cell(x2, y2)
                    }));
                }
            }
            carried = found;
            step += 1;
        }
        let map = line_moves(side_index, s);

        let ejected = self.free_tile.tile_mut();
        *ejected = carried;
        self.free_tile.set_side_index(side_index.shift());
        assert(self.tiles@.len() == s * s);
        assert forall|x: int, y: int| before.on_board(x, y) implies #[trigger] self.cell(x, y)
            == before.shifted_cell(side_index, x, y) by {
            assert(grid_cell(self.tiles@, s as int, x, y) == before.shifted_cell(side_index, x, y));
        }
        assert(self.free().tile() == before.ejected(side_index));
        proof {
            to_multiset_build(self.tiles@, carried);
            if before.items_unique() {
                before.lemma_shift_keeps_items_unique(side_index, *self);
            }
        }

        Ok(map)
    }
}

/// The distance of `position` from the top or the left of the line that
/// `side_index` names.
pub open spec fn along_line(side_index: SideIndex, position: Position) -> int {
    if enters_column(side_index.side()) {
        position.y as int
    } else {
        position.x as int
    }
}

/// Whether `position` is a cell of the line that `side_index` names on a
/// board of side `s`.
pub open spec fn rides(side_index: SideIndex, s: nat, position: Position) -> bool {
    on_line(side_index, position.x as int, position.y as int) && along_line(side_index, position)
        < s
}

/// Where a figure at `position` stands after a push at `side_index` on a board
/// of side `s`: it rides along with its tile if it stands on the line, and
/// from the tile that is pushed out it steps onto the tile that came in.
pub open spec fn moved_position(side_index: SideIndex, s: nat, position: Position) -> Position {
    if rides(side_index, s, position) {
        line_position(
            side_index,
            moved_along(side_index.side(), s as int, along_line(side_index, position)),
        )
    } else {
        position
    }
}

/// The moves of a push at `side_index` on a board of side `s`: every position
/// on the line moves, to where a figure on it rides.
pub open spec fn shift_map(side_index: SideIndex, s: nat) -> Map<Position, Position> {
    Map::new(
        |p: Position| rides(side_index, s, p),
        |p: Position| moved_position(side_index, s, p),
    )
}

/// Notes the move of every cell of the line that `side_index` names on a
/// board of side `s`.
fn line_moves(side_index: SideIndex, s: usize) -> (map: PositionMap)
    requires
        side_index.index() < s,
        s * s <= usize::MAX,
    ensures
        map.wf(),
        map@ == shift_map(side_index, s as nat),
        map.count() == s,
{
    let index = side_index.get_index();
    let column = match side_index.get_side() {
        Side::Top | Side::Bottom => true,
        Side::Right | Side::Left => false,
    };
    let forward = match side_index.get_side() {
        Side::Top | Side::Left => true,
        Side::Right | Side::Bottom => false,
    };
    let mut moves: HashMap<usize, usize> = HashMap::new();
    let mut t: usize = 0;
    while t < s
        invariant
            t <= s,
            index < s,
            s * s <= usize::MAX,
            column == enters_column(side_index.side()),
            forward == pushes_forward(side_index.side()),
            index == side_index.index(),
            moves@.dom().finite(),
            moves@.len() == t,
            forall|x: int, y: int|
                0 <= x < s && 0 <= y < s ==> #[trigger] move_at(moves@, s as int, x, y) == (
                if on_line(side_index, x, y) && (if column {
                    y
                } else {
                    x
                }) < t {
                    let to = moved_position(
                        side_index,
                        s as nat,
                        Position { x: x as usize, y: y as usize },
                    );
                    Some((to.x + to.y * s) as usize)
                } else {
                    None
                }),
        decreases s - t,
    {
        let to = if forward {
            if t + 1 == s {
                0
            } else {
                t + 1
            }
        } else {
            if t == 0 {
                s - 1
            } else {
                t - 1
            }
        };
        let (x, y, to_x, to_y) = if column {
            (index, t, index, to)
        } else {
            (t, index, to, index)
        };
        proof {
            lemma_cell_in_grid(s as int, x as int, y as int);
            lemma_cell_in_grid(s as int, to_x as int, to_y as int);
            assert(move_at(moves@, s as int, x as int, y as int).is_none());
        }
        let ghost noted = moves@;
        moves.insert(x + y * s, to_x + to_y * s);
        proof {
            assert forall|x2: int, y2: int| 0 <= x2 < s && 0 <= y2 < s implies #[trigger] move_at(
                moves@,
                s as int,
                x2,
                y2,
            ) == (if on_line(side_index, x2, y2) && (if column {
                y2
            } else {
                x2
            }) < t + 1 {
                let to = moved_position(
                    side_index,
                    s as nat,
                    Position { x: x2 as usize, y: y2 as usize },
                );
                Some((to.x + to.y * s) as usize)
            } else {
                None
            }) by {
                lemma_cell_in_grid(s as int, x2, y2);
                lemma_cell_index_injective(s as int, x2, y2, x as int, y as int);
                assert(move_at(noted, s as int, x2, y2) == (if on_line(side_index, x2, y2) && (
                if column {
                    y2
                } else {
                    x2
                }) < t {
                    let to = moved_position(
                        side_index,
                        s as nat,
                        Position { x: x2 as usize, y: y2 as usize },
                    );
                    Some((to.x + to.y * s) as usize)
                } else {
                    None
                }));
            }
        }
        t += 1;
    }
    let map = PositionMap { moves, side_length: s };
    proof {
        assert forall|p: Position| map@.contains_key(p) <==> rides(side_index, s as nat, p) by {
            if p.x < s && p.y < s {
                lemma_cell_in_grid(s as int, p.x as int, p.y as int);
                assert(move_at(moves@, s as int, p.x as int, p.y as int).is_some() <==> rides(
                    side_index,
                    s as nat,
                    p,
                ));
            }
        }
        assert forall|p: Position| map@.contains_key(p) implies map@[p] == moved_position(
            side_index,
            s as nat,
            p,
        ) by {
            let to = moved_position(side_index, s as nat, p);
            lemma_cell_in_grid(s as int, p.x as int, p.y as int);
            lemma_cell_in_grid(s as int, to.x as int, to.y as int);
            assert(move_at(moves@, s as int, p.x as int, p.y as int) == Some(
                (to.x + to.y * s) as usize,
            ));
            lemma_cell_of_index(s as int, to.x as int, to.y as int);
        }
        assert(map@ =~= shift_map(side_index, s as nat));
    }
    map
}

impl Board {
    /// After a push, the push that would undo it is refused, and the same push
    /// again is not: the tile that left may not go straight back in where it
    /// came out, but the line may be pushed on.
    pub proof fn lemma_undo_is_barred(&self, side_index: SideIndex, after: Board)
        requires
            self.wf(),
            self.shift_error(side_index).is_none(),
            self.is_shifted(side_index, after),
        ensures
            after.shift_error(side_index.shifted()) == Some(ShiftTileError::UndoMove),
            after.shift_error(side_index).is_none(),
    {
        side_index.lemma_shifted();
    }

    /// A push keeps the items apart: if no item lay on two tiles before, none
    /// does after.
    pub proof fn lemma_shift_keeps_items_unique(&self, side_index: SideIndex, after: Board)
        requires
            self.wf(),
            self.shift_error(side_index).is_none(),
            self.is_shifted(side_index, after),
            self.items_unique(),
        ensures
            after.items_unique(),
    {
        let s = self.side() as int;
        let index = side_index.index() as int;
        let side = side_index.side();
        assert forall|x1: int, y1: int, x2: int, y2: int|
            after.on_board(x1, y1) && after.on_board(x2, y2) && (x1 != x2 || y1 != y2) && (
            #[trigger] after.cell(x1, y1)).item().is_some() implies after.cell(x1, y1).item() != (
        #[trigger] after.cell(x2, y2)).item() by {
            assert(after.cell(x1, y1) == self.shifted_cell(side_index, x1, y1));
            assert(after.cell(x2, y2) == self.shifted_cell(side_index, x2, y2));
            let (a1, b1) = self.source_of(side_index, x1, y1);
            let (a2, b2) = self.source_of(side_index, x2, y2);
            if self.fed_by_free(side_index, x1, y1) {
                assert(!self.fed_by_free(side_index, x2, y2));
                assert(self.cell(a2, b2).item() != self.free().tile().item());
            } else if self.fed_by_free(side_index, x2, y2) {
                assert(self.cell(a1, b1).item() != self.free().tile().item());
            } else {
                assert(self.cell(a1, b1).item() != self.cell(a2, b2).item());
            }
        }
        assert forall|x: int, y: int|
            after.on_board(x, y) && after.free().tile().item().is_some() implies (
        #[trigger] after.cell(x, y)).item() != after.free().tile().item() by {
            assert(after.cell(x, y) == self.shifted_cell(side_index, x, y));
            let (a, b) = self.source_of(side_index, x, y);
            let last = s - 1;
            let (ex, ey) = match side {
                Side::Top => (index, last),
                Side::Bottom => (index, 0int),
                Side::Left => (last, index),
                Side::Right => (0int, index),
            };
            assert(after.free().tile() == self.cell(ex, ey));
            if self.fed_by_free(side_index, x, y) {
                assert(self.cell(ex, ey).item() != self.free().tile().item());
            } else {
                assert(self.cell(ex, ey).item() != self.cell(a, b).item());
            }
        }
    }

    /// Whether a push at `side_index` puts the free tile in column `x` and row
    /// `y`: the cell is the entry of the line.
    spec fn fed_by_free(&self, side_index: SideIndex, x: int, y: int) -> bool {
        let along = if enters_column(side_index.side()) {
            y
        } else {
            x
        };
        on_line(side_index, x, y) && (if pushes_forward(side_index.side()) {
            along == 0
        } else {
            along == self.side() - 1
        })
    }

    /// The cell from which a push at `side_index` brings the tile to column
    /// `x` and row `y`, where that is not the free tile.
    spec fn source_of(&self, side_index: SideIndex, x: int, y: int) -> (int, int) {
        let step = if pushes_forward(side_index.side()) {
            -1
        } else {
            1int
        };
        if !on_line(side_index, x, y) {
            (x, y)
        } else if enters_column(side_index.side()) {
            (x, y + step)
        } else {
            (x + step, y)
        }
    }

    /// A push moves no tile off its line: every fixed cell, and every cell of
    /// another line, holds the tile that it held.
    pub proof fn lemma_shift_keeps_other_lines(
        &self,
        side_index: SideIndex,
        after: Board,
        x: int,
        y: int,
    )
        requires
            self.wf(),
            self.shift_error(side_index).is_none(),
            self.is_shifted(side_index, after),
            self.on_board(x, y),
            !on_line(side_index, x, y) || (x % 2 == 0 && y % 2 == 0),
        ensures
            after.cell(x, y) == self.cell(x, y),
    {
        assert(after.cell(x, y) == self.shifted_cell(side_index, x, y));
    }
}

/// How many cells a tile has passed when it stands `t` steps from the top or
/// the left of a line of `s` cells.
spec fn travelled(forward: bool, s: int, t: int) -> int {
    if forward {
        t
    } else {
        s - 1 - t
    }
}

/// Two cells of a grid with the same index are the same cell.
pub proof fn lemma_cell_index_injective(s: int, x1: int, y1: int, x2: int, y2: int)
    requires
        0 <= x1 < s,
        0 <= x2 < s,
        0 <= y1,
        0 <= y2,
    ensures
        x1 + y1 * s == x2 + y2 * s <==> (x1 == x2 && y1 == y2),
{
    if x1 + y1 * s == x2 + y2 * s {
        assert((y1 - y2) * s == x2 - x1) by (nonlinear_arith)
            requires
                x1 + y1 * s == x2 + y2 * s,
        ;
        assert(y1 == y2) by (nonlinear_arith)
            requires
                (y1 - y2) * s == x2 - x1,
                -s < x2 - x1 < s,
        ;
    }
}

/// A cell of an `s` by `s` grid has an index below `s * s`.
pub proof fn lemma_cell_in_grid(s: int, x: int, y: int)
    requires
        0 <= x < s,
        0 <= y < s,
    ensures
        0 <= y * s <= (s - 1) * s,
        0 <= x + y * s < s * s,
{
    assert(0 <= y * s <= (s - 1) * s) by (nonlinear_arith)
        requires
            0 <= y <= s - 1,
            0 <= s,
    ;
    assert((s - 1) * s + s == s * s) by (nonlinear_arith);
}

pub fn calculate_number_of_items(side_length: usize) -> (count: usize)
    requires
        valid_side_length(side_length as int),
        side_length * side_length <= usize::MAX,
    ensures
        count == number_of_items(side_length as int),
        count <= side_length * side_length,
{
    proof {
        lemma_cell_counts(side_length as int);
    }
    let half: usize = side_length / 2 + 1;
    // 2 * (ceil(side_length / 2)² - num_corners)
    2 * (half * half - 4)
}

} // verus!
