//! Walking through the maze: which cells are linked, which cells can be
//! reached from a cell, and the shortest way there.

use std::collections::{HashMap, VecDeque};
use vstd::prelude::*;

use crate::board::{lemma_cell_in_grid, lemma_cell_index_injective, Board};
use crate::player::Position;
use crate::tile::{lemma_open_sides_distinct, opposite, Side, Tile};

verus! {

/// The column of the cell that lies across `side` from `from`.
pub open spec fn column_beside(from: Position, side: Side) -> int {
    match side {
        Side::Top => from.x as int,
        Side::Right => from.x + 1,
        Side::Bottom => from.x as int,
        Side::Left => from.x - 1,
    }
}

/// The row of the cell that lies across `side` from `from`.
pub open spec fn row_beside(from: Position, side: Side) -> int {
    match side {
        Side::Top => from.y - 1,
        Side::Right => from.y as int,
        Side::Bottom => from.y + 1,
        Side::Left => from.y as int,
    }
}

/// The cell that lies across `side` from `from`, where there is one.
pub open spec fn toward(from: Position, side: Side) -> Position {
    Position { x: column_beside(from, side) as usize, y: row_beside(from, side) as usize }
}

impl Board {
    /// Whether `position` lies on the board.
    pub open spec fn has_tile(&self, position: Position) -> bool {
        self.on_board(position.x as int, position.y as int)
    }

    /// The tile at a position on the board.
    pub open spec fn tile(&self, position: Position) -> Tile
        recommends
            self.has_tile(position),
    {
        self.cell(position.x as int, position.y as int)
    }

    /// Whether one step across `side` leads from `from` to `to`: both lie on
    /// the board, `to` is the cell across that side, the tile at `from` is
    /// open on that side and the tile at `to` is open on the side that faces
    /// it.
    pub open spec fn steps(&self, from: Position, side: Side, to: Position) -> bool {
        &&& self.has_tile(from)
        &&& self.has_tile(to)
        &&& column_beside(from, side) == to.x
        &&& row_beside(from, side) == to.y
        &&& self.tile(from).is_open(side)
        &&& self.tile(to).is_open(opposite(side))
    }

    /// Whether one step leads from `from` to `to`.
    pub open spec fn linked(&self, from: Position, to: Position) -> bool {
        ||| self.steps(from, Side::Top, to)
        ||| self.steps(from, Side::Right, to)
        ||| self.steps(from, Side::Bottom, to)
        ||| self.steps(from, Side::Left, to)
    }

    /// The cells to which one step leads from `from`, for the sides in
    /// `sides`, in their order.
    pub open spec fn exits(&self, from: Position, sides: Seq<Side>) -> Seq<Position>
        decreases sides.len(),
    {
        if sides.len() == 0 {
            Seq::empty()
        } else {
            let before = self.exits(from, sides.drop_last());
            let to = toward(from, sides.last());
            if self.steps(from, sides.last(), to) {
                before.push(to)
            } else {
                before
            }
        }
    }

    /// The cells to which one step leads from `from`, in the order of the
    /// open sides of its tile.
    pub open spec fn neighbours_of(&self, from: Position) -> Seq<Position> {
        if self.has_tile(from) {
            self.exits(from, self.tile(from).connection())
        } else {
            Seq::empty()
        }
    }

    /// A walk: one cell or more, each linked to the next.
    pub open spec fn is_walk(&self, path: Seq<Position>) -> bool {
        &&& path.len() >= 1
        &&& forall|i: int| 0 <= i < path.len() - 1 ==> self.linked(#[trigger] path[i], path[i + 1])
    }

    /// A walk from `start` to `goal`.
    pub open spec fn is_walk_between(
        &self,
        path: Seq<Position>,
        start: Position,
        goal: Position,
    ) -> bool {
        &&& self.is_walk(path)
        &&& path.first() == start
        &&& path.last() == goal
    }

    /// Whether a walk leads from `start` to `goal`. Every cell is reachable
    /// from itself.
    pub open spec fn reachable(&self, start: Position, goal: Position) -> bool {
        exists|path: Seq<Position>| #[trigger] self.is_walk_between(path, start, goal)
    }

    /// A step can be taken back: links go both ways.
    pub proof fn lemma_linked_symmetric(&self, a: Position, b: Position)
        ensures
            self.linked(a, b) <==> self.linked(b, a),
    {
    }

    /// The exits hold exactly the cells to which a step across one of the
    /// given sides leads.
    pub proof fn lemma_exits(&self, from: Position, sides: Seq<Side>, to: Position)
        ensures
            self.exits(from, sides).contains(to) <==> exists|k: int|
                0 <= k < sides.len() && self.steps(from, #[trigger] sides[k], to),
        decreases sides.len(),
    {
        if sides.len() > 0 {
            let rest = sides.drop_last();
            let before = self.exits(from, rest);
            let last = sides.last();
            self.lemma_exits(from, rest, to);
            if self.exits(from, sides).contains(to) {
                if before.contains(to) {
                    let k = choose|k: int|
                        0 <= k < rest.len() && self.steps(from, #[trigger] rest[k], to);
                    assert(self.steps(from, sides[k], to));
                } else {
                    let j = choose|j: int|
                        0 <= j < self.exits(from, sides).len() && self.exits(from, sides)[j] == to;
                    assert(self.steps(from, sides[sides.len() - 1], to));
                }
            }
            if exists|k: int| 0 <= k < sides.len() && self.steps(from, #[trigger] sides[k], to) {
                let k = choose|k: int|
                    0 <= k < sides.len() && self.steps(from, #[trigger] sides[k], to);
                if k < rest.len() {
                    assert(self.steps(from, rest[k], to));
                    assert(before.contains(to));
                    let j = choose|j: int| 0 <= j < before.len() && before[j] == to;
                    if self.steps(from, last, toward(from, last)) {
                        assert(before.push(toward(from, last))[j] == to);
                    }
                } else {
                    assert(toward(from, last) == to);
                    assert(before.push(to)[before.len() as int] == to);
                }
            }
        }
    }
}

fn has_side(sides: &Vec<Side>, side: Side) -> (found: bool)
    ensures
        found == sides@.contains(side),
{
    let mut k: usize = 0;
    while k < sides.len()
        invariant
            k <= sides.len(),
            forall|j: int| 0 <= j < k ==> sides@[j] != side,
        decreases sides.len() - k,
    {
        if sides[k] == side {
            return true;
        }
        k += 1;
    }
    false
}

impl Board {
    /// The neighbours of a cell are the cells to which it is linked.
    pub proof fn lemma_neighbours(&self, from: Position, to: Position)
        ensures
            self.neighbours_of(from).contains(to) <==> self.linked(from, to),
    {
        if self.has_tile(from) {
            let sides = self.tile(from).connection();
            self.lemma_exits(from, sides, to);
            if self.linked(from, to) {
                let side = if self.steps(from, Side::Top, to) {
                    Side::Top
                } else if self.steps(from, Side::Right, to) {
                    Side::Right
                } else if self.steps(from, Side::Bottom, to) {
                    Side::Bottom
                } else {
                    Side::Left
                };
                assert(self.steps(from, side, to));
                assert(sides.contains(side));
                let k = choose|k: int| 0 <= k < sides.len() && sides[k] == side;
                assert(self.steps(from, sides[k], to));
            }
        }
    }

    /// The cells to which one step leads from `position`: across each open
    /// side of its tile, in their order, where the tile beyond is open toward
    /// it. A position off the board has none.
    pub fn neighbours(&self, position: Position) -> (neighbours: Vec<Position>)
        requires
            self.wf(),
        ensures
            neighbours@ == self.neighbours_of(position),
    {
        let mut neighbours: Vec<Position> = Vec::new();

        if let Some(tile) = self.get_tile(position) {
            let sides = tile.get_connection();
            let mut k: usize = 0;
            while k < sides.len()
                invariant
                    self.wf(),
                    self.has_tile(position),
                    sides@ == self.tile(position).connection(),
                    k <= sides.len(),
                    neighbours@ == self.exits(position, sides@.take(k as int)),
                decreases sides.len() - k,
            {
                let side = sides[k];
                let (next, facing) = match side {
                    Side::Top => (position.top(self), Side::Bottom),
                    Side::Right => (position.right(self), Side::Left),
                    Side::Bottom => (position.bottom(self), Side::Top),
                    Side::Left => (position.left(self), Side::Right),
                };
                proof {
                    assert(sides@.take(k + 1).drop_last() =~= sides@.take(k as int));
                    assert(sides@.contains(side));
                }
                if let Some(next) = next {
                    if let Some(beyond) = self.get_tile(next) {
                        if has_side(&beyond.get_connection(), facing) {
                            neighbours.push(next);
                        }
                    }
                }
                k += 1;
            }
            assert(sides@.take(k as int) =~= sides@);
        }
        neighbours
    }
}

/// Whether `to` is among the cells in `order`, no deeper than `bound`.
pub open spec fn met_within(
    order: Seq<Position>,
    depths: Seq<int>,
    to: Position,
    bound: int,
) -> bool {
    exists|m: int| 0 <= m < order.len() && #[trigger] order[m] == to && depths[m] <= bound
}

impl Board {
    /// Whether `order`, `parent` and `depths` describe a search from `start`:
    /// the cells that were met, each once and `start` first; for every other
    /// cell the place in that order of a cell met earlier from which one step
    /// leads to it; and the number of steps that this made from `start`, which
    /// never falls along the order.
    pub open spec fn is_search_tree(
        &self,
        start: Position,
        order: Seq<Position>,
        parent: Seq<usize>,
        depths: Seq<int>,
    ) -> bool {
        &&& order.len() >= 1
        &&& parent.len() == order.len()
        &&& depths.len() == order.len()
        &&& order[0] == start
        &&& depths[0] == 0
        &&& order.no_duplicates()
        &&& forall|k: int|
            1 <= k < order.len() ==> {
                &&& (#[trigger] parent[k]) < k
                &&& self.linked(order[parent[k] as int], order[k])
                &&& depths[k] == depths[parent[k] as int] + 1
            }
        &&& forall|j: int, k: int|
            0 <= j <= k < order.len() ==> #[trigger] depths[j] <= #[trigger] depths[k]
    }

    /// Whether the search has looked at every cell before the place `done` in
    /// its order: each cell to which one step leads from such a cell was met,
    /// at most one step deeper.
    pub open spec fn is_explored(
        &self,
        order: Seq<Position>,
        depths: Seq<int>,
        done: int,
    ) -> bool {
        forall|j: int, to: Position|
            0 <= j < done && #[trigger] self.linked(order[j], to) ==> met_within(
                order,
                depths,
                to,
                depths[j] + 1,
            )
    }

    /// A walk can be continued by one step.
    pub proof fn lemma_walk_extend(&self, path: Seq<Position>, to: Position)
        requires
            self.is_walk(path),
            self.linked(path.last(), to),
        ensures
            self.is_walk(path.push(to)),
            path.push(to).first() == path.first(),
            path.push(to).last() == to,
    {
        let longer = path.push(to);
        assert forall|i: int| 0 <= i < longer.len() - 1 implies self.linked(
            #[trigger] longer[i],
            longer[i + 1],
        ) by {
            if i < path.len() - 1 {
                assert(self.linked(path[i], path[i + 1]));
            }
        }
    }

    /// Every cell that a search has met can be reached from its start, by a
    /// walk of as many steps as the search noted.
    pub proof fn lemma_met_is_reachable(
        &self,
        start: Position,
        order: Seq<Position>,
        parent: Seq<usize>,
        depths: Seq<int>,
        k: int,
    ) -> (path: Seq<Position>)
        requires
            self.is_search_tree(start, order, parent, depths),
            0 <= k < order.len(),
        ensures
            self.is_walk_between(path, start, order[k]),
            path.len() == depths[k] + 1,
            self.reachable(start, order[k]),
        decreases k,
    {
        if k == 0 {
            let path = seq![start];
            assert(self.is_walk_between(path, start, order[k]));
            path
        } else {
            let before = self.lemma_met_is_reachable(
                start,
                order,
                parent,
                depths,
                parent[k] as int,
            );
            self.lemma_walk_extend(before, order[k]);
            let path = before.push(order[k]);
            assert(self.is_walk_between(path, start, order[k]));
            path
        }
    }

    /// Along a walk from the start of a search, each cell was met no deeper
    /// than the number of steps to it, as long as the cells before it were
    /// looked at; and once a cell was not looked at, the walk is already as
    /// long as the way to any cell that was.
    proof fn lemma_walk_is_met(
        &self,
        start: Position,
        order: Seq<Position>,
        parent: Seq<usize>,
        depths: Seq<int>,
        done: int,
        walk: Seq<Position>,
        i: int,
    )
        requires
            self.is_search_tree(start, order, parent, depths),
            self.is_explored(order, depths, done),
            0 <= done <= order.len(),
            self.is_walk(walk),
            walk.first() == start,
            0 <= i < walk.len(),
        ensures
            met_within(order, depths, walk[i], i) || forall|g: int|
                0 <= g < done ==> #[trigger] depths[g] <= i,
        decreases i,
    {
        if i == 0 {
            assert(order[0] == walk[0] && depths[0] <= 0);
        } else {
            self.lemma_walk_is_met(start, order, parent, depths, done, walk, i - 1);
            if met_within(order, depths, walk[i - 1], i - 1) {
                let m = choose|m: int|
                    0 <= m < order.len() && #[trigger] order[m] == walk[i - 1] && depths[m] <= i
                        - 1;
                assert(self.linked(walk[i - 1], walk[i - 1 + 1]));
                if m < done {
                    assert(self.linked(order[m], walk[i]));
                    assert(met_within(order, depths, walk[i], depths[m] + 1));
                    let m2 = choose|m2: int|
                        0 <= m2 < order.len() && #[trigger] order[m2] == walk[i] && depths[m2]
                            <= depths[m] + 1;
                    assert(order[m2] == walk[i] && depths[m2] <= i);
                } else {
                    assert forall|g: int| 0 <= g < done implies #[trigger] depths[g] <= i by {
                        assert(depths[g] <= depths[m]);
                    }
                }
            } else {
                assert forall|g: int| 0 <= g < done implies #[trigger] depths[g] <= i by {
                    assert(depths[g] <= i - 1);
                }
            }
        }
    }

    /// No walk from the start of a search to a cell that it has looked at is
    /// shorter than the way that the search found.
    pub proof fn lemma_search_is_shortest(
        &self,
        start: Position,
        order: Seq<Position>,
        parent: Seq<usize>,
        depths: Seq<int>,
        done: int,
        g: int,
        walk: Seq<Position>,
    )
        requires
            self.is_search_tree(start, order, parent, depths),
            self.is_explored(order, depths, done),
            0 <= g < done <= order.len(),
            self.is_walk_between(walk, start, order[g]),
        ensures
            walk.len() >= depths[g] + 1,
    {
        let i = walk.len() - 1;
        self.lemma_walk_is_met(start, order, parent, depths, done, walk, i);
        if met_within(order, depths, walk[i], i) {
            let m = choose|m: int|
                0 <= m < order.len() && #[trigger] order[m] == walk[i] && depths[m] <= i;
            assert(m == g);
        } else {
            assert(depths[g] <= i);
        }
    }

    /// A search that has looked at every cell that it met has met every cell
    /// that can be reached from its start.
    pub proof fn lemma_search_is_complete(
        &self,
        start: Position,
        order: Seq<Position>,
        parent: Seq<usize>,
        depths: Seq<int>,
        goal: Position,
    )
        requires
            self.is_search_tree(start, order, parent, depths),
            self.is_explored(order, depths, order.len() as int),
            self.reachable(start, goal),
        ensures
            order.contains(goal),
    {
        let walk = choose|walk: Seq<Position>| #[trigger] self.is_walk_between(walk, start, goal);
        let i = walk.len() - 1;
        self.lemma_walk_is_met(start, order, parent, depths, order.len() as int, walk, i);
        if !met_within(order, depths, walk[i], i) {
            // Every cell was looked at, so the walk never leaves them.
            self.lemma_walk_stays(start, order, parent, depths, walk, i);
        }
    }

    /// Where every cell that was met was looked at, a walk from the start
    /// stays among them.
    proof fn lemma_walk_stays(
        &self,
        start: Position,
        order: Seq<Position>,
        parent: Seq<usize>,
        depths: Seq<int>,
        walk: Seq<Position>,
        i: int,
    )
        requires
            self.is_search_tree(start, order, parent, depths),
            self.is_explored(order, depths, order.len() as int),
            self.is_walk(walk),
            walk.first() == start,
            0 <= i < walk.len(),
        ensures
            order.contains(walk[i]),
        decreases i,
    {
        if i == 0 {
            assert(order[0] == walk[0]);
        } else {
            self.lemma_walk_stays(start, order, parent, depths, walk, i - 1);
            let m = choose|m: int| 0 <= m < order.len() && order[m] == walk[i - 1];
            assert(self.linked(walk[i - 1], walk[i - 1 + 1]));
            assert(self.linked(order[m], walk[i]));
            assert(met_within(order, depths, walk[i], depths[m] + 1));
        }
    }
}

/// The way that a search found to the cell in place `k` of its order: the
/// way to the cell from which it was met, and then the cell itself.
pub open spec fn branch(order: Seq<Position>, parent: Seq<usize>, k: int) -> Seq<Position>
    decreases k,
{
    if k <= 0 || k >= parent.len() || parent[k] >= k {
        seq![order[0]]
    } else {
        branch(order, parent, parent[k] as int).push(order[k])
    }
}

/// Whether `to` is among the first `k` of `cells`.
spec fn is_among_first(cells: Seq<Position>, k: int, to: Position) -> bool {
    exists|t: int| 0 <= t < k && t < cells.len() && #[trigger] cells[t] == to
}

impl Board {
    /// Whether the search met the cell in place `a` of its order before the
    /// one in place `b` by its rule: from a cell that it looked at earlier,
    /// or from the same cell, of whose neighbours it is an earlier one.
    pub open spec fn met_in_turn(
        &self,
        order: Seq<Position>,
        parent: Seq<usize>,
        a: int,
        b: int,
    ) -> bool {
        let from = self.neighbours_of(order[parent[a] as int]);
        parent[a] < parent[b] || (parent[a] == parent[b] && exists|i: int, j: int|
            0 <= i < j < from.len() && #[trigger] from[i] == order[a] && #[trigger] from[j]
                == order[b])
    }

    /// Whether `order`, `parent` and `depths` are what a search breadth first
    /// from `start` holds when it has looked at the cells up to the place
    /// `last` of its order. It looks at the cells in the order in which it met
    /// them. Looking at a cell, it meets those neighbours of the cell that it
    /// has not met, in their order. So every cell was met from the first cell
    /// in the order to which it is linked.
    pub open spec fn is_breadth_first(
        &self,
        start: Position,
        order: Seq<Position>,
        parent: Seq<usize>,
        depths: Seq<int>,
        last: int,
    ) -> bool {
        &&& self.is_search_tree(start, order, parent, depths)
        &&& 0 <= last < order.len()
        &&& self.is_explored(order, depths, last + 1)
        &&& forall|k: int| 1 <= k < order.len() ==> (#[trigger] parent[k]) <= last
        &&& forall|j: int, k: int|
            1 <= k < order.len() && 0 <= j < parent[k] ==> !(#[trigger] self.linked(
                order[j],
                order[k],
            ))
        &&& forall|a: int, b: int|
            1 <= a < b < order.len() ==> #[trigger] self.met_in_turn(order, parent, a, b)
    }

    /// Whether `path` is the way that a search breadth first from `start`
    /// finds to `goal`, when it ends as soon as it has looked at `goal`.
    pub open spec fn is_search_path(
        &self,
        start: Position,
        goal: Position,
        path: Seq<Position>,
    ) -> bool {
        exists|order: Seq<Position>, parent: Seq<usize>, depths: Seq<int>, g: int|
            #[trigger] self.is_breadth_first(start, order, parent, depths, g) && order[g] == goal
                && path == branch(order, parent, g)
    }

    /// Whether `cells` are the cells that a search breadth first from `start`
    /// meets, in the order in which it meets them, when it goes on until it
    /// has looked at every cell that it met.
    pub open spec fn is_search_order(&self, start: Position, cells: Seq<Position>) -> bool {
        exists|parent: Seq<usize>, depths: Seq<int>| #[trigger]
            self.is_breadth_first(start, cells, parent, depths, cells.len() - 1)
    }
}

/// What a search through the maze found.
struct Search {
    /// The cells that were met, in the order in which they were met.
    order: Vec<Position>,
    /// For each cell, the place in `order` of the cell from which it was met.
    parent: Vec<usize>,
    /// The place of the goal in `order`, if the search had a goal and met it.
    found: Option<usize>,
    /// For each cell, the number of steps by which it was met.
    depths: Ghost<Seq<int>>,
}

/// The note on the cell in column `x` and row `y`, where the notes are kept
/// under the index of the cell.
spec fn note_at(notes: Map<usize, usize>, s: int, x: int, y: int) -> Option<usize> {
    let index = (x + y * s) as usize;
    if notes.contains_key(index) {
        Some(notes[index])
    } else {
        None
    }
}

/// The number of cells with an index below `cells` that have no note.
spec fn blanks(notes: Map<usize, usize>, cells: nat) -> nat
    decreases cells,
{
    if cells == 0 {
        0
    } else {
        blanks(notes, (cells - 1) as nat) + (if notes.contains_key((cells - 1) as usize) {
            0nat
        } else {
            1nat
        })
    }
}

/// A note under an index that is not counted changes no count.
proof fn lemma_blanks_beyond(notes: Map<usize, usize>, cells: nat, index: usize, note: usize)
    requires
        cells <= index,
    ensures
        blanks(notes.insert(index, note), cells) == blanks(notes, cells),
    decreases cells,
{
    if cells > 0 {
        lemma_blanks_beyond(notes, (cells - 1) as nat, index, note);
    }
}

/// A note on a cell that had none leaves one blank fewer.
proof fn lemma_blanks_update(notes: Map<usize, usize>, cells: nat, index: usize, note: usize)
    requires
        index < cells <= usize::MAX,
        !notes.contains_key(index),
    ensures
        blanks(notes.insert(index, note), cells) == blanks(notes, cells) - 1,
    decreases cells,
{
    if index == cells - 1 {
        lemma_blanks_beyond(notes, (cells - 1) as nat, index, note);
    } else {
        lemma_blanks_update(notes, (cells - 1) as nat, index, note);
    }
}

impl Board {
    /// Whether `notes` tells of each cell of the board where in `order` it
    /// stands, and has no note for the cells that `order` does not hold.
    spec fn is_noted(&self, order: Seq<Position>, notes: Map<usize, usize>) -> bool {
        forall|x: int, y: int|
            self.on_board(x, y) ==> match #[trigger] note_at(notes, self.side() as int, x, y) {
                Some(m) => m < order.len() && order[m as int] == (Position {
                    x: x as usize,
                    y: y as usize,
                }),
                None => !order.contains(Position { x: x as usize, y: y as usize }),
            }
    }

    /// Searches the maze from `start`, breadth first: the cells wait in a
    /// queue to be looked at in the order in which they were met, and looking
    /// at a cell meets those of its neighbours that were not met before. A
    /// map keeps, under the index of each cell that was met, its place in that
    /// order. With a goal, the search ends when it has looked at the goal.
    fn maze_bfs(&self, start: Position, goal: Option<Position>) -> (search: Search)
        requires
            self.wf(),
        ensures
            match search.found {
                Some(g) => {
                    &&& g < search.order@.len()
                    &&& goal == Some(search.order@[g as int])
                    &&& self.is_breadth_first(
                        start,
                        search.order@,
                        search.parent@,
                        search.depths@,
                        g as int,
                    )
                },
                None => {
                    &&& self.is_breadth_first(
                        start,
                        search.order@,
                        search.parent@,
                        search.depths@,
                        search.order@.len() - 1,
                    )
                    &&& goal matches Some(p) ==> !search.order@.contains(p)
                },
            },
    {
        let side_length = self.get_side_length();
        let ghost s = side_length as int;
        let ghost cells = (s * s) as nat;
        let mut preds: HashMap<usize, usize> = HashMap::new();
        let mut order: Vec<Position> = Vec::new();
        let mut parent: Vec<usize> = Vec::new();
        let ghost mut depths: Seq<int> = seq![0int];
        order.push(start);
        parent.push(0);
        if start.x < side_length && start.y < side_length {
            proof {
                lemma_cell_in_grid(s, start.x as int, start.y as int);
            }
            let ghost blank = preds@;
            preds.insert(start.x + start.y * side_length, 0);
            proof {
                assert forall|x: int, y: int| self.on_board(x, y) implies match #[trigger] note_at(
                    preds@,
                    s,
                    x,
                    y,
                ) {
                    Some(m) => m < order@.len() && order@[m as int] == (Position {
                        x: x as usize,
                        y: y as usize,
                    }),
                    None => !order@.contains(Position { x: x as usize, y: y as usize }),
                } by {
                    lemma_cell_in_grid(s, x, y);
                    lemma_cell_index_injective(s, x, y, start.x as int, start.y as int);
                    assert(note_at(blank, s, x, y).is_none());
                }
            }
        } else {
            assert forall|x: int, y: int| self.on_board(x, y) implies match #[trigger] note_at(
                preds@,
                s,
                x,
                y,
            ) {
                Some(m) => m < order@.len() && order@[m as int] == (Position {
                    x: x as usize,
                    y: y as usize,
                }),
                None => !order@.contains(Position { x: x as usize, y: y as usize }),
            } by {
                lemma_cell_in_grid(s, x, y);
            }
        }

        let mut to_visit: VecDeque<Position> = VecDeque::new();
        to_visit.push_back(start);
        assert(to_visit@ =~= order@.subrange(0, 1));
        let mut head: usize = 0;
        while to_visit.len() > 0
            invariant
                self.wf(),
                s == self.side(),
                side_length == s,
                cells == s * s,
                to_visit@ == order@.subrange(head as int, order@.len() as int),
                self.is_search_tree(start, order@, parent@, depths),
                self.is_noted(order@, preds@),
                self.is_explored(order@, depths, head as int),
                head <= order@.len(),
                forall|k: int| 1 <= k < order@.len() ==> self.has_tile(#[trigger] order@[k]),
                head < order@.len() ==> forall|k: int|
                    0 <= k < order@.len() ==> #[trigger] depths[k] <= depths[head as int] + 1,
                goal matches Some(p) ==> forall|k: int|
                    0 <= k < head ==> #[trigger] order@[k] != p,
                forall|k: int| 1 <= k < order@.len() ==> (#[trigger] parent@[k]) < head,
                forall|j: int, k: int|
                    1 <= k < order@.len() && 0 <= j < parent@[k] ==> !(#[trigger] self.linked(
                        order@[j],
                        order@[k],
                    )),
                forall|a: int, b: int|
                    1 <= a < b < order@.len() ==> #[trigger] self.met_in_turn(
                        order@,
                        parent@,
                        a,
                        b,
                    ),
            decreases 2 * blanks(preds@, cells) + order@.len() - head,
        {
            assert(to_visit@.len() == order@.len() - head);
            let next = to_visit.pop_front().unwrap();
            assert(next == order@[head as int]);
            assert(to_visit@ =~= order@.subrange(head + 1, order@.len() as int));
            let neighbours = self.neighbours(next);
            let ghost budget = 2 * blanks(preds@, cells) + order@.len();
            let mut k: usize = 0;
            while k < neighbours.len()
                invariant
                    self.wf(),
                    s == self.side(),
                    side_length == s,
                    cells == s * s,
                    to_visit@ == order@.subrange(head + 1, order@.len() as int),
                    self.is_search_tree(start, order@, parent@, depths),
                    self.is_noted(order@, preds@),
                    self.is_explored(order@, depths, head as int),
                    head < order@.len(),
                    next == order@[head as int],
                    neighbours@ == self.neighbours_of(next),
                    k <= neighbours@.len(),
                    forall|k: int| 1 <= k < order@.len() ==> self.has_tile(#[trigger] order@[k]),
                    forall|k: int|
                        0 <= k < order@.len() ==> #[trigger] depths[k] <= depths[head as int] + 1,
                    forall|t: int|
                        0 <= t < k ==> met_within(
                            order@,
                            depths,
                            #[trigger] neighbours@[t],
                            depths[head as int] + 1,
                        ),
                    2 * blanks(preds@, cells) + order@.len() <= budget,
                    goal matches Some(p) ==> forall|k: int|
                        0 <= k < head ==> #[trigger] order@[k] != p,
                    forall|k: int| 1 <= k < order@.len() ==> (#[trigger] parent@[k]) <= head,
                    forall|a: int|
                        1 <= a < order@.len() && (#[trigger] parent@[a]) == head
                            ==> is_among_first(neighbours@, k as int, order@[a]),
                    forall|j: int, k: int|
                        1 <= k < order@.len() && 0 <= j < parent@[k] ==> !(#[trigger] self.linked(
                            order@[j],
                            order@[k],
                        )),
                    forall|a: int, b: int|
                        1 <= a < b < order@.len() ==> #[trigger] self.met_in_turn(
                            order@,
                            parent@,
                            a,
                            b,
                        ),
                decreases neighbours.len() - k,
            {
                let to = neighbours[k];
                let ghost met = order@;
                let ghost from = parent@;
                proof {
                    assert(neighbours@.contains(to));
                    self.lemma_neighbours(next, to);
                    lemma_cell_in_grid(s, to.x as int, to.y as int);
                    assert((to.x + to.y * s) as usize == to.x + to.y * s);
                    assert forall|a: int|
                        1 <= a < met.len() && (#[trigger] from[a]) == head implies is_among_first(
                        neighbours@,
                        k + 1,
                        met[a],
                    ) by {
                        assert(is_among_first(neighbours@, k as int, met[a]));
                        let t = choose|t: int|
                            0 <= t < k && t < neighbours@.len() && #[trigger] neighbours@[t]
                                == met[a];
                        assert(neighbours@[t] == met[a]);
                    }
                }
                let at = to.x + to.y * side_length;
                assert(at == (to.x + to.y * s) as usize);
                match preds.get(&at) {
                    Some(m) => {
                        assert(note_at(preds@, s, to.x as int, to.y as int) == Some(*m));
                        assert(order@[*m as int] == to);
                    },
                    None => {
                        assert(note_at(preds@, s, to.x as int, to.y as int).is_none());
                        let ghost known = preds@;
                        let ghost steps = depths;
                        preds.insert(at, order.len());
                        to_visit.push_back(to);
                        order.push(to);
                        parent.push(head);
                        proof {
                            assert(to_visit@ =~= order@.subrange(
                                head + 1,
                                order@.len() as int,
                            ));
                            depths = depths.push(depths[head as int] + 1);
                            lemma_blanks_update(known, cells, at, met.len() as usize);
                            assert(order@[met.len() as int] == to);
                            assert(!met.contains(to));
                            assert forall|j: int, q: Position|
                                0 <= j < head && #[trigger] self.linked(
                                    order@[j],
                                    q,
                                ) implies met_within(order@, depths, q, depths[j] + 1) by {
                                assert(self.linked(met[j], q));
                                let m = choose|m: int|
                                    0 <= m < met.len() && #[trigger] met[m] == q && steps[m]
                                        <= steps[j] + 1;
                                assert(order@[m] == q);
                            }
                            assert forall|t: int| 0 <= t < k + 1 implies met_within(
                                order@,
                                depths,
                                #[trigger] neighbours@[t],
                                depths[head as int] + 1,
                            ) by {
                                if t < k {
                                    let m = choose|m: int|
                                        0 <= m < met.len() && #[trigger] met[m] == neighbours@[t]
                                            && steps[m] <= steps[head as int] + 1;
                                    assert(order@[m] == neighbours@[t]);
                                }
                            }
                            assert forall|x: int, y: int|
                                self.on_board(x, y) implies match #[trigger] note_at(
                                preds@,
                                s,
                                x,
                                y,
                            ) {
                                Some(m) => m < order@.len() && order@[m as int] == (Position {
                                    x: x as usize,
                                    y: y as usize,
                                }),
                                None => !order@.contains(Position { x: x as usize, y: y as usize }),
                            } by {
                                lemma_cell_in_grid(s, x, y);
                                lemma_cell_index_injective(s, x, y, to.x as int, to.y as int);
                                let here = Position { x: x as usize, y: y as usize };
                                match note_at(known, s, x, y) {
                                    Some(m) => {
                                        assert(met[m as int] == here);
                                    },
                                    None => {
                                        if here != to {
                                            assert(!met.contains(here));
                                            if order@.contains(here) {
                                                let m = choose|m: int|
                                                    0 <= m < order@.len() && order@[m] == here;
                                                assert(met[m] == here);
                                            }
                                        }
                                    },
                                }
                            }
                            assert(order@.no_duplicates()) by {
                                assert forall|a: int, b: int|
                                    0 <= a < order@.len() && 0 <= b < order@.len() && a
                                        != b implies order@[a] != order@[b] by {
                                    if a < met.len() && b < met.len() {
                                        assert(met[a] != met[b]);
                                    } else if a < met.len() {
                                        assert(met.contains(met[a]));
                                    } else {
                                        assert(met.contains(met[b]));
                                    }
                                }
                            }
                            assert forall|a: int|
                                1 <= a < order@.len() && (#[trigger] parent@[a])
                                    == head implies is_among_first(
                                neighbours@,
                                k + 1,
                                order@[a],
                            ) by {
                                if a < met.len() {
                                    assert(from[a] == head);
                                    assert(is_among_first(neighbours@, k + 1, met[a]));
                                } else {
                                    assert(neighbours@[k as int] == to);
                                }
                            }
                            assert forall|j: int, c: int|
                                1 <= c < order@.len() && 0 <= j < parent@[c] implies !(
                            #[trigger] self.linked(order@[j], order@[c])) by {
                                if c < met.len() {
                                    assert(from[c] == parent@[c]);
                                    assert(!self.linked(met[j], met[c]));
                                } else {
                                    if self.linked(met[j], to) {
                                        assert(met_within(met, steps, to, steps[j] + 1));
                                        let m = choose|m: int|
                                            0 <= m < met.len() && #[trigger] met[m] == to
                                                && steps[m] <= steps[j] + 1;
                                        assert(met.contains(to));
                                    }
                                }
                            }
                            assert forall|a: int, b: int|
                                1 <= a < b < order@.len() implies #[trigger] self.met_in_turn(
                                order@,
                                parent@,
                                a,
                                b,
                            ) by {
                                if b < met.len() {
                                    assert(self.met_in_turn(met, from, a, b));
                                    assert(from[a] == parent@[a] && from[b] == parent@[b]);
                                    assert(met[from[a] as int] == order@[parent@[a] as int]);
                                } else {
                                    assert(from[a] <= head);
                                    if from[a] == head {
                                        assert(is_among_first(neighbours@, k + 1, met[a]));
                                        assert(is_among_first(neighbours@, k as int, met[a]));
                                        let t = choose|t: int|
                                            0 <= t < k && t < neighbours@.len()
                                                && #[trigger] neighbours@[t] == met[a];
                                        let list = self.neighbours_of(order@[parent@[a] as int]);
                                        assert(list == neighbours@);
                                        assert(list[t] == order@[a] && list[k as int] == order@[b]);
                                    }
                                }
                            }
                        }
                    },
                }
                k += 1;
            }
            proof {
                assert forall|j: int, q: Position|
                    0 <= j < head + 1 && #[trigger] self.linked(order@[j], q) implies met_within(
                    order@,
                    depths,
                    q,
                    depths[j] + 1,
                ) by {
                    if j == head {
                        self.lemma_neighbours(next, q);
                        let t = choose|t: int| 0 <= t < neighbours@.len() && neighbours@[t] == q;
                        assert(met_within(order@, depths, neighbours@[t], depths[head as int] + 1));
                    }
                }
            }
            match goal {
                Some(p) => {
                    if p == next {
                        return Search { order, parent, found: Some(head), depths: Ghost(depths) };
                    }
                },
                None => {},
            }
            assert(head < order@.len() == order.len() <= usize::MAX);
            head += 1;
            proof {
                if head < order@.len() {
                    assert forall|k: int| 0 <= k < order@.len() implies #[trigger] depths[k]
                        <= depths[head as int] + 1 by {
                        assert(depths[head - 1] <= depths[head as int]);
                    }
                }
            }
        }
        proof {
            if let Some(p) = goal {
                if order@.contains(p) {
                    let m = choose|m: int| 0 <= m < order@.len() && order@[m] == p;
                    assert(order@[m] != p);
                }
            }
        }
        Search { order, parent, found: None, depths: Ghost(depths) }
    }
}

impl Board {
    /// Whether `cells` holds the cells that can be reached from `start`, each
    /// once.
    pub open spec fn is_reach(&self, start: Position, cells: Seq<Position>) -> bool {
        &&& cells.no_duplicates()
        &&& forall|p: Position| cells.contains(p) <==> self.reachable(start, p)
    }

    /// Whether `path` is a walk from `start` to `goal` and no such walk is
    /// shorter.
    pub open spec fn is_shortest_walk(
        &self,
        path: Seq<Position>,
        start: Position,
        goal: Position,
    ) -> bool {
        &&& self.is_walk_between(path, start, goal)
        &&& forall|other: Seq<Position>| #[trigger]
            self.is_walk_between(other, start, goal) ==> path.len() <= other.len()
    }

    /// Whether `answer` says how to walk from `start` to `goal`: a shortest
    /// walk if there is a walk, and nothing if there is none.
    pub open spec fn is_path_answer(
        &self,
        start: Position,
        goal: Position,
        answer: Option<Seq<Position>>,
    ) -> bool {
        match answer {
            Some(path) => self.is_shortest_walk(path, start, goal),
            None => !self.reachable(start, goal),
        }
    }

    /// The cells that can be reached from `start`, `start` first and then in
    /// the order in which a search breadth first meets them.
    pub fn get_reachable(&self, start: Position) -> (cells: Vec<Position>)
        requires
            self.wf(),
        ensures
            self.is_reach(start, cells@),
            self.is_search_order(start, cells@),
            cells@.len() >= 1,
            cells@[0] == start,
    {
        let search = self.maze_bfs(start, None);
        proof {
            let order = search.order@;
            assert forall|p: Position| order.contains(p) <==> self.reachable(start, p) by {
                if order.contains(p) {
                    let k = choose|k: int| 0 <= k < order.len() && order[k] == p;
                    self.lemma_met_is_reachable(start, order, search.parent@, search.depths@, k);
                }
                if self.reachable(start, p) {
                    self.lemma_search_is_complete(
                        start,
                        order,
                        search.parent@,
                        search.depths@,
                        p,
                    );
                }
            }
        }
        search.order
    }

    /// Whether a walk leads from `start` to `goal`.
    pub fn is_reachable(&self, start: Position, goal: Position) -> (reachable: bool)
        requires
            self.wf(),
        ensures
            reachable == self.reachable(start, goal),
    {
        let search = self.maze_bfs(start, Some(goal));
        proof {
            let order = search.order@;
            match search.found {
                Some(g) => {
                    self.lemma_met_is_reachable(
                        start,
                        order,
                        search.parent@,
                        search.depths@,
                        g as int,
                    );
                },
                None => {
                    if self.reachable(start, goal) {
                        self.lemma_search_is_complete(
                            start,
                            order,
                            search.parent@,
                            search.depths@,
                            goal,
                        );
                    }
                },
            }
        }
        search.found.is_some()
    }

    /// A shortest walk from `start` to `goal`, both ends included, or nothing
    /// if no walk leads there. It is the walk that a search breadth first
    /// finds.
    pub fn get_path(&self, start: Position, goal: Position) -> (path: Option<Vec<Position>>)
        requires
            self.wf(),
        ensures
            match path {
                Some(path) => {
                    &&& self.is_shortest_walk(path@, start, goal)
                    &&& self.is_search_path(start, goal, path@)
                },
                None => !self.reachable(start, goal),
            },
    {
        let search = self.maze_bfs(start, Some(goal));
        let ghost order = search.order@;
        let ghost parent = search.parent@;
        let ghost depths = search.depths@;
        let g = match search.found {
            Some(g) => g,
            None => {
                proof {
                    if self.reachable(start, goal) {
                        self.lemma_search_is_complete(start, order, parent, depths, goal);
                    }
                }
                return None;
            },
        };

        let mut path: Vec<Position> = Vec::new();
        let mut current = g;

        while current != 0
            invariant
                self.is_search_tree(start, order, parent, depths),
                order == search.order@,
                parent == search.parent@,
                current < order.len(),
                goal == order[g as int],
                path@.len() + depths[current as int] == depths[g as int],
                forall|i: int|
                    0 <= i < path@.len() - 1 ==> self.linked(path@[i + 1], #[trigger] path@[i]),
                path@.len() == 0 ==> current == g,
                path@.len() > 0 ==> path@[0] == goal && self.linked(
                    order[current as int],
                    path@.last(),
                ),
                branch(order, parent, g as int) == branch(order, parent, current as int)
                    + path@.reverse(),
            decreases current,
        {
            let ghost walked = path@;
            let ghost stood = current;
            path.push(search.order[current]);
            current = search.parent[current];
            proof {
                assert(branch(order, parent, current as int).push(order[stood as int])
                    + walked.reverse() =~= branch(order, parent, current as int)
                    + path@.reverse());
                assert forall|i: int| 0 <= i < path@.len() - 1 implies self.linked(
                    path@[i + 1],
                    #[trigger] path@[i],
                ) by {
                    if i < walked.len() - 1 {
                        assert(self.linked(walked[i + 1], walked[i]));
                    }
                }
            }
        }

        let ghost walked = path@;
        path.push(search.order[0]);
        proof {
            assert forall|i: int| 0 <= i < path@.len() - 1 implies self.linked(
                path@[i + 1],
                #[trigger] path@[i],
            ) by {
                if i < walked.len() - 1 {
                    assert(self.linked(walked[i + 1], walked[i]));
                }
            }
        }
        let mut forward: Vec<Position> = Vec::new();
        let mut left = path.len();
        while left > 0
            invariant
                left <= path@.len(),
                forward@.len() == path@.len() - left,
                forall|t: int|
                    0 <= t < forward@.len() ==> #[trigger] forward@[t] == path@[path@.len() - 1
                        - t],
            decreases left,
        {
            left -= 1;
            forward.push(path[left]);
        }
        proof {
            assert forall|i: int| 0 <= i < forward@.len() - 1 implies self.linked(
                #[trigger] forward@[i],
                forward@[i + 1],
            ) by {
                let back = path@.len() - 2 - i;
                assert(self.linked(path@[back + 1], path@[back]));
            }
            assert(self.is_walk_between(forward@, start, goal));
            assert(forward@ =~= branch(order, parent, 0) + walked.reverse());
            assert forall|other: Seq<Position>| #[trigger]
                self.is_walk_between(other, start, goal) implies forward@.len()
                <= other.len() by {
                self.lemma_search_is_shortest(start, order, parent, depths, g + 1, g as int, other);
            }
        }
        Some(forward)
    }
}

impl Board {
    /// To every cell among those that can be reached from `start`, the answer
    /// to the question for a path is a walk: it begins at `start`, ends at the
    /// cell, and each of its cells is linked to the next, which means that the
    /// two tiles are open toward each other.
    pub proof fn lemma_reached_has_path(
        &self,
        start: Position,
        goal: Position,
        cells: Seq<Position>,
        answer: Option<Seq<Position>>,
    )
        requires
            self.wf(),
            self.is_reach(start, cells),
            cells.contains(goal),
            self.is_path_answer(start, goal, answer),
        ensures
            answer.is_some(),
            answer.unwrap().len() >= 1,
            answer.unwrap().first() == start,
            answer.unwrap().last() == goal,
            forall|i: int|
                0 <= i < answer.unwrap().len() - 1 ==> {
                    let from = #[trigger] answer.unwrap()[i];
                    let to = answer.unwrap()[i + 1];
                    &&& self.linked(from, to)
                    &&& self.linked(to, from)
                    &&& exists|side: Side|
                        self.tile(from).is_open(side) && self.tile(to).is_open(opposite(side))
                            && to == toward(from, side)
                },
    {
        let path = answer.unwrap();
        assert forall|i: int| 0 <= i < path.len() - 1 implies {
            let from = #[trigger] path[i];
            let to = path[i + 1];
            &&& self.linked(from, to)
            &&& self.linked(to, from)
            &&& exists|side: Side|
                self.tile(from).is_open(side) && self.tile(to).is_open(opposite(side)) && to
                    == toward(from, side)
        } by {
            let from = path[i];
            let to = path[i + 1];
            assert(self.linked(from, to));
            self.lemma_linked_symmetric(from, to);
            let side = if self.steps(from, Side::Top, to) {
                Side::Top
            } else if self.steps(from, Side::Right, to) {
                Side::Right
            } else if self.steps(from, Side::Bottom, to) {
                Side::Bottom
            } else {
                Side::Left
            };
            assert(self.steps(from, side, to));
            assert(self.tile(from).is_open(side) && self.tile(to).is_open(opposite(side)) && to
                == toward(from, side));
        }
    }

    /// A cell that is not among those that can be reached from `start` cannot
    /// be reached from it, and the question for a path to it has no answer.
    pub proof fn lemma_not_reached_has_no_path(
        &self,
        start: Position,
        goal: Position,
        cells: Seq<Position>,
        answer: Option<Seq<Position>>,
    )
        requires
            self.is_reach(start, cells),
            !cells.contains(goal),
            self.is_path_answer(start, goal, answer),
        ensures
            !self.reachable(start, goal),
            answer.is_none(),
    {
        if let Some(path) = answer {
            assert(self.is_walk_between(path, start, goal));
        }
    }
}

impl Board {
    /// The cells to which one step leads across different sides are different
    /// cells.
    pub proof fn lemma_exits_distinct(&self, from: Position, sides: Seq<Side>)
        requires
            sides.no_duplicates(),
        ensures
            self.exits(from, sides).no_duplicates(),
        decreases sides.len(),
    {
        if sides.len() > 0 {
            let rest = sides.drop_last();
            let last = sides.last();
            let to = toward(from, last);
            let before = self.exits(from, rest);
            assert(rest.no_duplicates()) by {
                assert forall|i: int, j: int|
                    0 <= i < rest.len() && 0 <= j < rest.len() && i != j implies rest[i]
                    != rest[j] by {
                    assert(sides[i] != sides[j]);
                }
            }
            self.lemma_exits_distinct(from, rest);
            if self.steps(from, last, to) {
                self.lemma_exits(from, rest, to);
                if before.contains(to) {
                    let k = choose|k: int|
                        0 <= k < rest.len() && self.steps(from, #[trigger] rest[k], to);
                    assert(sides[k] == sides[sides.len() - 1]);
                }
                assert forall|i: int, j: int|
                    0 <= i < before.len() + 1 && 0 <= j < before.len() + 1 && i
                        != j implies before.push(to)[i] != before.push(to)[j] by {
                    if i < before.len() && j < before.len() {
                        assert(before[i] != before[j]);
                    } else if i < before.len() {
                        assert(before.contains(before[i]));
                    } else {
                        assert(before.contains(before[j]));
                    }
                }
            }
        }
    }

    /// No cell is twice among the neighbours of a cell.
    pub proof fn lemma_neighbours_distinct(&self, from: Position)
        ensures
            self.neighbours_of(from).no_duplicates(),
    {
        if self.has_tile(from) {
            let tile = self.tile(from);
            lemma_open_sides_distinct(tile.variant(), tile.rotation());
            self.lemma_exits_distinct(from, tile.connection());
        }
    }

    /// Two searches breadth first from one start that agree on the cells
    /// before the place `k` of their orders agree on the cell in that place
    /// too, and on the cell from which it was met.
    proof fn lemma_search_step(
        &self,
        start: Position,
        oa: Seq<Position>,
        pa: Seq<usize>,
        da: Seq<int>,
        la: int,
        ob: Seq<Position>,
        pb: Seq<usize>,
        db: Seq<int>,
        lb: int,
        k: int,
    )
        requires
            self.is_breadth_first(start, oa, pa, da, la),
            self.is_breadth_first(start, ob, pb, db, lb),
            1 <= k < oa.len(),
            k < ob.len(),
            forall|i: int| 0 <= i < k ==> #[trigger] oa[i] == ob[i],
            pa[k] <= pb[k],
        ensures
            oa[k] == ob[k],
            pa[k] == pb[k],
    {
        let ja = pa[k] as int;
        let jb = pb[k] as int;
        let qa = oa[k];
        let qb = ob[k];
        assert(ja < k && self.linked(oa[ja], qa));
        assert(jb < k && self.linked(ob[jb], qb));
        assert(oa[ja] == ob[ja]);
        assert(oa[jb] == ob[jb]);
        assert(jb <= lb && ja <= la);

        assert(self.linked(ob[ja], qa));
        assert(met_within(ob, db, qa, db[ja] + 1));
        let m = choose|m: int| 0 <= m < ob.len() && #[trigger] ob[m] == qa && db[m] <= db[ja] + 1;
        if m < k {
            assert(oa[m] == ob[m]);
            assert(oa[m] == oa[k]);
            assert(false);
        }
        if m == k {
            if ja < jb {
                assert(!self.linked(ob[ja], ob[k]));
                assert(false);
            }
        } else {
            assert(self.met_in_turn(ob, pb, k, m));
            let jm = pb[m] as int;
            assert(jm < m && self.linked(ob[jm], ob[m]));
            if ja < jm {
                assert(!self.linked(ob[ja], ob[m]));
                assert(false);
            }
            assert(jb == jm && ja == jb);
            let list = self.neighbours_of(ob[jb]);
            let (ia, ib) = choose|i: int, j: int|
                0 <= i < j < list.len() && #[trigger] list[i] == ob[k] && #[trigger] list[j]
                    == ob[m];

            assert(self.linked(oa[ja], qb));
            assert(met_within(oa, da, qb, da[ja] + 1));
            let n = choose|n: int|
                0 <= n < oa.len() && #[trigger] oa[n] == qb && da[n] <= da[ja] + 1;
            if n < k {
                assert(ob[n] == oa[n]);
                assert(ob[n] == ob[k]);
                assert(false);
            }
            if n == k {
                assert(ob[k] == ob[m]);
                assert(false);
            }
            assert(self.met_in_turn(oa, pa, k, n));
            let jn = pa[n] as int;
            assert(jn < n && self.linked(oa[jn], oa[n]));
            if ja < jn {
                assert(!self.linked(oa[ja], oa[n]));
                assert(false);
            }
            assert(jn == ja);
            let same = self.neighbours_of(oa[ja]);
            assert(same == list);
            let (ic, id) = choose|i: int, j: int|
                0 <= i < j < same.len() && #[trigger] same[i] == oa[k] && #[trigger] same[j]
                    == oa[n];
            self.lemma_neighbours_distinct(oa[ja]);
            assert(list[ib] == list[ic]);
            assert(list[ia] == list[id]);
            assert(ib == ic && ia == id);
            assert(false);
        }
    }

    /// Two searches breadth first from one start agree on their orders as far
    /// as both go.
    proof fn lemma_search_agrees(
        &self,
        start: Position,
        oa: Seq<Position>,
        pa: Seq<usize>,
        da: Seq<int>,
        la: int,
        ob: Seq<Position>,
        pb: Seq<usize>,
        db: Seq<int>,
        lb: int,
        k: int,
    )
        requires
            self.is_breadth_first(start, oa, pa, da, la),
            self.is_breadth_first(start, ob, pb, db, lb),
            0 <= k < oa.len(),
            k < ob.len(),
        ensures
            forall|i: int| 0 <= i <= k ==> #[trigger] oa[i] == ob[i],
            forall|i: int| 1 <= i <= k ==> #[trigger] pa[i] == pb[i],
        decreases k,
    {
        if k > 0 {
            self.lemma_search_agrees(start, oa, pa, da, la, ob, pb, db, lb, k - 1);
            if pa[k] <= pb[k] {
                self.lemma_search_step(start, oa, pa, da, la, ob, pb, db, lb, k);
            } else {
                assert forall|i: int| 0 <= i < k implies #[trigger] ob[i] == oa[i] by {
                    assert(oa[i] == ob[i]);
                }
                self.lemma_search_step(start, ob, pb, db, lb, oa, pa, da, la, k);
            }
        }
    }

    /// Searches that agree up to a place agree on the way to the cell there.
    proof fn lemma_branch_agrees(
        oa: Seq<Position>,
        pa: Seq<usize>,
        ob: Seq<Position>,
        pb: Seq<usize>,
        k: int,
    )
        requires
            0 <= k < oa.len(),
            k < ob.len(),
            pa.len() == oa.len(),
            pb.len() == ob.len(),
            forall|i: int| 0 <= i <= k ==> #[trigger] oa[i] == ob[i],
            forall|i: int| 1 <= i <= k ==> #[trigger] pa[i] == pb[i],
            forall|i: int| 1 <= i <= k ==> (#[trigger] pa[i]) < i,
        ensures
            branch(oa, pa, k) == branch(ob, pb, k),
        decreases k,
    {
        assert(oa[0] == ob[0]);
        if k > 0 {
            assert(pa[k] == pb[k] && pa[k] < k);
            assert(oa[k] == ob[k]);
            Self::lemma_branch_agrees(oa, pa, ob, pb, pa[k] as int);
        }
    }

    /// Of two searches from one start that end at one goal, the one that
    /// looked at fewer cells found the same way as the other.
    proof fn lemma_same_branch(
        &self,
        start: Position,
        oa: Seq<Position>,
        pa: Seq<usize>,
        da: Seq<int>,
        ga: int,
        ob: Seq<Position>,
        pb: Seq<usize>,
        db: Seq<int>,
        gb: int,
    )
        requires
            self.is_breadth_first(start, oa, pa, da, ga),
            self.is_breadth_first(start, ob, pb, db, gb),
            oa[ga] == ob[gb],
            ga <= gb,
        ensures
            branch(oa, pa, ga) == branch(ob, pb, gb),
    {
        self.lemma_search_agrees(start, oa, pa, da, ga, ob, pb, db, gb, ga);
        assert(oa[ga] == ob[ga]);
        assert(ga == gb);
        assert forall|i: int| 1 <= i <= ga implies (#[trigger] pa[i]) < i by {}
        Self::lemma_branch_agrees(oa, pa, ob, pb, ga);
    }

    /// The way that a search breadth first finds from `start` to `goal` is
    /// determined: there is one such way at most.
    pub proof fn lemma_search_path_is_determined(
        &self,
        start: Position,
        goal: Position,
        one: Seq<Position>,
        other: Seq<Position>,
    )
        requires
            self.is_search_path(start, goal, one),
            self.is_search_path(start, goal, other),
        ensures
            one == other,
    {
        let (oa, pa, da, ga) = choose|
            order: Seq<Position>,
            parent: Seq<usize>,
            depths: Seq<int>,
            g: int,
        |
            #[trigger] self.is_breadth_first(start, order, parent, depths, g) && order[g] == goal
                && one == branch(order, parent, g);
        let (ob, pb, db, gb) = choose|
            order: Seq<Position>,
            parent: Seq<usize>,
            depths: Seq<int>,
            g: int,
        |
            #[trigger] self.is_breadth_first(start, order, parent, depths, g) && order[g] == goal
                && other == branch(order, parent, g);
        if ga <= gb {
            self.lemma_same_branch(start, oa, pa, da, ga, ob, pb, db, gb);
        } else {
            self.lemma_same_branch(start, ob, pb, db, gb, oa, pa, da, ga);
        }
    }

    /// The order in which a search breadth first from `start` meets the cells
    /// is determined: there is one such order at most.
    pub proof fn lemma_search_order_is_determined(
        &self,
        start: Position,
        one: Seq<Position>,
        other: Seq<Position>,
    )
        requires
            self.is_search_order(start, one),
            self.is_search_order(start, other),
        ensures
            one == other,
    {
        let (pa, da) = choose|parent: Seq<usize>, depths: Seq<int>| #[trigger]
            self.is_breadth_first(start, one, parent, depths, one.len() - 1);
        let (pb, db) = choose|parent: Seq<usize>, depths: Seq<int>| #[trigger]
            self.is_breadth_first(start, other, parent, depths, other.len() - 1);
        if one.len() <= other.len() {
            self.lemma_search_ends(start, one, pa, da, other, pb, db);
        } else {
            self.lemma_search_ends(start, other, pb, db, one, pa, da);
        }
        assert(one =~= other);
    }

    /// Of two searches from one start that looked at every cell that they met,
    /// the shorter one met all that the other met.
    proof fn lemma_search_ends(
        &self,
        start: Position,
        oa: Seq<Position>,
        pa: Seq<usize>,
        da: Seq<int>,
        ob: Seq<Position>,
        pb: Seq<usize>,
        db: Seq<int>,
    )
        requires
            self.is_breadth_first(start, oa, pa, da, oa.len() - 1),
            self.is_breadth_first(start, ob, pb, db, ob.len() - 1),
            oa.len() <= ob.len(),
        ensures
            oa.len() == ob.len(),
            forall|i: int| 0 <= i < oa.len() ==> #[trigger] oa[i] == ob[i],
    {
        let n = oa.len() as int;
        self.lemma_search_agrees(start, oa, pa, da, n - 1, ob, pb, db, ob.len() - 1, n - 1);
        if n < ob.len() {
            let j = pb[n] as int;
            assert(j < n && self.linked(ob[j], ob[n]));
            assert(oa[j] == ob[j]);
            assert(self.linked(oa[j], ob[n]));
            assert(met_within(oa, da, ob[n], da[j] + 1));
            let m = choose|m: int|
                0 <= m < oa.len() && #[trigger] oa[m] == ob[n] && da[m] <= da[j] + 1;
            assert(oa[m] == ob[m]);
            assert(ob[m] == ob[n]);
            assert(false);
        }
    }
}

} // verus!
