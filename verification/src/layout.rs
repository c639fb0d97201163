//! The geometry of the board: which cells are fixed, which carry an item from
//! the start, and how many cells of each kind a board has.
//!
//! Cells are counted row by row. The cell in column `x` and row `y` of a board
//! of side `s` has the index `x + y * s`.

use vstd::arithmetic::div_mod::{
    lemma_fundamental_div_mod_converse_div,
    lemma_fundamental_div_mod_converse_mod,
};
use vstd::prelude::*;

verus! {

/// A board has an odd side of at least 3.
#[verifier::inline]
pub open spec fn valid_side_length(s: int) -> bool {
    s >= 3 && s % 2 == 1
}

/// Half of the side length, rounded up: the number of even coordinates.
#[verifier::inline]
pub open spec fn half_up(s: int) -> int {
    s / 2 + 1
}

/// A fixed cell never moves: its column and its row are both even.
pub open spec fn is_fixed(x: int, y: int) -> bool {
    x % 2 == 0 && y % 2 == 0
}

/// The four corners of a board of side `s`.
pub open spec fn is_corner(s: int, x: int, y: int) -> bool {
    (x == 0 || x == s - 1) && (y == 0 || y == s - 1)
}

/// A fixed cell that does not touch the edge of the board.
pub open spec fn is_inner(s: int, x: int, y: int) -> bool {
    is_fixed(x, y) && 0 < x < s - 1 && 0 < y < s - 1
}

/// A fixed cell that carries an item: every fixed cell but the corners.
pub open spec fn is_item_cell(s: int, x: int, y: int) -> bool {
    is_fixed(x, y) && !is_corner(s, x, y)
}

/// The fixed cells, as a set of cells.
pub open spec fn fixed_cells() -> spec_fn(int, int) -> bool {
    |x: int, y: int| is_fixed(x, y)
}

/// The cells that can move.
pub open spec fn movable_cells() -> spec_fn(int, int) -> bool {
    |x: int, y: int| !is_fixed(x, y)
}

/// The corners.
pub open spec fn corner_cells(s: int) -> spec_fn(int, int) -> bool {
    |x: int, y: int| is_corner(s, x, y)
}

/// The inner fixed cells.
pub open spec fn inner_cells(s: int) -> spec_fn(int, int) -> bool {
    |x: int, y: int| is_inner(s, x, y)
}

/// The fixed cells that carry an item.
pub open spec fn item_cells(s: int) -> spec_fn(int, int) -> bool {
    |x: int, y: int| is_item_cell(s, x, y)
}

/// Every cell.
pub open spec fn all_cells() -> spec_fn(int, int) -> bool {
    |x: int, y: int| true
}

/// The even coordinates.
pub open spec fn evens() -> spec_fn(int) -> bool {
    |k: int| k % 2 == 0
}

/// The first and the last coordinate of a board of side `s`.
pub open spec fn ends(s: int) -> spec_fn(int) -> bool {
    |k: int| k == 0 || k == s - 1
}

/// How many of the cells with an index from `lo` up to, not including, `hi`
/// belong to `cells`.
pub open spec fn cells_in(cells: spec_fn(int, int) -> bool, s: int, lo: int, hi: int) -> nat
    decreases hi - lo,
{
    if lo >= hi {
        0
    } else {
        (if cells(lo % s, lo / s) {
            1nat
        } else {
            0nat
        }) + cells_in(cells, s, lo + 1, hi)
    }
}

/// How many of the coordinates from `lo` up to, not including, `hi` belong
/// to `coords`.
pub open spec fn tally(coords: spec_fn(int) -> bool, lo: int, hi: int) -> nat
    decreases hi - lo,
{
    if lo >= hi {
        0
    } else {
        (if coords(lo) {
            1nat
        } else {
            0nat
        }) + tally(coords, lo + 1, hi)
    }
}

/// The number of cells that can move among those with index `i` or more.
pub open spec fn movable_from(s: int, i: int) -> nat {
    cells_in(movable_cells(), s, i, s * s)
}

/// The number of fixed cells with an item among those with index `i` or more.
pub open spec fn item_cells_from(s: int, i: int) -> nat {
    cells_in(item_cells(s), s, i, s * s)
}

/// The number of inner fixed cells with an index below `i`.
pub open spec fn inner_before(s: int, i: int) -> nat {
    cells_in(inner_cells(s), s, 0, i)
}

/// The number of fixed cells of a board with the odd side `s`: half the side,
/// rounded up, squared. That is a quarter of the square of `s + 1`.
#[verifier::inline]
pub open spec fn fixed_count(s: int) -> int {
    (s + 1) * (s + 1) / 4
}

/// The number of cells of a board with the odd side `s` that can move.
#[verifier::inline]
pub open spec fn movable_count(s: int) -> int {
    s * s - fixed_count(s)
}

/// The number of items on a board with the odd side `s`: two for every fixed
/// cell that is not a corner.
#[verifier::inline]
pub open spec fn number_of_items(s: int) -> int {
    2 * (fixed_count(s) - 4)
}

/// For an odd side, the number of fixed cells is the square of half the side,
/// rounded up, so the number of items is `2 * ((s / 2 + 1)² - 4)`.
pub proof fn lemma_fixed_count(s: int)
    requires
        s % 2 == 1,
    ensures
        fixed_count(s) == half_up(s) * half_up(s),
        number_of_items(s) == 2 * ((s / 2 + 1) * (s / 2 + 1) - 4),
{
    let h = s / 2 + 1;
    assert(s + 1 == 2 * h);
    assert((s + 1) * (s + 1) == 4 * (h * h)) by (nonlinear_arith)
        requires
            s + 1 == 2 * h,
    ;
}

/// The column and the row of a cell follow from its index.
pub proof fn lemma_cell_of_index(s: int, x: int, y: int)
    requires
        0 <= x < s,
    ensures
        (x + y * s) % s == x,
        (x + y * s) / s == y,
{
    lemma_fundamental_div_mod_converse_mod(x + y * s, s, y, x);
    lemma_fundamental_div_mod_converse_div(x + y * s, s, y, x);
}

/// What one cell adds to the counts: every count from the cell on, or up to
/// it, grows by one exactly when the cell is of the kind that is counted.
pub proof fn lemma_cell_step(s: int, x: int, y: int)
    requires
        0 <= x < s,
        0 <= y < s,
    ensures
        0 <= x + y * s < s * s,
        (x + y * s) % s == x,
        (x + y * s) / s == y,
        movable_from(s, x + y * s) == movable_from(s, x + y * s + 1) + (if is_fixed(x, y) {
            0nat
        } else {
            1nat
        }),
        item_cells_from(s, x + y * s) == item_cells_from(s, x + y * s + 1) + (if is_item_cell(
            s,
            x,
            y,
        ) {
            1nat
        } else {
            0nat
        }),
        inner_before(s, x + y * s + 1) == inner_before(s, x + y * s) + (if is_inner(s, x, y) {
            1nat
        } else {
            0nat
        }),
{
    let i = x + y * s;
    lemma_cell_of_index(s, x, y);
    assert(0 <= y * s <= (s - 1) * s) by (nonlinear_arith)
        requires
            0 <= y <= s - 1,
            0 <= s,
    ;
    assert((s - 1) * s + s == s * s) by (nonlinear_arith);
    lemma_cells_in_extend(inner_cells(s), s, 0, i);
}

/// A count over a range is the sum of the counts over its two parts.
pub proof fn lemma_cells_in_split(
    cells: spec_fn(int, int) -> bool,
    s: int,
    lo: int,
    mid: int,
    hi: int,
)
    requires
        lo <= mid <= hi,
    ensures
        cells_in(cells, s, lo, hi) == cells_in(cells, s, lo, mid) + cells_in(cells, s, mid, hi),
    decreases mid - lo,
{
    if lo < mid {
        lemma_cells_in_split(cells, s, lo + 1, mid, hi);
    }
}

/// Counting one cell further adds that cell if it belongs.
pub proof fn lemma_cells_in_extend(cells: spec_fn(int, int) -> bool, s: int, lo: int, hi: int)
    requires
        lo <= hi,
    ensures
        cells_in(cells, s, lo, hi + 1) == cells_in(cells, s, lo, hi) + (if cells(hi % s, hi / s) {
            1nat
        } else {
            0nat
        }),
{
    lemma_cells_in_split(cells, s, lo, hi, hi + 1);
    assert(cells_in(cells, s, hi + 1, hi + 1) == 0);
}

/// Where every cell of `whole` lies in exactly one of `left` and `right`, the
/// counts add up.
pub proof fn lemma_cells_in_parts(
    whole: spec_fn(int, int) -> bool,
    left: spec_fn(int, int) -> bool,
    right: spec_fn(int, int) -> bool,
    s: int,
    lo: int,
    hi: int,
)
    requires
        forall|x: int, y: int| #[trigger] whole(x, y) <==> (left(x, y) || right(x, y)),
        forall|x: int, y: int| !(#[trigger] left(x, y) && right(x, y)),
    ensures
        cells_in(whole, s, lo, hi) == cells_in(left, s, lo, hi) + cells_in(right, s, lo, hi),
    decreases hi - lo,
{
    if lo < hi {
        lemma_cells_in_parts(whole, left, right, s, lo + 1, hi);
        assert(whole(lo % s, lo / s) <==> (left(lo % s, lo / s) || right(lo % s, lo / s)));
        assert(!(left(lo % s, lo / s) && right(lo % s, lo / s)));
    }
}

/// Where a cell belongs exactly when its column is in `columns` and its row in
/// `rows`, the count from a cell on is a product of two tallies, plus what is
/// left of that cell's own row.
pub proof fn lemma_cells_in_grid(
    cells: spec_fn(int, int) -> bool,
    columns: spec_fn(int) -> bool,
    rows: spec_fn(int) -> bool,
    s: int,
    x: int,
    y: int,
)
    requires
        forall|x: int, y: int| #[trigger] cells(x, y) <==> (columns(x) && rows(y)),
        0 <= x <= s,
        0 <= y < s,
    ensures
        cells_in(cells, s, x + y * s, s * s) == tally(rows, y + 1, s) * tally(columns, 0, s) + (
        if rows(y) {
            tally(columns, x, s)
        } else {
            0nat
        }),
    decreases s - y, s - x,
{
    let i = x + y * s;
    let width = tally(columns, 0, s);
    if x == s {
        assert(tally(columns, s, s) == 0);
        assert(i == 0 + (y + 1) * s) by (nonlinear_arith)
            requires
                i == x + y * s,
                x == s,
        ;
        if y + 1 == s {
            assert(tally(rows, s, s) == 0);
            assert(cells_in(cells, s, s * s, s * s) == 0);
            assert(0 * width == 0);
        } else {
            lemma_cells_in_grid(cells, columns, rows, s, 0, y + 1);
            let below = tally(rows, y + 2, s);
            assert(tally(rows, y + 1, s) == (if rows(y + 1) {
                1nat
            } else {
                0nat
            }) + below);
            assert((1 + below) * width == width + below * width) by (nonlinear_arith);
        }
    } else {
        lemma_cell_of_index(s, x, y);
        lemma_cells_in_grid(cells, columns, rows, s, x + 1, y);
        assert(i < s * s) by (nonlinear_arith)
            requires
                i == x + y * s,
                0 <= x < s,
                0 <= y < s,
        ;
        assert(cells(x, y) <==> (columns(x) && rows(y)));
        assert(cells_in(cells, s, i, s * s) == (if cells(i % s, i / s) {
            1nat
        } else {
            0nat
        }) + cells_in(cells, s, i + 1, s * s));
    }
}

/// Of the coordinates from `lo` to the end of an odd side, every second one
/// is even, the last one among them.
pub proof fn lemma_tally_evens(s: int, lo: int)
    requires
        s % 2 == 1,
        0 <= lo <= s,
    ensures
        tally(evens(), lo, s) == (s - lo + 1) / 2,
    decreases s - lo,
{
    if lo < s {
        lemma_tally_evens(s, lo + 1);
    }
}

/// A side of two or more cells has two ends.
pub proof fn lemma_tally_ends(s: int, lo: int)
    requires
        s >= 2,
        0 <= lo <= s,
    ensures
        tally(ends(s), lo, s) == (if lo == 0 {
            2nat
        } else if lo < s {
            1nat
        } else {
            0nat
        }),
    decreases s - lo,
{
    if lo < s {
        lemma_tally_ends(s, lo + 1);
    }
}

/// A range of indices holds as many cells as it is long.
pub proof fn lemma_cells_in_all(s: int, lo: int, hi: int)
    requires
        lo <= hi,
    ensures
        cells_in(all_cells(), s, lo, hi) == hi - lo,
    decreases hi - lo,
{
    if lo < hi {
        lemma_cells_in_all(s, lo + 1, hi);
    }
}

/// The coordinates of the inner fixed cells: the even ones but the first and
/// the last.
pub open spec fn inner_coords(s: int) -> spec_fn(int) -> bool {
    |k: int| k % 2 == 0 && 0 < k < s - 1
}

/// The number of fixed cells that come after the cell in column `x` and row
/// `y` in reading order: the fixed cells of the even rows below, and those of
/// the cell's own row to its right if that row is even.
pub open spec fn fixed_after(s: int, x: int, y: int) -> int {
    (s - y) / 2 * (s + 1) / 2 + (if y % 2 == 0 {
        (s - x) / 2
    } else {
        0
    })
}

/// The number of cells that can move and come after the cell in column `x`
/// and row `y` in reading order.
pub open spec fn movable_after(s: int, x: int, y: int) -> int {
    s * s - 1 - (x + y * s) - fixed_after(s, x, y)
}

/// The number of inner fixed cells that come before the inner fixed cell in
/// column `x` and row `y` in reading order: those of the inner even rows
/// above, and those of its own row to its left.
pub open spec fn inner_rank(s: int, x: int, y: int) -> int {
    (y / 2 - 1) * (s - 3) / 2 + (x / 2 - 1)
}

/// Of the coordinates from `lo` to the end of an odd side, those of inner
/// fixed cells are the even ones but the first and the last.
pub proof fn lemma_tally_inner(s: int, lo: int)
    requires
        valid_side_length(s),
        0 <= lo <= s,
    ensures
        tally(inner_coords(s), lo, s) == (if lo == 0 {
            (s + 1) / 2 - 2
        } else if lo == s {
            0
        } else {
            (s - lo + 1) / 2 - 1
        }),
    decreases s - lo,
{
    if lo < s {
        lemma_tally_inner(s, lo + 1);
    }
}

/// The closed forms count what they say: the fixed and the movable cells
/// after a cell.
pub proof fn lemma_movable_after(s: int, x: int, y: int)
    requires
        valid_side_length(s),
        0 <= x < s,
        0 <= y < s,
    ensures
        cells_in(fixed_cells(), s, x + y * s + 1, s * s) == fixed_after(s, x, y),
        movable_from(s, x + y * s + 1) == movable_after(s, x, y),
        0 <= movable_after(s, x, y) <= movable_count(s),
{
    let i = x + y * s;
    let h = (s + 1) / 2;
    lemma_cell_step(s, x, y);
    assert(x + 1 + y * s == i + 1);
    lemma_cells_in_grid(fixed_cells(), evens(), evens(), s, x + 1, y);
    lemma_tally_evens(s, y + 1);
    lemma_tally_evens(s, 0);
    lemma_tally_evens(s, x + 1);
    let rows = (s - y) / 2;
    assert(rows * (s + 1) / 2 == rows * h) by {
        assert(rows * (s + 1) == (rows * h) * 2) by (nonlinear_arith)
            requires
                s + 1 == 2 * h,
        ;
    }
    lemma_cells_in_parts(all_cells(), fixed_cells(), movable_cells(), s, i + 1, s * s);
    lemma_cells_in_all(s, i + 1, s * s);
    lemma_cell_counts(s);
    lemma_cells_in_split(movable_cells(), s, 0, i + 1, s * s);
}

/// The closed form counts what it says: the inner fixed cells before an inner
/// fixed cell.
pub proof fn lemma_inner_rank(s: int, x: int, y: int)
    requires
        valid_side_length(s),
        is_inner(s, x, y),
    ensures
        inner_before(s, x + y * s) == inner_rank(s, x, y),
{
    let i = x + y * s;
    let h = (s + 1) / 2;
    let a = y / 2;
    let b = x / 2;
    lemma_cell_step(s, x, y);
    assert(0 + 0 * s == 0);
    lemma_cells_in_grid(inner_cells(s), inner_coords(s), inner_coords(s), s, 0, 0);
    lemma_cells_in_grid(inner_cells(s), inner_coords(s), inner_coords(s), s, x, y);
    lemma_tally_inner(s, 0);
    lemma_tally_inner(s, 1);
    lemma_tally_inner(s, x);
    lemma_tally_inner(s, y + 1);
    lemma_cells_in_split(inner_cells(s), s, 0, i, s * s);
    let width = tally(inner_coords(s), 0, s) as int;
    let below = tally(inner_coords(s), y + 1, s) as int;
    let right = tally(inner_coords(s), x, s) as int;
    let all = tally(inner_coords(s), 1, s) as int;
    assert(width == h - 2);
    assert(all == h - 2);
    assert(below == h - a - 2);
    assert(right == h - b - 1);
    assert(all * width - (below * width + right) == (a - 1) * (h - 2) + (b - 1))
        by (nonlinear_arith)
        requires
            width == h - 2,
            all == h - 2,
            below == h - a - 2,
            right == h - b - 1,
    ;
    assert((a - 1) * (s - 3) / 2 == (a - 1) * (h - 2)) by {
        assert((a - 1) * (s - 3) == ((a - 1) * (h - 2)) * 2) by (nonlinear_arith)
            requires
                s - 3 == 2 * (h - 2),
        ;
    }
}

/// The numbers of cells of each kind on a whole board: a quarter of the
/// rounded-up square is fixed, four of those are corners, the other fixed cells
/// carry an item, and all remaining cells can move.
pub proof fn lemma_cell_counts(s: int)
    requires
        valid_side_length(s),
    ensures
        cells_in(fixed_cells(), s, 0, s * s) == fixed_count(s),
        cells_in(corner_cells(s), s, 0, s * s) == 4,
        item_cells_from(s, 0) == fixed_count(s) - 4,
        2 * item_cells_from(s, 0) == number_of_items(s),
        movable_from(s, 0) == movable_count(s),
        movable_count(s) >= number_of_items(s) / 2,
        fixed_count(s) == half_up(s) * half_up(s),
        4 <= fixed_count(s) <= s * s,
        half_up(s) >= 2,
{
    let h = half_up(s);
    lemma_fixed_count(s);
    assert(0 + 0 * s == 0);

    lemma_cells_in_grid(fixed_cells(), evens(), evens(), s, 0, 0);
    lemma_tally_evens(s, 0);
    lemma_tally_evens(s, 1);
    assert(tally(evens(), 0, s) == h);
    assert(tally(evens(), 1, s) == h - 1);
    assert((h - 1) * h + h == h * h) by (nonlinear_arith);

    lemma_cells_in_grid(corner_cells(s), ends(s), ends(s), s, 0, 0);
    lemma_tally_ends(s, 0);
    lemma_tally_ends(s, 1);
    assert(1 * 2 + 2 == 4);

    lemma_cells_in_parts(fixed_cells(), item_cells(s), corner_cells(s), s, 0, s * s);
    assert(0 <= s * s) by (nonlinear_arith);
    lemma_cells_in_parts(all_cells(), fixed_cells(), movable_cells(), s, 0, s * s);
    lemma_cells_in_all(s, 0, s * s);

    assert(s * s - h * h >= h * h - 4 && 4 <= h * h <= s * s) by (nonlinear_arith)
        requires
            2 * h == s + 1,
            s >= 3,
    ;
}

} // verus!
