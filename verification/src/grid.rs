//! Geometry of the grid: how a linear index relates to a column and a
//! row, and which indices lie around a cell.
//!
//! The eight places around a cell are numbered clockwise from north:
//!
//! ```text
//! 7 0 1
//! 6 . 2
//! 5 4 3
//! ```

use vstd::arithmetic::div_mod::{lemma_fundamental_div_mod, lemma_fundamental_div_mod_converse};
use vstd::prelude::*;

verus! {

/// Stands for "no cell there". It is larger than every index of a grid,
/// and one below the largest number, so that a step up or down from it
/// does not wrap around.
pub const NO_INDEX: usize = usize::MAX - 1;

/// Column offset of place `k`.
pub open spec fn dx(k: int) -> int {
    if 1 <= k <= 3 {
        1
    } else if 5 <= k <= 7 {
        -1
    } else {
        0
    }
}

/// Row offset of place `k`.
pub open spec fn dy(k: int) -> int {
    if k == 7 || k == 0 || k == 1 {
        -1
    } else if 3 <= k <= 5 {
        1
    } else {
        0
    }
}

/// Column of index `i` in a grid `w` wide.
pub open spec fn col(i: int, w: int) -> int {
    i % w
}

/// Row of index `i` in a grid `w` wide.
pub open spec fn row(i: int, w: int) -> int {
    i / w
}

/// Index of the cell in column `x` of row `y`, if the grid has one.
pub open spec fn index_at(x: int, y: int, w: int, h: int) -> Option<int> {
    if 0 <= x < w && 0 <= y < h {
        Some(y * w + x)
    } else {
        None
    }
}

/// What stands at place `k` around index `i`: the index of the cell
/// there, or `NO_INDEX` where the grid ends or `i` is no cell itself.
pub open spec fn around_slot(i: int, w: int, h: int, k: int) -> int {
    if 0 <= i < w * h {
        match index_at(col(i, w) + dx(k), row(i, w) + dy(k), w, h) {
            Some(j) => j,
            None => NO_INDEX as int,
        }
    } else {
        NO_INDEX as int
    }
}

/// The eight places around index `i`, clockwise from north.
pub open spec fn around(i: int, w: int, h: int) -> Seq<int> {
    Seq::new(8, |k: int| around_slot(i, w, h, k))
}

/// `j` is a cell of the grid that stands at one of the places around `i`.
pub open spec fn is_neighbor(i: int, j: int, w: int, h: int) -> bool {
    exists|k: int| 0 <= k < 8 && #[trigger] around_slot(i, w, h, k) == j && 0 <= j < w * h
}

/// `i` and `j` are two different cells no more than one column and one
/// row apart.
pub open spec fn adjacent(i: int, j: int, w: int, h: int) -> bool {
    &&& 0 <= i < w * h
    &&& 0 <= j < w * h
    &&& i != j
    &&& -1 <= col(j, w) - col(i, w) <= 1
    &&& -1 <= row(j, w) - row(i, w) <= 1
}

/// How many of the places `0..k` around `i` hold a cell.
pub open spec fn count_valid(i: int, w: int, h: int, k: int) -> int
    decreases k,
{
    if k <= 0 {
        0
    } else {
        count_valid(i, w, h, k - 1) + if around_slot(i, w, h, k - 1) < w * h {
            1int
        } else {
            0int
        }
    }
}

/// `i` lies in the first or last column.
pub open spec fn on_side(i: int, w: int) -> bool {
    col(i, w) == 0 || col(i, w) == w - 1
}

/// `i` lies in the first or last row.
pub open spec fn on_end(i: int, w: int, h: int) -> bool {
    row(i, w) == 0 || row(i, w) == h - 1
}

/// A valid index has a column and a row inside the grid, and is made of
/// them.
pub proof fn lemma_coords(i: int, w: int, h: int)
    requires
        0 <= i < w * h,
        0 < w,
    ensures
        0 <= col(i, w) < w,
        0 <= row(i, w) < h,
        i == row(i, w) * w + col(i, w),
{
    lemma_fundamental_div_mod(i, w);
    let y = i / w;
    assert(w * y == y * w) by (nonlinear_arith);
    if y >= h {
        assert(y * w >= h * w) by (nonlinear_arith)
            requires
                y >= h,
                w > 0,
        ;
        assert(h * w == w * h) by (nonlinear_arith);
    }
    if y < 0 {
        assert(y * w <= -w) by (nonlinear_arith)
            requires
                y <= -1,
                w > 0,
        ;
    }
}

/// A column and a row inside the grid make a valid index, which has
/// that column and that row.
pub proof fn lemma_index(x: int, y: int, w: int, h: int)
    requires
        0 <= x < w,
        0 <= y < h,
    ensures
        0 <= y * w + x < w * h,
        col(y * w + x, w) == x,
        row(y * w + x, w) == y,
{
    assert(y * w + x < w * h && y * w >= 0) by (nonlinear_arith)
        requires
            0 <= x < w,
            0 <= y < h,
    ;
    assert(w * y == y * w) by (nonlinear_arith);
    lemma_fundamental_div_mod_converse(y * w + x, w, y, x);
}

/// A place around a valid index holds either `NO_INDEX` or a valid
/// index one step away, and it holds a valid index exactly when the
/// step stays inside the grid.
pub proof fn lemma_around_slot(i: int, w: int, h: int, k: int)
    requires
        0 <= i < w * h,
        w * h <= NO_INDEX,
        0 < w,
        0 <= k < 8,
    ensures
        around_slot(i, w, h, k) == NO_INDEX || (0 <= around_slot(i, w, h, k) < w * h),
        around_slot(i, w, h, k) < w * h <==> index_at(
            col(i, w) + dx(k),
            row(i, w) + dy(k),
            w,
            h,
        ) is Some,
        around_slot(i, w, h, k) < w * h ==> {
            &&& around_slot(i, w, h, k) == i + dy(k) * w + dx(k)
            &&& col(around_slot(i, w, h, k), w) == col(i, w) + dx(k)
            &&& row(around_slot(i, w, h, k), w) == row(i, w) + dy(k)
            &&& adjacent(i, around_slot(i, w, h, k), w, h)
        },
{
    lemma_coords(i, w, h);
    let x = col(i, w) + dx(k);
    let y = row(i, w) + dy(k);
    if index_at(x, y, w, h) is Some {
        lemma_index(x, y, w, h);
        assert(y * w + x == i + dy(k) * w + dx(k)) by (nonlinear_arith)
            requires
                i == row(i, w) * w + col(i, w),
                x == col(i, w) + dx(k),
                y == row(i, w) + dy(k),
        ;
        assert(dx(k) != 0 || dy(k) != 0);
    }
}

/// The cells that stand around `i` are the cells adjacent to `i`.
pub proof fn lemma_neighbor_is_adjacent(i: int, j: int, w: int, h: int)
    requires
        0 <= i < w * h,
        w * h <= NO_INDEX,
        0 < w,
    ensures
        is_neighbor(i, j, w, h) <==> adjacent(i, j, w, h),
{
    if is_neighbor(i, j, w, h) {
        let k = choose|k: int| 0 <= k < 8 && #[trigger] around_slot(i, w, h, k) == j;
        lemma_around_slot(i, w, h, k);
    }
    if adjacent(i, j, w, h) {
        lemma_coords(i, w, h);
        lemma_coords(j, w, h);
        let ex = col(j, w) - col(i, w);
        let ey = row(j, w) - row(i, w);
        let k: int = if ey == -1 {
            if ex == -1 {
                7
            } else if ex == 0 {
                0
            } else {
                1
            }
        } else if ey == 0 {
            if ex == -1 {
                6
            } else {
                2
            }
        } else {
            if ex == -1 {
                5
            } else if ex == 0 {
                4
            } else {
                3
            }
        };
        assert(dx(k) == ex && dy(k) == ey);
        assert(around_slot(i, w, h, k) == j);
    }
}

/// If `j` stands around `i`, then `i` stands around `j`.
pub proof fn lemma_neighbor_symmetry(i: int, j: int, w: int, h: int)
    requires
        0 <= i < w * h,
        w * h <= NO_INDEX,
        0 < w,
        is_neighbor(i, j, w, h),
    ensures
        is_neighbor(j, i, w, h),
{
    lemma_neighbor_is_adjacent(i, j, w, h);
    assert(adjacent(j, i, w, h));
    lemma_neighbor_is_adjacent(j, i, w, h);
}

/// On a grid at least two wide and two high, a corner has three cells
/// around it, any other cell of the border five, and a cell inside
/// eight.
pub proof fn lemma_neighbor_count(i: int, w: int, h: int)
    requires
        0 <= i < w * h,
        w * h <= NO_INDEX,
        2 <= w,
        2 <= h,
    ensures
        on_side(i, w) && on_end(i, w, h) ==> count_valid(i, w, h, 8) == 3,
        on_side(i, w) != on_end(i, w, h) ==> count_valid(i, w, h, 8) == 5,
        !on_side(i, w) && !on_end(i, w, h) ==> count_valid(i, w, h, 8) == 8,
{
    reveal_with_fuel(count_valid, 9);
    lemma_coords(i, w, h);
    lemma_around_slot(i, w, h, 0);
    lemma_around_slot(i, w, h, 1);
    lemma_around_slot(i, w, h, 2);
    lemma_around_slot(i, w, h, 3);
    lemma_around_slot(i, w, h, 4);
    lemma_around_slot(i, w, h, 5);
    lemma_around_slot(i, w, h, 6);
    lemma_around_slot(i, w, h, 7);
}

/// A cell lies in the first row exactly when its index is below the
/// width, and in the last row exactly when a step of one width leaves
/// the grid.
pub proof fn lemma_rows(i: int, w: int, h: int)
    requires
        0 <= i < w * h,
        0 < w,
    ensures
        i < w <==> row(i, w) == 0,
        i >= w * h - w <==> row(i, w) == h - 1,
{
    lemma_coords(i, w, h);
    let y = i / w;
    let x = i % w;
    assert(i < w <==> y == 0) by (nonlinear_arith)
        requires
            i == y * w + x,
            0 <= x < w,
            0 <= y,
    ;
    assert(i >= w * h - w <==> y == h - 1) by (nonlinear_arith)
        requires
            i == y * w + x,
            0 <= x < w,
            0 <= y < h,
    ;
}

/// What stands at place `k` around a valid index, told from the index
/// alone: whether the cell touches the border on that side, and if not,
/// the index one step away.
pub open spec fn slot_by_index(i: int, w: int, h: int, k: int) -> int {
    let top = i < w;
    let bottom = i >= w * h - w;
    let left = i % w == 0;
    let right = i % w + 1 == w;
    if (dy(k) == -1 && top) || (dy(k) == 1 && bottom) || (dx(k) == -1 && left) || (dx(k) == 1
        && right) {
        NO_INDEX as int
    } else {
        i + (if dy(k) == -1 {
            -w
        } else if dy(k) == 1 {
            w
        } else {
            0
        }) + dx(k)
    }
}

/// The two ways of telling what stands at a place agree.
pub proof fn lemma_slot_by_index(i: int, w: int, h: int, k: int)
    requires
        0 <= i < w * h,
        w * h <= NO_INDEX,
        0 < w,
        0 <= k < 8,
    ensures
        around_slot(i, w, h, k) == slot_by_index(i, w, h, k),
{
    lemma_coords(i, w, h);
    lemma_rows(i, w, h);
    lemma_around_slot(i, w, h, k);
    assert((-1) * w == -w && 1 * w == w && 0 * w == 0) by (nonlinear_arith);
}

/// If a cell `j` of the grid is among the eight places around `i`, then
/// `i` is among the eight places around `j`.
pub proof fn lemma_around_symmetry(i: int, j: int, w: int, h: int)
    requires
        0 <= i < w * h,
        0 <= j < w * h,
        w * h <= NO_INDEX,
        0 < w,
        around(i, w, h).contains(j),
    ensures
        around(j, w, h).contains(i),
{
    let k = choose|k: int| 0 <= k < around(i, w, h).len() && around(i, w, h)[k] == j;
    assert(around_slot(i, w, h, k) == j);
    assert(is_neighbor(i, j, w, h));
    lemma_neighbor_symmetry(i, j, w, h);
    let n = choose|n: int| 0 <= n < 8 && #[trigger] around_slot(j, w, h, n) == i;
    assert(around(j, w, h)[n] == i);
}

/// On a grid at least two wide and two high the corners are the first
/// and the last cell of the first and of the last row, and they are the
/// cells with three cells around them.
pub proof fn lemma_corner_index(i: int, w: int, h: int)
    requires
        0 <= i < w * h,
        w * h <= NO_INDEX,
        2 <= w,
        2 <= h,
    ensures
        (i == 0 || i == w - 1 || i == w * h - w || i == w * h - 1) <==> on_side(i, w) && on_end(
            i,
            w,
            h,
        ),
        (i == 0 || i == w - 1 || i == w * h - w || i == w * h - 1) <==> count_valid(i, w, h, 8)
            == 3,
{
    lemma_coords(i, w, h);
    lemma_neighbor_count(i, w, h);
    lemma_index(0, 0, w, h);
    lemma_index(w - 1, 0, w, h);
    lemma_index(0, h - 1, w, h);
    lemma_index(w - 1, h - 1, w, h);
    assert(0 * w == 0 && (h - 1) * w == w * h - w) by (nonlinear_arith);
    let x = col(i, w);
    let y = row(i, w);
    if on_side(i, w) && on_end(i, w, h) {
        assert(i == y * w + x);
        if y == 0 {
            assert(y * w == 0);
        } else {
            assert(y * w == w * h - w);
        }
    }
}

} // verus!
