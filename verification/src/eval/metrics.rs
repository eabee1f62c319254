//! Measures of a board that the evaluators weigh.

use crate::tetris::bit_board::BitBoard;
use crate::tetris::board::{
    column_height, filled, lemma_height_under_props, occupied_at, Board,
};
use vstd::prelude::*;

verus! {

/// The absolute difference of two numbers.
pub open spec fn gap(a: int, b: int) -> int {
    if a >= b {
        a - b
    } else {
        b - a
    }
}

/// The larger of two numbers.
pub open spec fn larger(a: int, b: int) -> int {
    if a >= b {
        a
    } else {
        b
    }
}

/// The height of the highest column left of `n`.
pub open spec fn max_height_of(b: Set<(int, int)>, n: int) -> int
    decreases n,
{
    if n <= 0 {
        0
    } else {
        larger(max_height_of(b, n - 1), column_height(b, n - 1))
    }
}

/// The number of free cells of column `x` below row `n`.
pub open spec fn holes_below(b: Set<(int, int)>, x: int, n: int) -> int
    decreases n,
{
    if n <= 0 {
        0
    } else {
        holes_below(b, x, n - 1) + if filled(b, x, n - 1) {
            0int
        } else {
            1int
        }
    }
}

/// The highest column has a height between 0 and 64.
pub proof fn lemma_max_height_bounds(b: Set<(int, int)>, n: int)
    requires
        0 <= n,
    ensures
        0 <= max_height_of(b, n) <= 64,
    decreases n,
{
    if n > 0 {
        lemma_max_height_bounds(b, n - 1);
        lemma_height_under_props(b, n - 1, 64);
    }
}

/// There are at most `n` free cells below row `n`.
pub proof fn lemma_holes_bounds(b: Set<(int, int)>, x: int, n: int)
    ensures
        0 <= holes_below(b, x, n),
        holes_below(b, x, n) <= larger(n, 0),
    decreases n,
{
    if n > 0 {
        lemma_holes_bounds(b, x, n - 1);
    }
}

/// The heights of the ten columns.
pub fn column_heights(board: &BitBoard) -> (r: [u32; 10])
    ensures
        forall|k: int|
            0 <= k < 10 ==> (#[trigger] r[k]) as int == column_height(board.blocks(), k) && r[k]
                <= 64,
{
    let mut r: [u32; 10] = [0, 0, 0, 0, 0, 0, 0, 0, 0, 0];
    let mut x: usize = 0;
    while x < 10
        invariant
            x <= 10,
            forall|k: int|
                0 <= k < x ==> (#[trigger] r[k]) as int == column_height(board.blocks(), k) && r[k]
                    <= 64,
        decreases 10 - x,
    {
        r[x] = board.height_of(x as i8);
        x = x + 1;
    }
    r
}

/// The height of the highest column.
pub fn highest(board: &BitBoard) -> (r: u32)
    ensures
        r as int == max_height_of(board.blocks(), 10),
        r <= 64,
{
    let mut m: u32 = 0;
    let mut x: usize = 0;
    while x < 10
        invariant
            x <= 10,
            m as int == max_height_of(board.blocks(), x as int),
            m <= 64,
        decreases 10 - x,
    {
        let h = board.height_of(x as i8);
        if h > m {
            m = h;
        }
        x = x + 1;
    }
    m
}

/// The square of a number.
pub open spec fn square(a: int) -> int {
    a * a
}

/// One if the condition holds, else zero.
pub open spec fn one_if(c: bool) -> int {
    if c {
        1
    } else {
        0
    }
}

/// The leftmost of the columns 1 to `n - 1` with the least height.
pub open spec fn well_among(b: Set<(int, int)>, n: int) -> int
    decreases n,
{
    if n <= 2 {
        1
    } else {
        let w = well_among(b, n - 1);
        if column_height(b, n - 1) < column_height(b, w) {
            n - 1
        } else {
            w
        }
    }
}

/// The well: the leftmost of the columns 1 to 9 with the least height.
pub open spec fn well_column(b: Set<(int, int)>) -> int {
    well_among(b, 10)
}

/// True if every cell of row `y` but that of the well holds a block, so that
/// a piece dropped into the well can clear the row.
pub open spec fn row_ready(b: Set<(int, int)>, well: int, y: int) -> bool {
    forall|x: int| 0 <= x < 10 && x != well ==> filled(b, x, y)
}

/// The number of rows in a row, from row `y` up, that are ready to be cleared
/// through the well.
pub open spec fn ready_rows(b: Set<(int, int)>, well: int, y: int) -> int
    decreases 64 - y,
{
    if y < 0 || y >= 64 || !row_ready(b, well, y) {
        0
    } else {
        1 + ready_rows(b, well, y + 1)
    }
}

/// The depth of the well: the number of rows in a row, from the floor of the
/// well up, that are ready to be cleared through it.
pub open spec fn well_depth(b: Set<(int, int)>) -> int {
    ready_rows(b, well_column(b), column_height(b, well_column(b)))
}

/// The height of the nearest column left of `x` that is not the well, or 0.
pub open spec fn left_height(b: Set<(int, int)>, well: int, x: int) -> int
    decreases x,
{
    if x <= 0 {
        0
    } else if x - 1 != well {
        column_height(b, x - 1)
    } else {
        left_height(b, well, x - 1)
    }
}

/// The step in height at column `x`, seen from the nearest column on its
/// left that is not the well; 0 at the well.
pub open spec fn bump_at(b: Set<(int, int)>, well: int, x: int) -> int {
    if x == well {
        0
    } else {
        gap(left_height(b, well, x), column_height(b, x))
    }
}

/// The sum of the steps in height at the columns left of `n`.
pub open spec fn bump_upto(b: Set<(int, int)>, well: int, n: int) -> int
    decreases n,
{
    if n <= 0 {
        0
    } else {
        bump_upto(b, well, n - 1) + bump_at(b, well, n - 1)
    }
}

/// The sum of the squares of the steps in height at the columns left of `n`.
pub open spec fn bump_sq_upto(b: Set<(int, int)>, well: int, n: int) -> int
    decreases n,
{
    if n <= 0 {
        0
    } else {
        bump_sq_upto(b, well, n - 1) + square(bump_at(b, well, n - 1))
    }
}

/// The largest difference in height between a column left of `n`, other than
/// the well, and its right neighbour.
pub open spec fn max_diff_upto(b: Set<(int, int)>, well: int, n: int) -> int
    decreases n,
{
    if n <= 0 {
        0
    } else if n - 1 == well {
        max_diff_upto(b, well, n - 1)
    } else {
        larger(max_diff_upto(b, well, n - 1), gap(column_height(b, n - 1), column_height(b, n)))
    }
}

/// True if the free cell (x, y) lies under an overhang: the neighbour column
/// on one side ends below it and the next column on that side at or below it.
pub open spec fn overhung(b: Set<(int, int)>, x: int, y: int) -> bool {
    (x > 1 && column_height(b, x - 1) <= y - 1 && column_height(b, x - 2) <= y) || (x < 8
        && column_height(b, x + 1) <= y - 1 && column_height(b, x + 2) <= y)
}

/// The number of free cells of column `x` below row `n` that are enclosed.
pub open spec fn cavities_col(b: Set<(int, int)>, x: int, n: int) -> int
    decreases n,
{
    if n <= 0 {
        0
    } else {
        cavities_col(b, x, n - 1) + one_if(!filled(b, x, n - 1) && !overhung(b, x, n - 1))
    }
}

/// The number of free cells of column `x` below row `n` under an overhang.
pub open spec fn overhangs_col(b: Set<(int, int)>, x: int, n: int) -> int
    decreases n,
{
    if n <= 0 {
        0
    } else {
        overhangs_col(b, x, n - 1) + one_if(!filled(b, x, n - 1) && overhung(b, x, n - 1))
    }
}

/// The enclosed free cells under the tops of the columns left of `n`.
pub open spec fn cavities_upto(b: Set<(int, int)>, n: int) -> int
    decreases n,
{
    if n <= 0 {
        0
    } else {
        cavities_upto(b, n - 1) + cavities_col(b, n - 1, column_height(b, n - 1))
    }
}

/// The free cells under an overhang, under the tops of the columns left of `n`.
pub open spec fn overhangs_upto(b: Set<(int, int)>, n: int) -> int
    decreases n,
{
    if n <= 0 {
        0
    } else {
        overhangs_upto(b, n - 1) + overhangs_col(b, n - 1, column_height(b, n - 1))
    }
}

/// The number of cells above the free cell (x, y), up to the top of the column.
pub open spec fn cover(b: Set<(int, int)>, x: int, y: int) -> int {
    if filled(b, x, y) {
        0
    } else {
        column_height(b, x) - y - 1
    }
}

/// The sum of the covers of the free cells of column `x` below row `n`.
pub open spec fn covered_col(b: Set<(int, int)>, x: int, n: int) -> int
    decreases n,
{
    if n <= 0 {
        0
    } else {
        covered_col(b, x, n - 1) + cover(b, x, n - 1)
    }
}

/// The sum of the squares of the covers of the free cells of column `x` below
/// row `n`.
pub open spec fn covered_sq_col(b: Set<(int, int)>, x: int, n: int) -> int
    decreases n,
{
    if n <= 0 {
        0
    } else {
        covered_sq_col(b, x, n - 1) + square(cover(b, x, n - 1))
    }
}

/// The rows of column `x` whose free cells count as covered: those with at
/// least two cells between them and the top of the column.
pub open spec fn covered_rows(b: Set<(int, int)>, x: int) -> int {
    larger(column_height(b, x), 3) - 3
}

/// The sum of the covers over the columns left of `n`.
pub open spec fn covered_upto(b: Set<(int, int)>, n: int) -> int
    decreases n,
{
    if n <= 0 {
        0
    } else {
        covered_upto(b, n - 1) + covered_col(b, n - 1, covered_rows(b, n - 1))
    }
}

/// The sum of the squares of the covers over the columns left of `n`.
pub open spec fn covered_sq_upto(b: Set<(int, int)>, n: int) -> int
    decreases n,
{
    if n <= 0 {
        0
    } else {
        covered_sq_upto(b, n - 1) + covered_sq_col(b, n - 1, covered_rows(b, n - 1))
    }
}

/// The number of places left of `n` in row `y` where a cell and its left
/// neighbour differ; the walls count as blocks.
pub open spec fn row_changes(b: Set<(int, int)>, y: int, n: int) -> int
    decreases n,
{
    if n <= 0 {
        0
    } else {
        row_changes(b, y, n - 1) + one_if(occupied_at(b, n - 2, y) != occupied_at(b, n - 1, y))
    }
}

/// The number of such places in the rows below `n`.
pub open spec fn transitions_upto(b: Set<(int, int)>, n: int) -> int
    decreases n,
{
    if n <= 0 {
        0
    } else {
        transitions_upto(b, n - 1) + row_changes(b, n - 1, 11)
    }
}

/// The height of the highest of the four columns in which a piece spawns.
pub open spec fn danger_height(b: Set<(int, int)>) -> int {
    larger(
        larger(column_height(b, 3), column_height(b, 4)),
        larger(column_height(b, 5), column_height(b, 6)),
    )
}

/// The product of a bounded measure and a bounded weight is bounded.
pub proof fn lemma_product_bound(a: int, w: int, amax: int, wmax: int)
    requires
        0 <= a <= amax,
        -wmax <= w <= wmax,
    ensures
        -(amax * wmax) <= a * w <= amax * wmax,
{
    assert(-(amax * wmax) <= a * w <= amax * wmax) by (nonlinear_arith)
        requires
            0 <= a <= amax,
            -wmax <= w <= wmax,
    ;
}

/// The square of a bounded number is bounded.
pub proof fn lemma_square_bound(a: int, amax: int)
    requires
        0 <= a <= amax,
    ensures
        0 <= a * a <= amax * amax,
{
    assert(0 <= a * a <= amax * amax) by (nonlinear_arith)
        requires
            0 <= a <= amax,
    ;
}

/// The well and its depth: the leftmost of the columns 1 to 9 with the least
/// height, and the number of rows in a row, from the floor of the well up,
/// that are full but for the cell of the well.
pub fn calc_well_x_and_depth(board: &BitBoard) -> (r: (i8, u32))
    ensures
        r.0 as int == well_column(board.blocks()),
        1 <= r.0 <= 9,
        r.1 as int == well_depth(board.blocks()),
        r.1 <= 64,
{
    let mut well: i8 = 1;
    let mut least: u32 = board.height_of(1);
    let mut x: i8 = 2;
    while x < 10
        invariant
            2 <= x <= 10,
            1 <= well < x,
            well as int == well_among(board.blocks(), x as int),
            least as int == column_height(board.blocks(), well as int),
            least <= 64,
        decreases 10 - x,
    {
        let h = board.height_of(x);
        if h < least {
            well = x;
            least = h;
        }
        x = x + 1;
    }
    let mut depth: u32 = 0;
    let mut y: u32 = least;
    while y < 64
        invariant
            least <= y <= 64,
            1 <= well <= 9,
            depth == y - least,
            ready_rows(board.blocks(), well as int, least as int) == depth + ready_rows(
                board.blocks(),
                well as int,
                y as int,
            ),
        ensures
            depth <= 64,
            ready_rows(board.blocks(), well as int, least as int) == depth,
        decreases 64 - y,
    {
        let mut ready = true;
        let mut x: i8 = 0;
        while x < 10
            invariant
                0 <= x <= 10,
                y < 64,
                ready == (forall|k: int|
                    0 <= k < x && k != well ==> filled(board.blocks(), k, y as int)),
            decreases 10 - x,
        {
            if x != well && !board.occupied((x, y as i8)) {
                ready = false;
            }
            x = x + 1;
        }
        if !ready {
            break ;
        }
        depth = depth + 1;
        y = y + 1;
    }
    (well, depth)
}

/// The bumpiness of the board and the sum of its squares: the steps in
/// height from column to column, leaving the well out and starting from the
/// floor.
pub fn calc_bumpiness(board: &BitBoard, well: i8) -> (r: (u32, u32))
    ensures
        r.0 as int == bump_upto(board.blocks(), well as int, 10),
        r.1 as int == bump_sq_upto(board.blocks(), well as int, 10),
        r.0 <= 640,
        r.1 <= 40960,
{
    let mut bumpiness: u32 = 0;
    let mut bumpiness_sq: u32 = 0;
    let mut prev: u32 = 0;
    let mut x: i8 = 0;
    while x < 10
        invariant
            0 <= x <= 10,
            prev as int == left_height(board.blocks(), well as int, x as int),
            prev <= 64,
            bumpiness as int == bump_upto(board.blocks(), well as int, x as int),
            bumpiness_sq as int == bump_sq_upto(board.blocks(), well as int, x as int),
            bumpiness <= 64 * x,
            bumpiness_sq <= 4096 * x,
        decreases 10 - x,
    {
        if x != well {
            let h = board.height_of(x);
            let dh: u32 = if prev >= h {
                prev - h
            } else {
                h - prev
            };
            proof {
                lemma_square_bound(dh as int, 64);
            }
            bumpiness = bumpiness + dh;
            bumpiness_sq = bumpiness_sq + dh * dh;
            prev = h;
        }
        x = x + 1;
    }
    (bumpiness, bumpiness_sq)
}

/// The largest difference in height between a column other than the well
/// and its right neighbour.
pub fn max_height_diff(board: &BitBoard, well: i8) -> (r: u32)
    ensures
        r as int == max_diff_upto(board.blocks(), well as int, 9),
        r <= 64,
{
    let mut most: u32 = 0;
    let mut x: i8 = 0;
    while x < 9
        invariant
            0 <= x <= 9,
            most as int == max_diff_upto(board.blocks(), well as int, x as int),
            most <= 64,
        decreases 9 - x,
    {
        if x != well {
            let a = board.height_of(x);
            let c = board.height_of(x + 1);
            let d: u32 = if a >= c {
                a - c
            } else {
                c - a
            };
            if d > most {
                most = d;
            }
        }
        x = x + 1;
    }
    most
}

/// The holes of the board: the free cells under the tops of the columns that
/// are enclosed (cavities), and those that lie under an overhang.
pub fn cavities_and_overhangs(board: &BitBoard) -> (r: (i32, i32))
    ensures
        r.0 as int == cavities_upto(board.blocks(), 10),
        r.1 as int == overhangs_upto(board.blocks(), 10),
        0 <= r.0,
        0 <= r.1,
        r.0 + r.1 <= 640,
{
    let heights = column_heights(board);
    let mut cavities: i32 = 0;
    let mut overhangs: i32 = 0;
    let mut x: usize = 0;
    while x < 10
        invariant
            x <= 10,
            cavities as int == cavities_upto(board.blocks(), x as int),
            overhangs as int == overhangs_upto(board.blocks(), x as int),
            0 <= cavities,
            0 <= overhangs,
            cavities + overhangs <= 64 * x,
            forall|k: int|
                0 <= k < 10 ==> (#[trigger] heights[k]) as int == column_height(board.blocks(), k)
                    && heights[k] <= 64,
        decreases 10 - x,
    {
        let h: i32 = heights[x] as i32;
        let mut cav: i32 = 0;
        let mut ovh: i32 = 0;
        let mut y: i32 = 0;
        while y < h
            invariant
                0 <= y <= h,
                h <= 64,
                x < 10,
                cav as int == cavities_col(board.blocks(), x as int, y as int),
                ovh as int == overhangs_col(board.blocks(), x as int, y as int),
                0 <= cav,
                0 <= ovh,
                cav + ovh <= y,
                forall|k: int|
                    0 <= k < 10 ==> (#[trigger] heights[k]) as int == column_height(
                        board.blocks(),
                        k,
                    ) && heights[k] <= 64,
            decreases h - y,
        {
            if !board.occupied((x as i8, y as i8)) {
                let left = x > 1 && heights[x - 1] as i32 <= y - 1 && heights[x - 2] as i32 <= y;
                let right = x < 8 && heights[x + 1] as i32 <= y - 1 && heights[x + 2] as i32 <= y;
                if left || right {
                    ovh = ovh + 1;
                } else {
                    cav = cav + 1;
                }
            }
            y = y + 1;
        }
        cavities = cavities + cav;
        overhangs = overhangs + ovh;
        x = x + 1;
    }
    (cavities, overhangs)
}

/// The covered cells of the board and the sum of their squares: for each
/// free cell with at least two cells between it and the top of its column,
/// the number of cells above it up to that top.
pub fn covered_cells(board: &BitBoard) -> (r: (u32, u32))
    ensures
        r.0 as int == covered_upto(board.blocks(), 10),
        r.1 as int == covered_sq_upto(board.blocks(), 10),
        r.0 <= 40320,
        r.1 <= 2540160,
{
    let mut covered: u32 = 0;
    let mut sq: u32 = 0;
    let mut x: i8 = 0;
    while x < 10
        invariant
            0 <= x <= 10,
            covered as int == covered_upto(board.blocks(), x as int),
            sq as int == covered_sq_upto(board.blocks(), x as int),
            covered <= 4032 * x,
            sq <= 254016 * x,
        decreases 10 - x,
    {
        let h = board.height_of(x);
        let rows: u32 = if h > 3 {
            h - 3
        } else {
            0
        };
        let mut col: u32 = 0;
        let mut col_sq: u32 = 0;
        let mut y: u32 = 0;
        while y < rows
            invariant
                0 <= x < 10,
                y <= rows,
                rows + 3 <= h || rows == 0,
                h <= 64,
                h as int == column_height(board.blocks(), x as int),
                col as int == covered_col(board.blocks(), x as int, y as int),
                col_sq as int == covered_sq_col(board.blocks(), x as int, y as int),
                col <= 63 * y,
                col_sq <= 3969 * y,
            decreases rows - y,
        {
            if !board.occupied((x, y as i8)) {
                let cells: u32 = h - y - 1;
                proof {
                    lemma_square_bound(cells as int, 63);
                }
                col = col + cells;
                col_sq = col_sq + cells * cells;
            }
            y = y + 1;
        }
        covered = covered + col;
        sq = sq + col_sq;
        x = x + 1;
    }
    (covered, sq)
}

/// The number of places where two neighbours in a row differ, summed over
/// all rows; the walls count as blocks.
pub fn row_transitions(board: &BitBoard) -> (r: i32)
    ensures
        r as int == transitions_upto(board.blocks(), 64),
        0 <= r <= 704,
{
    let mut total: i32 = 0;
    let mut y: i8 = 0;
    while y < 64
        invariant
            0 <= y <= 64,
            total as int == transitions_upto(board.blocks(), y as int),
            0 <= total <= 11 * y,
        decreases 64 - y,
    {
        let mut changes: i32 = 0;
        let mut left: bool = true;
        let mut x: i8 = 0;
        while x < 11
            invariant
                0 <= x <= 11,
                0 <= y < 64,
                left == occupied_at(board.blocks(), x - 1, y as int),
                changes as int == row_changes(board.blocks(), y as int, x as int),
                0 <= changes <= x,
            decreases 11 - x,
        {
            let here = board.occupied((x, y));
            if here != left {
                changes = changes + 1;
            }
            left = here;
            x = x + 1;
        }
        total = total + changes;
        y = y + 1;
    }
    total
}

/// The height of the highest of the columns 3 to 6, in which a piece spawns.
pub fn max_danger_height(board: &BitBoard) -> (r: u32)
    ensures
        r as int == danger_height(board.blocks()),
        r <= 64,
{
    let mut m = board.height_of(3);
    let h4 = board.height_of(4);
    if h4 > m {
        m = h4;
    }
    let mut n = board.height_of(5);
    let h6 = board.height_of(6);
    if h6 > n {
        n = h6;
    }
    if m >= n {
        m
    } else {
        n
    }
}

} // verus!
