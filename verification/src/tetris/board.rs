//! Boards: the playfield of 10 columns and 64 rows, as bitmaps or as colours.

use super::piece::{PiecePosition, PieceState};
use vstd::prelude::*;

verus! {

/// Number of columns of a board.
pub const WIDTH: i8 = 10;

/// Number of rows of a board.
pub const HEIGHT: i8 = 64;

/// True if (x, y) lies inside the board.
pub open spec fn in_field(x: int, y: int) -> bool {
    0 <= x < 10 && 0 <= y < 64
}

/// A playfield. A board is a set of filled cells inside the 10 by 64 field;
/// everything outside the field counts as occupied.
pub trait Board: Sized + Clone {
    /// The filled cells, as (x, y) pairs.
    spec fn blocks(&self) -> Set<(int, int)>;

    /// The board without any block.
    fn empty() -> (r: Self)
        ensures
            board_empty(r.blocks()),
    ;

    /// True if the cell is outside the field or holds a block.
    fn occupied(&self, pos: (i8, i8)) -> (r: bool)
        ensures
            r == occupied_at(self.blocks(), pos.0 as int, pos.1 as int),
    ;

    /// The number of rows of a column up to its highest block.
    fn height_of(&self, x: i8) -> (r: u32)
        requires
            0 <= x < 10,
        ensures
            r as int == column_height(self.blocks(), x as int),
            r <= 64,
    ;

    /// True if no cell is filled.
    fn is_empty(&self) -> (r: bool)
        ensures
            r == board_empty(self.blocks()),
    ;

    /// The number of free cells directly below a cell, down to the first block
    /// or to the floor.
    fn distance_to_ground(&self, pos: (i8, i8)) -> (r: u32)
        requires
            in_field(pos.0 as int, pos.1 as int),
        ensures
            r as int == free_below(self.blocks(), pos.0 as int, pos.1 as int),
            r <= pos.1,
    ;

    /// Writes the piece to the board, removes every full row, lets the rows
    /// above fall, and returns the number of rows removed.
    fn add_piece_and_clear(&mut self, piece: PieceState) -> (r: u32)
        requires
            !collides_at(old(self).blocks(), piece.pos),
        ensures
            cleared_from(final(self).blocks(), old(self).blocks(), piece.pos),
            r as int == full_rows_below(old(self).blocks(), piece.pos, 64),
    ;

    /// True if one of the piece's cells is occupied.
    fn collides(&self, piece: PiecePosition) -> (r: bool)
        requires
            piece.fits(),
        ensures
            r == collides_at(self.blocks(), piece),
    {
        let cells = piece.cells();
        self.occupied(cells[0]) || self.occupied(cells[1]) || self.occupied(cells[2])
            || self.occupied(cells[3])
    }
}

/// True if the cell (x, y) lies in the field and holds a block.
pub open spec fn filled(b: Set<(int, int)>, x: int, y: int) -> bool {
    in_field(x, y) && b.contains((x, y))
}

/// True if the cell is outside the field or holds a block.
pub open spec fn occupied_at(b: Set<(int, int)>, x: int, y: int) -> bool {
    !in_field(x, y) || filled(b, x, y)
}

/// True if one of the four cells of the piece is occupied.
pub open spec fn collides_at(b: Set<(int, int)>, pos: PiecePosition) -> bool {
    occupied_at(b, pos.cell(0).0, pos.cell(0).1) || occupied_at(b, pos.cell(1).0, pos.cell(1).1)
        || occupied_at(b, pos.cell(2).0, pos.cell(2).1) || occupied_at(
        b,
        pos.cell(3).0,
        pos.cell(3).1,
    )
}

/// A piece that does not collide lies in the field, so that its centre is
/// close to it and its cells fit the machine's numbers.
pub proof fn lemma_free_is_near(b: Set<(int, int)>, pos: PiecePosition)
    requires
        !collides_at(b, pos),
    ensures
        pos.representable(),
        pos.fits(),
{
    assert(in_field(pos.cell(0).0, pos.cell(0).1));
    assert(in_field(pos.cell(1).0, pos.cell(1).1));
    assert(in_field(pos.cell(2).0, pos.cell(2).1));
    assert(in_field(pos.cell(3).0, pos.cell(3).1));
}

/// True if the piece covers the cell.
pub open spec fn covers(pos: PiecePosition, x: int, y: int) -> bool {
    pos.cell(0) == (x, y) || pos.cell(1) == (x, y) || pos.cell(2) == (x, y) || pos.cell(3) == (
        x,
        y,
    )
}

/// True if no cell of the board is filled.
pub open spec fn board_empty(b: Set<(int, int)>) -> bool {
    forall|x: int, y: int| in_field(x, y) ==> !filled(b, x, y)
}

/// The height of the part of a column that lies below row `n`: one more than
/// the highest filled row below `n`, or 0 if there is none.
pub open spec fn height_under(b: Set<(int, int)>, x: int, n: int) -> int
    decreases n,
{
    if n <= 0 {
        0
    } else if filled(b, x, n - 1) {
        n
    } else {
        height_under(b, x, n - 1)
    }
}

/// The height of a column: one more than its highest filled row, or 0.
pub open spec fn column_height(b: Set<(int, int)>, x: int) -> int {
    height_under(b, x, 64)
}

/// The number of free cells directly below (x, y).
pub open spec fn free_below(b: Set<(int, int)>, x: int, y: int) -> int
    decreases y,
{
    if y <= 0 || filled(b, x, y - 1) {
        0
    } else {
        1 + free_below(b, x, y - 1)
    }
}

/// True if the cell is filled once the piece is written to the board.
pub open spec fn filled_with(b: Set<(int, int)>, pos: PiecePosition, x: int, y: int) -> bool {
    filled(b, x, y) || covers(pos, x, y)
}

/// True if row `y` is full once the piece is written to the board.
pub open spec fn row_full(b: Set<(int, int)>, pos: PiecePosition, y: int) -> bool {
    forall|x: int| 0 <= x < 10 ==> filled_with(b, pos, x, y)
}

/// The number of full rows below row `y`, once the piece is written.
pub open spec fn full_rows_below(b: Set<(int, int)>, pos: PiecePosition, y: int) -> int
    decreases y,
{
    if y <= 0 {
        0
    } else {
        full_rows_below(b, pos, y - 1) + if row_full(b, pos, y - 1) {
            1int
        } else {
            0int
        }
    }
}

/// True if `after` is `before` with the piece written and the full rows
/// removed: every row that is not full has moved down by the number of full
/// rows below it, and the rows freed at the top are empty.
pub open spec fn cleared_from(after: Set<(int, int)>, before: Set<(int, int)>, pos: PiecePosition) -> bool {
    &&& forall|x: int, y: int|
        in_field(x, y) && !row_full(before, pos, y) ==> filled(
            after,
            x,
            y - full_rows_below(before, pos, y),
        ) == filled_with(before, pos, x, y)
    &&& forall|x: int, y: int|
        in_field(x, y) && y >= 64 - full_rows_below(before, pos, 64) ==> !filled(after, x, y)
}

/// A column height is characterised by its highest block.
pub proof fn lemma_height_under(b: Set<(int, int)>, x: int, h: int, n: int)
    requires
        0 <= h <= n,
        h == 0 || filled(b, x, h - 1),
        forall|y: int| h <= y < n ==> !filled(b, x, y),
    ensures
        height_under(b, x, n) == h,
    decreases n,
{
    if n > h {
        lemma_height_under(b, x, h, n - 1);
    }
}

/// The height of a column is at most `n`, the row below it is filled, and
/// nothing at or above it is.
pub proof fn lemma_height_under_props(b: Set<(int, int)>, x: int, n: int)
    requires
        0 <= n,
    ensures
        0 <= height_under(b, x, n) <= n,
        height_under(b, x, n) > 0 ==> filled(b, x, height_under(b, x, n) - 1),
        forall|y: int| height_under(b, x, n) <= y < n ==> !filled(b, x, y),
    decreases n,
{
    if n > 0 && !filled(b, x, n - 1) {
        lemma_height_under_props(b, x, n - 1);
    }
}

/// The free cells below a cell are characterised by the first block under it.
pub proof fn lemma_free_below(b: Set<(int, int)>, x: int, y: int, d: int)
    requires
        0 <= d <= y,
        d == y || filled(b, x, y - d - 1),
        forall|j: int| y - d <= j < y ==> !filled(b, x, j),
    ensures
        free_below(b, x, y) == d,
    decreases d,
{
    if d > 0 {
        lemma_free_below(b, x, y - 1, d - 1);
    }
}

/// The cells counted by `free_below` are free, and the one under them is not.
pub proof fn lemma_free_below_props(b: Set<(int, int)>, x: int, y: int)
    requires
        0 <= y,
    ensures
        0 <= free_below(b, x, y) <= y,
        free_below(b, x, y) < y ==> filled(b, x, y - free_below(b, x, y) - 1),
        forall|j: int| y - free_below(b, x, y) <= j < y ==> !filled(b, x, j),
    decreases y,
{
    if y > 0 && !filled(b, x, y - 1) {
        lemma_free_below_props(b, x, y - 1);
    }
}

/// There are at most `y` full rows below row `y`, and the count grows with `y`.
pub proof fn lemma_full_rows_bounds(b: Set<(int, int)>, pos: PiecePosition, y1: int, y2: int)
    requires
        0 <= y1 <= y2,
    ensures
        0 <= full_rows_below(b, pos, y1) <= y1,
        full_rows_below(b, pos, y1) <= full_rows_below(b, pos, y2),
        full_rows_below(b, pos, y2) - full_rows_below(b, pos, y1) <= y2 - y1,
        y1 < y2 && !row_full(b, pos, y1) ==> full_rows_below(b, pos, y2) - full_rows_below(
            b,
            pos,
            y1,
        ) < y2 - y1,
    decreases y2,
{
    if y1 < y2 {
        lemma_full_rows_bounds(b, pos, y1, y2 - 1);
    } else if y1 > 0 {
        lemma_full_rows_bounds(b, pos, y1 - 1, y1 - 1);
    }
}

/// Every row below the rows freed at the top is where some row that is not
/// full has moved to.
pub proof fn lemma_rows_land(b: Set<(int, int)>, pos: PiecePosition, n: int, t: int)
    requires
        0 <= n <= 64,
        0 <= t < n - full_rows_below(b, pos, n),
    ensures
        exists|y: int| 0 <= y < n && !row_full(b, pos, y) && #[trigger] full_rows_below(b, pos, y) == y - t,
    decreases n,
{
    if n > 0 {
        if row_full(b, pos, n - 1) {
            lemma_rows_land(b, pos, n - 1, t);
        } else if t == n - 1 - full_rows_below(b, pos, n - 1) {
            assert(full_rows_below(b, pos, n - 1) == (n - 1) - t);
        } else {
            lemma_rows_land(b, pos, n - 1, t);
        }
    }
}

/// Writing a piece and clearing the full rows has one outcome.
pub proof fn lemma_cleared_unique(
    one: Set<(int, int)>,
    other: Set<(int, int)>,
    before: Set<(int, int)>,
    pos: PiecePosition,
)
    requires
        cleared_from(one, before, pos),
        cleared_from(other, before, pos),
    ensures
        forall|x: int, y: int| in_field(x, y) ==> filled(one, x, y) == filled(other, x, y),
{
    assert forall|x: int, y: int| in_field(x, y) implies filled(one, x, y) == filled(other, x, y) by {
        if y < 64 - full_rows_below(before, pos, 64) {
            lemma_rows_land(before, pos, 64, y);
            let src = choose|src: int|
                0 <= src < 64 && !row_full(before, pos, src) && #[trigger] full_rows_below(
                    before,
                    pos,
                    src,
                ) == src - y;
            assert(in_field(x, src));
            assert(filled(one, x, src - full_rows_below(before, pos, src)) == filled_with(
                before,
                pos,
                x,
                src,
            ));
            assert(filled(other, x, src - full_rows_below(before, pos, src)) == filled_with(
                before,
                pos,
                x,
                src,
            ));
        }
    }
}

} // verus!
