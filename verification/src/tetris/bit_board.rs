//! The board as ten column bitmaps.

use super::bits::{
    bit, clear_lines, count_lines, lemma_bit_and, lemma_bit_low, lemma_bit_nonzero, lemma_bit_or,
    lemma_bit_or_any, lemma_bit_single, lemma_bit_test, lemma_bit_zero, ones_below,
};
use super::board::{
    board_empty, cleared_from, collides_at, covers, filled, filled_with,
    full_rows_below, in_field, lemma_free_below, lemma_height_under, row_full, Board,
};
use super::piece::{PiecePosition, PieceState};
use vstd::prelude::*;
use vstd::std_specs::bits::{
    axiom_u64_leading_ones, axiom_u64_leading_zeros, u64_leading_ones, };

verus! {

/// A board that keeps one 64-bit map per column; bit `y` of column `x` is set
/// when the cell (x, y) holds a block.
#[derive(Clone, Copy, Debug, PartialEq, Eq, Hash, PartialOrd, Ord)]
pub struct BitBoard {
    pub cols: [u64; 10],
}

/// The cells that ten column bitmaps fill.
pub open spec fn blocks_of(cols: Seq<u64>) -> Set<(int, int)> {
    Set::new(|c: (int, int)| in_field(c.0, c.1) && bit(cols[c.0], c.1))
}

impl Default for BitBoard {
    /// The empty board.
    fn default() -> (r: BitBoard)
        ensures
            r.cols@ == Seq::new(10, |i: int| 0u64),
            board_empty(r.blocks()),
    {
        let r = BitBoard { cols: [0u64, 0u64, 0u64, 0u64, 0u64, 0u64, 0u64, 0u64, 0u64, 0u64] };
        proof {
            assert(r.cols@ =~= Seq::new(10, |i: int| 0u64));
            assert forall|x: int, y: int| in_field(x, y) implies !filled(r.blocks(), x, y) by {
                lemma_bit_zero(y);
            }
        }
        r
    }
}

impl Board for BitBoard {
    open spec fn blocks(&self) -> Set<(int, int)> {
        blocks_of(self.cols@)
    }

    fn empty() -> (r: BitBoard) {
        BitBoard::default()
    }

    fn occupied(&self, pos: (i8, i8)) -> (r: bool) {
        let x = pos.0;
        let y = pos.1;
        if x < 0 || 10 <= x || y < 0 || 64 <= y {
            return true;
        }
        let col = self.cols[x as usize];
        proof {
            lemma_bit_test(col, y as u64);
        }
        col & (1u64 << (y as u64)) > 0
    }

    fn height_of(&self, x: i8) -> (r: u32) {
        let col = self.cols[x as usize];
        let lz = col.leading_zeros();
        proof {
            axiom_u64_leading_zeros(col);
            let h = 64 - lz as int;
            if h > 0 {
                lemma_bit_low(col, (h - 1) as u64);
                assert(bit(col, h - 1));
            }
            assert forall|y: int| h <= y < 64 implies !filled(self.blocks(), x as int, y) by {
                let j = y as u64;
                assert((col >> j) & 1u64 == 0u64);
            }
            lemma_height_under(self.blocks(), x as int, h, 64);
        }
        64 - lz
    }

    fn is_empty(&self) -> (r: bool) {
        let mut x: usize = 0;
        while x < 10
            invariant
                x <= 10,
                forall|k: int| 0 <= k < x ==> self.cols[k] == 0,
            decreases 10 - x,
        {
            if self.cols[x] != 0 {
                proof {
                    let p = lemma_bit_nonzero(self.cols[x as int]);
                    assert(filled(self.blocks(), x as int, p));
                }
                return false;
            }
            x = x + 1;
        }
        proof {
            assert forall|x: int, y: int| in_field(x, y) implies !filled(self.blocks(), x, y) by {
                lemma_bit_zero(y);
            }
        }
        true
    }

    fn distance_to_ground(&self, pos: (i8, i8)) -> (r: u32) {
        let x = pos.0;
        let y = pos.1;
        if y == 0 {
            0
        } else {
            let col = self.cols[x as usize];
            let s: u64 = (64 - y) as u64;
            let v: u64 = (!col) << s;
            let r = v.leading_ones();
            proof {
                axiom_u64_leading_ones(v);
                lemma_shifted_ones(col, s, r);
                lemma_free_below(self.blocks(), x as int, y as int, r as int);
            }
            r
        }
    }

    #[verifier::rlimit(50)]
    fn add_piece_and_clear(&mut self, piece: PieceState) -> (r: u32) {
        proof {
            super::board::lemma_free_is_near(self.blocks(), piece.pos);
        }
        let cells = piece.pos.cells();
        let ghost before = self.blocks();
        let mut k: usize = 0;
        while k < 4
            invariant
                k <= 4,
                piece.pos.representable(),
                !collides_at(before, piece.pos),
                forall|i: int|
                    0 <= i < 4 ==> (#[trigger] cells[i].0 as int, cells[i].1 as int)
                        == piece.pos.cell(i),
                forall|x: int, y: int|
                    in_field(x, y) ==> filled(self.blocks(), x, y) == (filled(before, x, y) || (
                    exists|i: int| 0 <= i < k && piece.pos.cell(i) == (x, y))),
            decreases 4 - k,
        {
            let cx = cells[k].0;
            let cy = cells[k].1;
            assert((cells[k as int].0 as int, cells[k as int].1 as int) == piece.pos.cell(k as int));
            assert(in_field(cx as int, cy as int));
            let ghost prev = self.blocks();
            let ghost prev_cols = self.cols@;
            let col = self.cols[cx as usize];
            self.cols[cx as usize] = col | (1u64 << (cy as u64));
            proof {
                assert forall|x: int, y: int| in_field(x, y) implies filled(self.blocks(), x, y)
                    == (filled(before, x, y) || (exists|i: int|
                    0 <= i < k + 1 && piece.pos.cell(i) == (x, y))) by {
                    lemma_bit_or(col, cy as u64, y);
                    assert(filled(prev, x, y) == bit(prev_cols[x], y));
                    if x == cx && y == cy {
                        assert(piece.pos.cell(k as int) == (x, y));
                    }
                    if exists|i: int| 0 <= i < k + 1 && piece.pos.cell(i) == (x, y) {
                        let i = choose|i: int| 0 <= i < k + 1 && piece.pos.cell(i) == (x, y);
                        if i < k {
                            assert(filled(prev, x, y));
                        }
                    }
                }
            }
            k = k + 1;
        }
        proof {
            assert forall|x: int, y: int| in_field(x, y) implies filled(self.blocks(), x, y)
                == filled_with(before, piece.pos, x, y) by {
                if covers(piece.pos, x, y) {
                    if piece.pos.cell(0) == (x, y) {
                        assert(0 <= 0 < 4 && piece.pos.cell(0) == (x, y));
                    } else if piece.pos.cell(1) == (x, y) {
                        assert(0 <= 1 < 4 && piece.pos.cell(1) == (x, y));
                    } else if piece.pos.cell(2) == (x, y) {
                        assert(0 <= 2 < 4 && piece.pos.cell(2) == (x, y));
                    } else {
                        assert(0 <= 3 < 4 && piece.pos.cell(3) == (x, y));
                    }
                }
            }
        }
        let ghost written = self.cols@;
        let mut full: u64 = u64::MAX;
        let mut x: usize = 0;
        proof {
            assert forall|y: int| 0 <= y < 64 implies bit(full, y) by {
                lemma_bit_zero(y);
            }
        }
        while x < 10
            invariant
                x <= 10,
                written.len() == 10,
                self.cols@ == written,
                forall|y: int|
                    0 <= y < 64 ==> bit(full, y) == (forall|j: int|
                        0 <= j < x ==> bit(#[trigger] written[j], y)),
            decreases 10 - x,
        {
            let ghost prev = full;
            full = full & self.cols[x];
            proof {
                assert forall|y: int| 0 <= y < 64 implies bit(full, y) == (forall|j: int|
                    0 <= j < x + 1 ==> bit(#[trigger] written[j], y)) by {
                    lemma_bit_and(prev, written[x as int], y);
                    lemma_bit_zero(y);
                }
            }
            x = x + 1;
        }
        proof {
            assert forall|y: int| 0 <= y < 64 implies bit(full, y) == row_full(
                before,
                piece.pos,
                y,
            ) by {
                if bit(full, y) {
                    assert forall|j: int| 0 <= j < 10 implies filled_with(
                        before,
                        piece.pos,
                        j,
                        y,
                    ) by {
                        assert(bit(written[j], y));
                        assert(filled(self.blocks(), j, y));
                    }
                } else {
                    let j = choose|j: int| 0 <= j < 10 && !bit(#[trigger] written[j], y);
                    assert(!filled(self.blocks(), j, y));
                }
            }
            lemma_full_rows_match(before, piece.pos, full, 64);
        }
        if full == 0 {
            proof {
                lemma_no_full_rows(before, piece.pos, full);
            }
            return 0;
        }
        let mut x: usize = 0;
        while x < 10
            invariant
                x <= 10,
                written.len() == 10,
                forall|j: int| x <= j < 10 ==> self.cols[j] == written[j],
                forall|j: int, y: int|
                    0 <= j < x && 0 <= y < 64 && !bit(full, y) ==> bit(
                        self.cols[j],
                        y - ones_below(full, y),
                    ) == #[trigger] bit(written[j], y),
                forall|j: int, p: int|
                    0 <= j < x && 64 - ones_below(full, 64) <= p ==> !#[trigger] bit(
                        self.cols[j],
                        p,
                    ),
            decreases 10 - x,
        {
            let mut col = self.cols[x];
            clear_lines(&mut col, full);
            self.cols[x] = col;
            x = x + 1;
        }
        proof {
            assert forall|x: int, y: int|
                in_field(x, y) && !row_full(before, piece.pos, y) implies filled(
                self.blocks(),
                x,
                y - full_rows_below(before, piece.pos, y),
            ) == filled_with(before, piece.pos, x, y) by {
                lemma_full_rows_match(before, piece.pos, full, y);
                super::bits::lemma_ones_below_bounds(full, y, y);
                assert(bit(self.cols[x], y - ones_below(full, y)) == bit(written[x], y));
                assert(filled(blocks_of(written), x, y) == bit(written[x], y));
            }
            assert forall|x: int, y: int|
                in_field(x, y) && y >= 64 - full_rows_below(before, piece.pos, 64) implies !filled(
                self.blocks(),
                x,
                y,
            ) by {
                assert(!bit(self.cols[x], y));
            }
        }
        count_lines(full)
    }
}

/// Two boards that fill the same cells are the same.
pub proof fn lemma_board_determined(a: BitBoard, b: BitBoard)
    requires
        forall|x: int, y: int| in_field(x, y) ==> filled(a.blocks(), x, y) == filled(b.blocks(), x, y),
    ensures
        a == b,
{
    assert forall|x: int| 0 <= x < 10 implies a.cols@[x] == b.cols@[x] by {
        assert forall|y: int| 0 <= y < 64 implies bit(a.cols@[x], y) == bit(b.cols@[x], y) by {
            assert(in_field(x, y));
            assert(filled(a.blocks(), x, y) == bit(a.cols@[x], y));
            assert(filled(b.blocks(), x, y) == bit(b.cols@[x], y));
        }
        super::bits::lemma_bits_determine(a.cols@[x], b.cols@[x]);
    }
    assert(a.cols@ =~= b.cols@);
    assert(a.cols =~= b.cols);
}

impl BitBoard {
    /// The board after a piece was written to it and the full rows were
    /// removed.
    pub open spec fn locked(self, pos: PiecePosition) -> BitBoard {
        choose|b: BitBoard| cleared_from(b.blocks(), self.blocks(), pos)
    }

    /// The cells of row `y` as a bitmap: bit `x` is set when (x, y) holds a block.
    pub fn get_row(&self, y: i8) -> (r: u64)
        requires
            0 <= y < 64,
        ensures
            forall|x: int| 0 <= x < 10 ==> bit(r, x) == filled(self.blocks(), x, y as int),
            forall|x: int| 10 <= x ==> !bit(r, x),
    {
        let mut row: u64 = 0;
        let mut x: usize = 0;
        proof {
            assert forall|k: int| !bit(row, k) by {
                lemma_bit_zero(k);
            }
        }
        while x < 10
            invariant
                x <= 10,
                0 <= y < 64,
                forall|k: int| 0 <= k < x ==> bit(row, k) == filled(self.blocks(), k, y as int),
                forall|k: int| x <= k ==> !bit(row, k),
            decreases 10 - x,
        {
            let cell: u64 = (self.cols[x] >> (y as u64)) & 1u64;
            let ghost prev = row;
            proof {
                lemma_bit_low(self.cols[x as int], y as u64);
            }
            row = row | (cell << (x as u64));
            proof {
                assert forall|k: int| 0 <= k < x + 1 implies bit(row, k) == filled(
                    self.blocks(),
                    k,
                    y as int,
                ) by {
                    lemma_bit_or_any(prev, cell << (x as u64), k);
                    lemma_bit_single(cell, x as u64, k);
                }
                assert forall|k: int| x + 1 <= k implies !bit(row, k) by {
                    lemma_bit_or_any(prev, cell << (x as u64), k);
                    lemma_bit_single(cell, x as u64, k);
                }
            }
            x = x + 1;
        }
        row
    }

    /// Builds a board from the text of its rows, the topmost row first. The
    /// letter `x` marks a block; any other character marks a free cell.
    #[verifier::rlimit(50)]
    pub fn from_rows(rows: &[&str]) -> (r: BitBoard)
        requires
            1 <= rows@.len() <= 64,
            forall|i: int| 0 <= i < rows@.len() ==> (#[trigger] rows@[i])@.len() >= 10,
        ensures
            forall|x: int, y: int|
                in_field(x, y) ==> filled(r.blocks(), x, y) == (y < rows@.len() && rows@[rows@.len()
                    - 1 - y]@[x] == 'x'),
    {
        let n = rows.len();
        let mut board = BitBoard::default();
        let mut x: usize = 0;
        while x < 10
            invariant
                x <= 10,
                n == rows@.len(),
                1 <= n <= 64,
                forall|i: int| 0 <= i < rows@.len() ==> (#[trigger] rows@[i])@.len() >= 10,
                forall|k: int, y: int|
                    0 <= k < x && 0 <= y < 64 ==> #[trigger] bit(board.cols[k], y) == (y < n
                        && rows@[n - 1 - y]@[k] == 'x'),
            decreases 10 - x,
        {
            let mut col: u64 = 0;
            let mut y: usize = 0;
            proof {
                assert forall|p: int| !bit(col, p) by {
                    lemma_bit_zero(p);
                }
            }
            while y < n
                invariant
                    y <= n,
                    x < 10,
                    n == rows@.len(),
                    1 <= n <= 64,
                    forall|i: int| 0 <= i < rows@.len() ==> (#[trigger] rows@[i])@.len() >= 10,
                    forall|p: int|
                        0 <= p < y ==> bit(col, p) == (rows@[n - 1 - p]@[x as int] == 'x'),
                    forall|p: int| y <= p ==> !bit(col, p),
                decreases n - y,
            {
                let row: &str = rows[n - 1 - y];
                assert(row@.len() >= 10);
                let ghost prev = col;
                if row.get_char(x) == 'x' {
                    col = col | (1u64 << (y as u64));
                    proof {
                        assert forall|p: int| true implies bit(col, p) == (p == y || bit(prev, p)) by {
                            lemma_bit_or(prev, y as u64, p);
                        }
                    }
                }
                y = y + 1;
            }
            board.cols[x] = col;
            x = x + 1;
        }
        board
    }

    /// Builds a board from a grid of rows of ten cells, the bottom row first.
    /// A cell that holds any character is a block. Only the first 40 rows count.
    #[verifier::rlimit(50)]
    pub fn from_grid(v: &Vec<[Option<char>; 10]>) -> (r: BitBoard)
        requires
            v@.len() >= 40,
        ensures
            forall|x: int, y: int|
                in_field(x, y) ==> filled(r.blocks(), x, y) == (y < 40 && v@[y][x] is Some),
    {
        let mut board = BitBoard::default();
        let mut x: usize = 0;
        while x < 10
            invariant
                x <= 10,
                v@.len() >= 40,
                forall|k: int, y: int|
                    0 <= k < x && 0 <= y < 64 ==> #[trigger] bit(board.cols[k], y) == (y < 40
                        && v@[y][k] is Some),
            decreases 10 - x,
        {
            let mut col: u64 = 0;
            let mut y: usize = 0;
            proof {
                assert forall|p: int| !bit(col, p) by {
                    lemma_bit_zero(p);
                }
            }
            while y < 40
                invariant
                    y <= 40,
                    x < 10,
                    v@.len() >= 40,
                    forall|p: int| 0 <= p < y ==> bit(col, p) == (v@[p][x as int] is Some),
                    forall|p: int| y <= p ==> !bit(col, p),
                decreases 40 - y,
            {
                let ghost prev = col;
                let cell = v[y][x];
                if cell.is_some() {
                    col = col | (1u64 << (y as u64));
                    proof {
                        assert forall|p: int| true implies bit(col, p) == (p == y || bit(prev, p)) by {
                            lemma_bit_or(prev, y as u64, p);
                        }
                    }
                }
                y = y + 1;
            }
            board.cols[x] = col;
            x = x + 1;
        }
        board
    }
}

/// What the leading ones of an inverted column shifted to the top say about
/// the cells below row `64 - s`: the first `r` of them are free, the next is not.
proof fn lemma_shifted_ones(col: u64, s: u64, r: u32)
    requires
        1 <= s < 64,
        r == u64_leading_ones((!col) << s),
    ensures
        r <= 64 - s,
        r < 64 - s ==> bit(col, 64 - s - r - 1),
        forall|j: int| 64 - s - r <= j < 64 - s ==> !bit(col, j),
{
    let v: u64 = (!col) << s;
    axiom_u64_leading_ones(v);
    let low: u64 = (s - 1) as u64;
    assert((((!col) << s) >> low) & 1u64 == 0u64) by (bit_vector)
        requires
            1 <= s < 64,
            low == s - 1,
    ;
    if r > 64 - s {
        assert((v >> low) & 1u64 == 1u64);
    }
    assert forall|j: int| 64 - s - r <= j < 64 - s implies !bit(col, j) by {
        let q: u64 = j as u64;
        let t: u64 = (j + s) as u64;
        assert((v >> t) & 1u64 == 1u64);
        assert((((!col) << s) >> t) & 1u64 == 1u64 ==> (col >> q) & 1u64 == 0u64) by (bit_vector)
            requires
                1 <= s < 64,
                q < 64 - s,
                t == q + s,
        ;
    }
    if r < 64 - s {
        let q: u64 = (64 - s - r - 1) as u64;
        let t: u64 = (63 - r) as u64;
        assert((v >> t) & 1u64 == 0u64);
        assert((((!col) << s) >> t) & 1u64 == 0u64 ==> (col >> q) & 1u64 == 1u64) by (bit_vector)
            requires
                1 <= s < 64,
                q < 64 - s,
                t == q + s,
        ;
    }
}

/// If a bitmap marks exactly the full rows, its set bits count them.
proof fn lemma_full_rows_match(b: Set<(int, int)>, pos: PiecePosition, full: u64, y: int)
    requires
        0 <= y <= 64,
        forall|k: int| 0 <= k < 64 ==> bit(full, k) == row_full(b, pos, k),
    ensures
        full_rows_below(b, pos, y) == ones_below(full, y),
    decreases y,
{
    if y > 0 {
        lemma_full_rows_match(b, pos, full, y - 1);
    }
}

/// With no full row, writing the piece is all that happens.
proof fn lemma_no_full_rows(b: Set<(int, int)>, pos: PiecePosition, full: u64)
    requires
        full == 0,
        forall|k: int| 0 <= k < 64 ==> bit(full, k) == row_full(b, pos, k),
    ensures
        forall|y: int| 0 <= y <= 64 ==> full_rows_below(b, pos, y) == 0,
{
    assert forall|y: int| 0 <= y <= 64 implies full_rows_below(b, pos, y) == 0 by {
        lemma_full_rows_match(b, pos, full, y);
        lemma_ones_zero(y);
    }
}

proof fn lemma_ones_zero(y: int)
    ensures
        ones_below(0u64, y) == 0,
    decreases y,
{
    if y > 0 {
        lemma_bit_zero(y - 1);
        lemma_ones_zero(y - 1);
    }
}

} // verus!
