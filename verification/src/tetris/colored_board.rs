//! The board as a grid of coloured cells.

use super::board::{
    board_empty, collides_at, covers, filled, filled_with,
    full_rows_below, in_field, lemma_free_below, lemma_full_rows_bounds,
    lemma_height_under, row_full, Board,
};
use super::piece::{CellKind, PieceState};
use vstd::prelude::*;

verus! {

broadcast use vstd::array::group_array_axioms;

/// A board that keeps the colour of each cell: `cols[x][y]` is what the cell
/// (x, y) holds.
#[derive(Clone, Copy, Debug, PartialEq, Eq, Hash, PartialOrd, Ord)]
pub struct ColoredBoard {
    pub cols: [[CellKind; 64]; 10],
}

/// The cells that a grid of colours fills.
pub open spec fn coloured(cols: [[CellKind; 64]; 10]) -> Set<(int, int)> {
    Set::new(|c: (int, int)| in_field(c.0, c.1) && cols[c.0][c.1] != CellKind::Empty)
}

/// The colour that a character of the host stands for.
pub open spec fn colour_of(c: Option<char>) -> CellKind {
    match c {
        None => CellKind::Empty,
        Some(ch) => if ch == 'S' {
            CellKind::S
        } else if ch == 'Z' {
            CellKind::Z
        } else if ch == 'J' {
            CellKind::J
        } else if ch == 'L' {
            CellKind::L
        } else if ch == 'T' {
            CellKind::T
        } else if ch == 'O' {
            CellKind::O
        } else if ch == 'I' {
            CellKind::I
        } else if ch == 'G' {
            CellKind::Gbg
        } else {
            CellKind::Empty
        },
    }
}

impl Default for ColoredBoard {
    /// The empty board.
    fn default() -> (r: ColoredBoard)
        ensures
            forall|x: int, y: int| in_field(x, y) ==> r.cols[x][y] == CellKind::Empty,
            board_empty(r.blocks()),
    {
        let col: [CellKind; 64] = vstd::array::array_fill_for_copy_types(CellKind::Empty);
        let r = ColoredBoard { cols: vstd::array::array_fill_for_copy_types(col) };
        proof {
            assert forall|x: int, y: int| in_field(x, y) implies r.cols[x][y] == CellKind::Empty by {
                assert(r.cols@[x] == col);
                assert(col@[y] == CellKind::Empty);
            }
        }
        r
    }
}

impl ColoredBoard {
    /// The colour of a cell of the field.
    pub fn cell(&self, x: usize, y: usize) -> (r: CellKind)
        requires
            x < 10,
            y < 64,
        ensures
            r == self.cols[x as int][y as int],
    {
        let col = &self.cols[x];
        col[y]
    }

    /// Paints a cell of the field.
    pub fn paint(&mut self, x: usize, y: usize, kind: CellKind)
        requires
            x < 10,
            y < 64,
        ensures
            final(self).cols[x as int][y as int] == kind,
            forall|i: int, j: int|
                in_field(i, j) && (i != x || j != y) ==> final(self).cols[i][j] == old(self).cols[i][j],
    {
        let mut col = self.cols[x];
        col[y] = kind;
        self.cols[x] = col;
    }

    /// True if every cell of row `y` holds a block.
    fn row_is_full(&self, y: usize) -> (r: bool)
        requires
            y < 64,
        ensures
            r == (forall|x: int| 0 <= x < 10 ==> filled(self.blocks(), x, y as int)),
    {
        let mut x: usize = 0;
        while x < 10
            invariant
                x <= 10,
                y < 64,
                forall|k: int| 0 <= k < x ==> filled(self.blocks(), k, y as int),
            decreases 10 - x,
        {
            if self.cell(x, y) == CellKind::Empty {
                assert(!filled(self.blocks(), x as int, y as int));
                return false;
            }
            assert(filled(self.blocks(), x as int, y as int));
            x = x + 1;
        }
        true
    }

    /// Builds a board from a grid of rows of ten cells, the bottom row first.
    /// The letters S, Z, J, L, T, O and I stand for the colours of the pieces
    /// and G for garbage; any other cell is free. Only the first 40 rows count.
    #[verifier::rlimit(50)]
    pub fn from_grid(v: &Vec<[Option<char>; 10]>) -> (r: ColoredBoard)
        requires
            v@.len() >= 40,
        ensures
            forall|x: int, y: int|
                in_field(x, y) ==> r.cols[x][y] == (if y < 40 {
                    colour_of(v@[y][x])
                } else {
                    CellKind::Empty
                }),
    {
        let mut board = ColoredBoard::default();
        let mut y: usize = 0;
        while y < 40
            invariant
                y <= 40,
                v@.len() >= 40,
                forall|i: int, j: int|
                    in_field(i, j) ==> board.cols[i][j] == (if j < y {
                        colour_of(v@[j][i])
                    } else {
                        CellKind::Empty
                    }),
            decreases 40 - y,
        {
            let mut x: usize = 0;
            while x < 10
                invariant
                    x <= 10,
                    y < 40,
                    v@.len() >= 40,
                    forall|i: int, j: int|
                        in_field(i, j) ==> board.cols[i][j] == (if j < y || (j == y && i < x) {
                            colour_of(v@[j][i])
                        } else {
                            CellKind::Empty
                        }),
                decreases 10 - x,
            {
                let kind = match v[y][x] {
                    None => CellKind::Empty,
                    Some(ch) => if ch == 'S' {
                        CellKind::S
                    } else if ch == 'Z' {
                        CellKind::Z
                    } else if ch == 'J' {
                        CellKind::J
                    } else if ch == 'L' {
                        CellKind::L
                    } else if ch == 'T' {
                        CellKind::T
                    } else if ch == 'O' {
                        CellKind::O
                    } else if ch == 'I' {
                        CellKind::I
                    } else if ch == 'G' {
                        CellKind::Gbg
                    } else {
                        CellKind::Empty
                    },
                };
                board.paint(x, y, kind);
                x = x + 1;
            }
            y = y + 1;
        }
        board
    }
}

impl Board for ColoredBoard {
    open spec fn blocks(&self) -> Set<(int, int)> {
        coloured(self.cols)
    }

    fn empty() -> (r: ColoredBoard) {
        ColoredBoard::default()
    }

    fn occupied(&self, pos: (i8, i8)) -> (r: bool) {
        let x = pos.0;
        let y = pos.1;
        if x < 0 || 10 <= x || y < 0 || 64 <= y {
            return true;
        }
        self.cell(x as usize, y as usize) != CellKind::Empty
    }

    fn height_of(&self, x: i8) -> (r: u32) {
        let mut h: usize = 64;
        while h > 0
            invariant
                h <= 64,
                0 <= x < 10,
                forall|y: int| h <= y < 64 ==> !filled(self.blocks(), x as int, y),
            decreases h,
        {
            if self.cell(x as usize, h - 1) != CellKind::Empty {
                proof {
                    assert(filled(self.blocks(), x as int, h - 1));
                    lemma_height_under(self.blocks(), x as int, h as int, 64);
                }
                return h as u32;
            }
            assert(!filled(self.blocks(), x as int, h - 1));
            h = h - 1;
        }
        proof {
            lemma_height_under(self.blocks(), x as int, 0, 64);
        }
        0
    }

    fn is_empty(&self) -> (r: bool) {
        let mut x: usize = 0;
        while x < 10
            invariant
                x <= 10,
                forall|i: int, j: int| 0 <= i < x && 0 <= j < 64 ==> !filled(self.blocks(), i, j),
            decreases 10 - x,
        {
            let mut y: usize = 0;
            while y < 64
                invariant
                    x < 10,
                    y <= 64,
                    forall|i: int, j: int|
                        0 <= i < x && 0 <= j < 64 ==> !filled(self.blocks(), i, j),
                    forall|j: int| 0 <= j < y ==> !filled(self.blocks(), x as int, j),
                decreases 64 - y,
            {
                if self.cell(x, y) != CellKind::Empty {
                    assert(filled(self.blocks(), x as int, y as int));
                    return false;
                }
                assert(!filled(self.blocks(), x as int, y as int));
                y = y + 1;
            }
            x = x + 1;
        }
        true
    }

    fn distance_to_ground(&self, pos: (i8, i8)) -> (r: u32) {
        let x = pos.0 as usize;
        let y = pos.1 as usize;
        let mut d: usize = 0;
        while d < y
            invariant
                d <= y,
                x < 10,
                y < 64,
                x == pos.0,
                y == pos.1,
                forall|j: int| y - d <= j < y ==> !filled(self.blocks(), x as int, j),
            decreases y - d,
        {
            if self.cell(x, y - d - 1) != CellKind::Empty {
                proof {
                    assert(filled(self.blocks(), x as int, y - d - 1));
                    lemma_free_below(self.blocks(), x as int, y as int, d as int);
                }
                return d as u32;
            }
            assert(!filled(self.blocks(), x as int, y - d - 1));
            d = d + 1;
        }
        proof {
            lemma_free_below(self.blocks(), x as int, y as int, d as int);
        }
        d as u32
    }

    #[verifier::rlimit(50)]
    fn add_piece_and_clear(&mut self, piece: PieceState) -> (r: u32) {
        proof {
            super::board::lemma_free_is_near(self.blocks(), piece.pos);
        }
        let cells = piece.pos.cells();
        let kind = CellKind::from_piece(piece.pos.kind);
        let ghost before = self.blocks();
        let mut k: usize = 0;
        while k < 4
            invariant
                k <= 4,
                kind != CellKind::Empty,
                piece.pos.representable(),
                !collides_at(before, piece.pos),
                forall|i: int|
                    0 <= i < 4 ==> (#[trigger] cells[i].0 as int, cells[i].1 as int)
                        == piece.pos.cell(i),
                forall|x: int, y: int|
                    in_field(x, y) ==> filled(self.blocks(), x, y) == (filled(before, x, y) || (
                    exists|i: int| 0 <= i < k && piece.pos.cell(i) == (x, y))),
            decreases 4 - k,
        {
            let cx = cells[k].0;
            let cy = cells[k].1;
            assert((cells[k as int].0 as int, cells[k as int].1 as int) == piece.pos.cell(k as int));
            assert(in_field(cx as int, cy as int));
            let ghost prev = self.blocks();
            self.paint(cx as usize, cy as usize, kind);
            proof {
                assert forall|x: int, y: int| in_field(x, y) implies filled(self.blocks(), x, y)
                    == (filled(before, x, y) || (exists|i: int|
                    0 <= i < k + 1 && piece.pos.cell(i) == (x, y))) by {
                    if x == cx && y == cy {
                        assert(piece.pos.cell(k as int) == (x, y));
                    } else {
                        assert(filled(self.blocks(), x, y) == filled(prev, x, y));
                    }
                    if exists|i: int| 0 <= i < k + 1 && piece.pos.cell(i) == (x, y) {
                        let i = choose|i: int| 0 <= i < k + 1 && piece.pos.cell(i) == (x, y);
                        if i < k {
                            assert(filled(prev, x, y));
                        }
                    }
                }
            }
            k = k + 1;
        }
        let ghost written = self.blocks();
        proof {
            assert forall|x: int, y: int| in_field(x, y) implies filled(written, x, y)
                == filled_with(before, piece.pos, x, y) by {
                if covers(piece.pos, x, y) {
                    if piece.pos.cell(0) == (x, y) {
                        assert(0 <= 0 < 4 && piece.pos.cell(0) == (x, y));
                    } else if piece.pos.cell(1) == (x, y) {
                        assert(0 <= 1 < 4 && piece.pos.cell(1) == (x, y));
                    } else if piece.pos.cell(2) == (x, y) {
                        assert(0 <= 2 < 4 && piece.pos.cell(2) == (x, y));
                    } else {
                        assert(0 <= 3 < 4 && piece.pos.cell(3) == (x, y));
                    }
                }
            }
        }
        let mut dst: usize = 0;
        let mut y: usize = 0;
        while y < 64
            invariant
                y <= 64,
                dst <= y,
                dst as int == y - full_rows_below(before, piece.pos, y as int),
                forall|i: int, j: int|
                    in_field(i, j) ==> filled(written, i, j) == filled_with(before, piece.pos, i, j),
                forall|i: int, j: int|
                    in_field(i, j) && j >= y ==> filled(self.blocks(), i, j) == filled(written, i, j),
                forall|i: int, j: int|
                    in_field(i, j) && j < y && !row_full(before, piece.pos, j) ==> filled(
                        self.blocks(),
                        i,
                        j - full_rows_below(before, piece.pos, j),
                    ) == filled(written, i, j),
            decreases 64 - y,
        {
            let full = self.row_is_full(y);
            proof {
                lemma_full_rows_bounds(before, piece.pos, y as int, y as int);
                assert(full == row_full(before, piece.pos, y as int)) by {
                    if full {
                        assert forall|x: int| 0 <= x < 10 implies filled_with(
                            before,
                            piece.pos,
                            x,
                            y as int,
                        ) by {
                            assert(filled(self.blocks(), x, y as int));
                            assert(in_field(x, y as int));
                        }
                    } else {
                        let x = choose|x: int| 0 <= x < 10 && !filled(self.blocks(), x, y as int);
                        assert(in_field(x, y as int));
                        assert(!filled_with(before, piece.pos, x, y as int));
                    }
                }
            }
            if !full {
                if dst != y {
                    let mut x: usize = 0;
                    let ghost mid = self.blocks();
                    while x < 10
                        invariant
                            x <= 10,
                            dst < y < 64,
                            forall|i: int, j: int|
                                in_field(i, j) && j != dst ==> filled(self.blocks(), i, j)
                                    == filled(mid, i, j),
                            forall|i: int|
                                0 <= i < x ==> filled(self.blocks(), i, dst as int) == filled(
                                    mid,
                                    i,
                                    y as int,
                                ),
                            forall|i: int|
                                x <= i < 10 ==> filled(self.blocks(), i, dst as int) == filled(
                                    mid,
                                    i,
                                    dst as int,
                                ),
                        decreases 10 - x,
                    {
                        let kind = self.cell(x, y);
                        let ghost step = self.blocks();
                        self.paint(x, dst, kind);
                        proof {
                            assert(in_field(x as int, y as int) && in_field(x as int, dst as int));
                            assert forall|i: int, j: int| in_field(i, j) && j != dst implies filled(
                                self.blocks(),
                                i,
                                j,
                            ) == filled(mid, i, j) by {
                                assert(filled(self.blocks(), i, j) == filled(step, i, j));
                            }
                            assert forall|i: int| 0 <= i < x + 1 implies filled(
                                self.blocks(),
                                i,
                                dst as int,
                            ) == filled(mid, i, y as int) by {
                                if i < x {
                                    assert(in_field(i, dst as int));
                                    assert(filled(self.blocks(), i, dst as int) == filled(
                                        step,
                                        i,
                                        dst as int,
                                    ));
                                } else {
                                    assert(filled(step, x as int, y as int) == filled(
                                        mid,
                                        x as int,
                                        y as int,
                                    ));
                                }
                            }
                            assert forall|i: int| x + 1 <= i < 10 implies filled(
                                self.blocks(),
                                i,
                                dst as int,
                            ) == filled(mid, i, dst as int) by {
                                assert(in_field(i, dst as int));
                                assert(filled(self.blocks(), i, dst as int) == filled(
                                    step,
                                    i,
                                    dst as int,
                                ));
                            }
                        }
                        x = x + 1;
                    }
                    proof {
                        assert forall|i: int, j: int|
                            in_field(i, j) && j < y + 1 && !row_full(
                                before,
                                piece.pos,
                                j,
                            ) implies filled(
                            self.blocks(),
                            i,
                            j - full_rows_below(before, piece.pos, j),
                        ) == filled(written, i, j) by {
                            if j < y {
                                lemma_full_rows_bounds(before, piece.pos, j, y as int);
                                assert(in_field(i, j - full_rows_below(before, piece.pos, j)));
                            } else {
                                assert(in_field(i, y as int));
                            }
                        }
                    }
                }
                dst = dst + 1;
            }
            y = y + 1;
        }
        let lines = 64 - dst;
        let mut top: usize = dst;
        let ghost packed = self.blocks();
        while top < 64
            invariant
                dst <= top <= 64,
                forall|i: int, j: int|
                    in_field(i, j) && j < dst ==> filled(self.blocks(), i, j) == filled(packed, i, j),
                forall|i: int, j: int| in_field(i, j) && dst <= j < top ==> !filled(self.blocks(), i, j),
            decreases 64 - top,
        {
            let mut x: usize = 0;
            while x < 10
                invariant
                    x <= 10,
                    dst <= top < 64,
                    forall|i: int, j: int|
                        in_field(i, j) && j < dst ==> filled(self.blocks(), i, j) == filled(
                            packed,
                            i,
                            j,
                        ),
                    forall|i: int, j: int|
                        in_field(i, j) && dst <= j < top ==> !filled(self.blocks(), i, j),
                    forall|i: int| 0 <= i < x ==> !filled(self.blocks(), i, top as int),
                decreases 10 - x,
            {
                let ghost step = self.blocks();
                self.paint(x, top, CellKind::Empty);
                proof {
                    assert forall|i: int, j: int| in_field(i, j) && j < dst implies filled(
                        self.blocks(),
                        i,
                        j,
                    ) == filled(packed, i, j) by {
                        assert(filled(self.blocks(), i, j) == filled(step, i, j));
                    }
                    assert forall|i: int, j: int| in_field(i, j) && dst <= j < top implies !filled(
                        self.blocks(),
                        i,
                        j,
                    ) by {
                        assert(filled(self.blocks(), i, j) == filled(step, i, j));
                    }
                    assert forall|i: int| 0 <= i < x + 1 implies !filled(
                        self.blocks(),
                        i,
                        top as int,
                    ) by {
                        if i < x {
                            assert(in_field(i, top as int));
                            assert(filled(self.blocks(), i, top as int) == filled(
                                step,
                                i,
                                top as int,
                            ));
                        }
                    }
                }
                x = x + 1;
            }
            top = top + 1;
        }
        proof {
            assert forall|x: int, j: int|
                in_field(x, j) && !row_full(before, piece.pos, j) implies filled(
                self.blocks(),
                x,
                j - full_rows_below(before, piece.pos, j),
            ) == filled_with(before, piece.pos, x, j) by {
                lemma_full_rows_bounds(before, piece.pos, j, 64);
                lemma_full_rows_bounds(before, piece.pos, j, j);
                assert(in_field(x, j - full_rows_below(before, piece.pos, j)));
            }
        }
        lines as u32
    }
}

} // verus!
