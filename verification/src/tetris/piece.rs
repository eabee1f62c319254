//! Pieces: kinds, orientations, positions and the moves a player can make.

use vstd::prelude::*;

verus! {

/// A single input that moves the piece in hand.
#[derive(Clone, Copy, Debug, PartialEq, Eq, Structural, Hash, PartialOrd, Ord)]
pub enum Instruction {
    Idle,
    Left,
    Right,
    Cw,
    Ccw,
    SonicDrop,
    Down,
    Up,
}

/// The seven tetromino kinds.
#[derive(Clone, Copy, Debug, PartialEq, Eq, Structural, Hash, PartialOrd, Ord)]
pub enum PieceKind {
    S,
    Z,
    J,
    L,
    T,
    O,
    I,
}

/// What a cell of a coloured board holds.
#[derive(Clone, Copy, Debug, PartialEq, Eq, Structural, Hash, PartialOrd, Ord)]
pub enum CellKind {
    Empty,
    S,
    Z,
    J,
    L,
    T,
    O,
    I,
    Gbg,
}

/// The four orientations of a piece.
#[derive(Clone, Copy, Debug, PartialEq, Eq, Structural, Hash, PartialOrd, Ord)]
pub enum Rotation {
    North,
    East,
    South,
    West,
}

/// How a rotation that ended in a tight spot is classified.
#[derive(Clone, Copy, Debug, PartialEq, Eq, Structural, Hash, PartialOrd, Ord)]
pub enum SpinKind {
    NoSpin,
    Mini,
    Full,
}

/// A piece on the board: its kind, the place of its centre and its orientation.
#[derive(Clone, Copy, Debug, PartialEq, Eq, Structural, Hash, PartialOrd, Ord)]
pub struct PiecePosition {
    pub kind: PieceKind,
    pub x: i8,
    pub y: i8,
    pub rot: Rotation,
}

/// A piece position together with the spin that brought it there.
#[derive(Clone, Copy, Debug, PartialEq, Eq, Structural, Hash, PartialOrd, Ord)]
pub struct PieceState {
    pub pos: PiecePosition,
    pub spin: SpinKind,
}

/// What a player does with the piece in hand.
#[derive(Clone, Copy, Debug, PartialEq, Eq, Structural, Hash, PartialOrd, Ord)]
pub enum Move {
    /// Put the piece into the empty hold slot.
    Hold,
    /// Lock the piece where it stands.
    Place(PieceState),
}

impl PieceKind {
    /// Position of the kind in the declaration order, from 0 to 6.
    pub open spec fn index(self) -> int {
        match self {
            PieceKind::S => 0,
            PieceKind::Z => 1,
            PieceKind::J => 2,
            PieceKind::L => 3,
            PieceKind::T => 4,
            PieceKind::O => 5,
            PieceKind::I => 6,
        }
    }

    /// The kind at a position of the declaration order.
    pub open spec fn of_index(i: int) -> PieceKind {
        if i == 0 {
            PieceKind::S
        } else if i == 1 {
            PieceKind::Z
        } else if i == 2 {
            PieceKind::J
        } else if i == 3 {
            PieceKind::L
        } else if i == 4 {
            PieceKind::T
        } else if i == 5 {
            PieceKind::O
        } else {
            PieceKind::I
        }
    }

    /// The index of the kind as a machine integer.
    pub fn ordinal(self) -> (r: u8)
        ensures
            r as int == self.index(),
            r < 7,
    {
        match self {
            PieceKind::S => 0,
            PieceKind::Z => 1,
            PieceKind::J => 2,
            PieceKind::L => 3,
            PieceKind::T => 4,
            PieceKind::O => 5,
            PieceKind::I => 6,
        }
    }

    /// The kind with the given index.
    pub fn from_ordinal(i: u8) -> (r: PieceKind)
        requires
            i < 7,
        ensures
            r == PieceKind::of_index(i as int),
            r.index() == i,
    {
        if i == 0 {
            PieceKind::S
        } else if i == 1 {
            PieceKind::Z
        } else if i == 2 {
            PieceKind::J
        } else if i == 3 {
            PieceKind::L
        } else if i == 4 {
            PieceKind::T
        } else if i == 5 {
            PieceKind::O
        } else {
            PieceKind::I
        }
    }

    /// The four cells of the kind in its north orientation, relative to its centre.
    pub open spec fn footprint(self) -> Seq<(i8, i8)> {
        match self {
            PieceKind::S => seq![(-1i8, 0i8), (0i8, 0i8), (0i8, 1i8), (1i8, 1i8)],
            PieceKind::Z => seq![(-1i8, 1i8), (0i8, 0i8), (0i8, 1i8), (1i8, 0i8)],
            PieceKind::J => seq![(-1i8, 0i8), (-1i8, 1i8), (0i8, 0i8), (1i8, 0i8)],
            PieceKind::L => seq![(-1i8, 0i8), (0i8, 0i8), (1i8, 0i8), (1i8, 1i8)],
            PieceKind::T => seq![(-1i8, 0i8), (0i8, 0i8), (0i8, 1i8), (1i8, 0i8)],
            PieceKind::O => seq![(0i8, 0i8), (1i8, 0i8), (0i8, 1i8), (1i8, 1i8)],
            PieceKind::I => seq![(-1i8, 0i8), (0i8, 0i8), (1i8, 0i8), (2i8, 0i8)],
        }
    }

    /// The five kick offsets of the kind in an orientation. The kicks tried by a
    /// rotation are the differences between the entries of the source and of the
    /// target orientation, in order.
    pub open spec fn kick_table(self, rotation: Rotation) -> Seq<(i8, i8)> {
        match self {
            PieceKind::O => match rotation {
                Rotation::North => seq![(0i8, 0i8), (0i8, 0i8), (0i8, 0i8), (0i8, 0i8), (0i8, 0i8)],
                Rotation::East => seq![
                    (0i8, -1i8),
                    (0i8, -1i8),
                    (0i8, -1i8),
                    (0i8, -1i8),
                    (0i8, -1i8),
                ],
                Rotation::South => seq![
                    (-1i8, -1i8),
                    (-1i8, -1i8),
                    (-1i8, -1i8),
                    (-1i8, -1i8),
                    (-1i8, -1i8),
                ],
                Rotation::West => seq![
                    (-1i8, 0i8),
                    (-1i8, 0i8),
                    (-1i8, 0i8),
                    (-1i8, 0i8),
                    (-1i8, 0i8),
                ],
            },
            PieceKind::I => match rotation {
                Rotation::North => seq![(0i8, 0i8), (-1i8, 0i8), (2i8, 0i8), (-1i8, 0i8), (2i8, 0i8)],
                Rotation::East => seq![(-1i8, 0i8), (0i8, 0i8), (0i8, 0i8), (0i8, 1i8), (0i8, -2i8)],
                Rotation::South => seq![
                    (-1i8, 1i8),
                    (1i8, 1i8),
                    (-2i8, 1i8),
                    (1i8, 0i8),
                    (-2i8, 0i8),
                ],
                Rotation::West => seq![(0i8, 1i8), (0i8, 1i8), (0i8, 1i8), (0i8, -1i8), (0i8, 2i8)],
            },
            _ => match rotation {
                Rotation::North => seq![(0i8, 0i8), (0i8, 0i8), (0i8, 0i8), (0i8, 0i8), (0i8, 0i8)],
                Rotation::East => seq![(0i8, 0i8), (1i8, 0i8), (1i8, -1i8), (0i8, 2i8), (1i8, 2i8)],
                Rotation::South => seq![(0i8, 0i8), (0i8, 0i8), (0i8, 0i8), (0i8, 0i8), (0i8, 0i8)],
                Rotation::West => seq![
                    (0i8, 0i8),
                    (-1i8, 0i8),
                    (-1i8, -1i8),
                    (0i8, 2i8),
                    (-1i8, 2i8),
                ],
            },
        }
    }

    /// The footprint of the kind.
    pub fn cells(&self) -> (r: [(i8, i8); 4])
        ensures
            r@ == self.footprint(),
    {
        let r: [(i8, i8); 4] = match self {
            PieceKind::S => [(-1, 0), (0, 0), (0, 1), (1, 1)],
            PieceKind::Z => [(-1, 1), (0, 0), (0, 1), (1, 0)],
            PieceKind::J => [(-1, 0), (-1, 1), (0, 0), (1, 0)],
            PieceKind::L => [(-1, 0), (0, 0), (1, 0), (1, 1)],
            PieceKind::T => [(-1, 0), (0, 0), (0, 1), (1, 0)],
            PieceKind::O => [(0, 0), (1, 0), (0, 1), (1, 1)],
            PieceKind::I => [(-1, 0), (0, 0), (1, 0), (2, 0)],
        };
        assert(r@ =~= self.footprint());
        r
    }

    /// The kick table of the kind in an orientation.
    pub fn rotation_offsets(&self, rotation: Rotation) -> (r: [(i8, i8); 5])
        ensures
            r@ == self.kick_table(rotation),
    {
        let r: [(i8, i8); 5] = match self {
            PieceKind::O => match rotation {
                Rotation::North => [(0, 0), (0, 0), (0, 0), (0, 0), (0, 0)],
                Rotation::East => [(0, -1), (0, -1), (0, -1), (0, -1), (0, -1)],
                Rotation::South => [(-1, -1), (-1, -1), (-1, -1), (-1, -1), (-1, -1)],
                Rotation::West => [(-1, 0), (-1, 0), (-1, 0), (-1, 0), (-1, 0)],
            },
            PieceKind::I => match rotation {
                Rotation::North => [(0, 0), (-1, 0), (2, 0), (-1, 0), (2, 0)],
                Rotation::East => [(-1, 0), (0, 0), (0, 0), (0, 1), (0, -2)],
                Rotation::South => [(-1, 1), (1, 1), (-2, 1), (1, 0), (-2, 0)],
                Rotation::West => [(0, 1), (0, 1), (0, 1), (0, -1), (0, 2)],
            },
            _ => match rotation {
                Rotation::North => [(0, 0), (0, 0), (0, 0), (0, 0), (0, 0)],
                Rotation::East => [(0, 0), (1, 0), (1, -1), (0, 2), (1, 2)],
                Rotation::South => [(0, 0), (0, 0), (0, 0), (0, 0), (0, 0)],
                Rotation::West => [(0, 0), (-1, 0), (-1, -1), (0, 2), (-1, 2)],
            },
        };
        assert(r@ =~= self.kick_table(rotation));
        r
    }
}

impl CellKind {
    /// The colour that a piece of the given kind leaves on the board.
    pub open spec fn of_piece(kind: PieceKind) -> CellKind {
        match kind {
            PieceKind::S => CellKind::S,
            PieceKind::Z => CellKind::Z,
            PieceKind::J => CellKind::J,
            PieceKind::L => CellKind::L,
            PieceKind::T => CellKind::T,
            PieceKind::O => CellKind::O,
            PieceKind::I => CellKind::I,
        }
    }

    /// The colour that a piece of the given kind leaves on the board.
    pub fn from_piece(value: PieceKind) -> (r: CellKind)
        ensures
            r == CellKind::of_piece(value),
            r != CellKind::Empty,
    {
        match value {
            PieceKind::S => CellKind::S,
            PieceKind::Z => CellKind::Z,
            PieceKind::J => CellKind::J,
            PieceKind::L => CellKind::L,
            PieceKind::T => CellKind::T,
            PieceKind::O => CellKind::O,
            PieceKind::I => CellKind::I,
        }
    }
}

impl Rotation {
    /// Position of the orientation in the declaration order, from 0 to 3.
    pub open spec fn index(self) -> int {
        match self {
            Rotation::North => 0,
            Rotation::East => 1,
            Rotation::South => 2,
            Rotation::West => 3,
        }
    }

    /// The index of the orientation as a machine integer.
    pub fn ordinal(self) -> (r: u8)
        ensures
            r as int == self.index(),
            r < 4,
    {
        match self {
            Rotation::North => 0,
            Rotation::East => 1,
            Rotation::South => 2,
            Rotation::West => 3,
        }
    }

    /// Where an offset from the centre lies once the piece has this orientation.
    pub open spec fn turned(self, x: int, y: int) -> (int, int) {
        match self {
            Rotation::North => (x, y),
            Rotation::East => (y, -x),
            Rotation::South => (-x, y),
            Rotation::West => (-y, x),
        }
    }

    /// The orientation after a quarter turn, clockwise or counter-clockwise.
    pub open spec fn quarter_turn(self, clockwise: bool) -> Rotation {
        if clockwise {
            match self {
                Rotation::North => Rotation::East,
                Rotation::East => Rotation::South,
                Rotation::South => Rotation::West,
                Rotation::West => Rotation::North,
            }
        } else {
            match self {
                Rotation::North => Rotation::West,
                Rotation::East => Rotation::North,
                Rotation::South => Rotation::East,
                Rotation::West => Rotation::South,
            }
        }
    }

    /// Turns an offset from the centre into this orientation.
    pub fn rotate_cell(&self, cell: (i8, i8)) -> (r: (i8, i8))
        requires
            cell.0 > i8::MIN,
            cell.1 > i8::MIN,
        ensures
            (r.0 as int, r.1 as int) == self.turned(cell.0 as int, cell.1 as int),
    {
        let x = cell.0;
        let y = cell.1;
        match self {
            Rotation::North => (x, y),
            Rotation::East => (y, -x),
            Rotation::South => (-x, y),
            Rotation::West => (-y, x),
        }
    }

    /// The orientation after a quarter turn.
    pub fn rotated(&self, clockwise: bool) -> (r: Rotation)
        ensures
            r == self.quarter_turn(clockwise),
    {
        if clockwise {
            match self {
                Rotation::North => Rotation::East,
                Rotation::East => Rotation::South,
                Rotation::South => Rotation::West,
                Rotation::West => Rotation::North,
            }
        } else {
            match self {
                Rotation::North => Rotation::West,
                Rotation::East => Rotation::North,
                Rotation::South => Rotation::East,
                Rotation::West => Rotation::South,
            }
        }
    }
}

impl PiecePosition {
    /// The `i`-th cell that the piece covers, as board coordinates.
    pub open spec fn cell(self, i: int) -> (int, int) {
        let o = self.kind.footprint()[i];
        let t = self.rot.turned(o.0 as int, o.1 as int);
        (t.0 + self.x, t.1 + self.y)
    }

    /// True if the centre is so close to the field that the coordinates of the
    /// cells, of their neighbours and of every kicked position fit the machine
    /// type.
    pub open spec fn representable(self) -> bool {
        -100 <= self.x <= 100 && -100 <= self.y <= 100
    }

    /// The cells of a piece close to the field fit the machine's numbers.
    pub proof fn lemma_near_fits(self)
        requires
            self.representable(),
        ensures
            self.fits(),
    {
    }

    /// The position moved by an offset.
    pub open spec fn shifted(self, dx: int, dy: int) -> PiecePosition
        recommends
            i8::MIN <= self.x + dx <= i8::MAX,
            i8::MIN <= self.y + dy <= i8::MAX,
    {
        PiecePosition { kind: self.kind, x: (self.x + dx) as i8, y: (self.y + dy) as i8, rot: self.rot }
    }

    /// True if the coordinates of the four cells fit the machine's numbers.
    pub open spec fn fits(self) -> bool {
        &&& i8::MIN <= self.cell(0).0 <= i8::MAX && i8::MIN <= self.cell(0).1 <= i8::MAX
        &&& i8::MIN <= self.cell(1).0 <= i8::MAX && i8::MIN <= self.cell(1).1 <= i8::MAX
        &&& i8::MIN <= self.cell(2).0 <= i8::MAX && i8::MIN <= self.cell(2).1 <= i8::MAX
        &&& i8::MIN <= self.cell(3).0 <= i8::MAX && i8::MIN <= self.cell(3).1 <= i8::MAX
    }

    /// The four board cells that the piece covers.
    pub fn cells(&self) -> (r: [(i8, i8); 4])
        requires
            self.fits(),
        ensures
            forall|i: int| 0 <= i < 4 ==> (#[trigger] r[i].0 as int, r[i].1 as int) == self.cell(i),
    {
        let base = self.kind.cells();
        let c0 = self.rot.rotate_cell(base[0]);
        let c1 = self.rot.rotate_cell(base[1]);
        let c2 = self.rot.rotate_cell(base[2]);
        let c3 = self.rot.rotate_cell(base[3]);
        [
            (c0.0 + self.x, c0.1 + self.y),
            (c1.0 + self.x, c1.1 + self.y),
            (c2.0 + self.x, c2.1 + self.y),
            (c3.0 + self.x, c3.1 + self.y),
        ]
    }

    /// The position moved by `delta`.
    pub fn translate(&self, delta: (i8, i8)) -> (r: PiecePosition)
        requires
            i8::MIN <= self.x + delta.0 <= i8::MAX,
            i8::MIN <= self.y + delta.1 <= i8::MAX,
        ensures
            r == self.shifted(delta.0 as int, delta.1 as int),
    {
        PiecePosition { kind: self.kind, x: self.x + delta.0, y: self.y + delta.1, rot: self.rot }
    }
}

impl PieceState {
    /// A piece at a place, with no spin.
    pub fn new(kind: PieceKind, at: (i8, i8), rot: Rotation) -> (r: PieceState)
        ensures
            r == (PieceState {
                pos: PiecePosition { kind, x: at.0, y: at.1, rot },
                spin: SpinKind::NoSpin,
            }),
    {
        PieceState { pos: PiecePosition { kind, x: at.0, y: at.1, rot }, spin: SpinKind::NoSpin }
    }

    /// The piece at the place that an offset leads to, with the spin it has.
    pub open spec fn shifted(self, dx: int, dy: int) -> PieceState {
        PieceState { pos: self.pos.shifted(dx, dy), spin: self.spin }
    }

    /// The piece moved by `delta`. Only the place changes: the piece keeps
    /// its spin.
    pub fn translate(self, delta: (i8, i8)) -> (r: PieceState)
        requires
            i8::MIN <= self.pos.x + delta.0 <= i8::MAX,
            i8::MIN <= self.pos.y + delta.1 <= i8::MAX,
        ensures
            r == self.shifted(delta.0 as int, delta.1 as int),
            r.pos == self.pos.shifted(delta.0 as int, delta.1 as int),
            r.spin == self.spin,
    {
        PieceState { pos: self.pos.translate(delta), spin: self.spin }
    }
}

} // verus!
