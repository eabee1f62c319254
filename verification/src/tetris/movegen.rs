//! The move generator: a best-first search over the positions that the piece
//! in hand can reach, and the placements they lead to.

use super::board::{collides_at, covers, in_field, Board};
use super::piece::{Instruction, Move, PieceKind, PiecePosition, PieceState, SpinKind};
use super::state::{
    dropped, lemma_cell_bounds, lemma_dropped_rests, rotate_from, rotate_of, spawn_of, strafe_of,
    GameState,
};
use std::collections::HashMap;
use vstd::prelude::*;

verus! {

broadcast use vstd::std_specs::hash::group_hash_axioms;

/// The deepest step that is still followed.
pub const MAX_DEPTH: u16 = 32;

/// The highest cumulative cost at which a piece other than T is still followed.
pub const MAX_NON_T_COST: u16 = 20;

/// A position reached by the search, with the way that led to it.
#[derive(Clone, Copy, Debug)]
pub struct Step {
    /// The piece as it stands.
    pub piece: PieceState,
    /// The position it came from; none for a spawn.
    pub parent: Option<PiecePosition>,
    /// The input that led here; none for a spawn.
    pub instruction: Option<Instruction>,
    /// The cumulative cost of the inputs.
    pub cost: u16,
    /// The number of inputs.
    pub depth: u16,
}

/// A placement named by the cells it fills: the four cells in ascending
/// order, and the spin.
#[derive(Clone, Copy, Debug, PartialEq, Eq, Hash)]
pub struct Placement(pub [(i8, i8); 4], pub SpinKind);

/// The inputs that lead to a placement.
#[derive(Clone, Debug, PartialEq, Eq, Hash)]
pub enum Path {
    /// The piece only goes to the hold slot.
    HoldOnly,
    Normal {
        /// True if the piece comes out of the hold slot.
        hold: bool,
        /// The cost of the inputs up to the position above the placement.
        cost: u16,
        /// The inputs, from the spawn on.
        instructions: Vec<Instruction>,
        /// The piece as it locks.
        piece: PieceState,
    },
}

/// The number by which a position is looked up.
pub open spec fn key_of(pos: PiecePosition) -> int {
    ((pos.kind.index() * 4 + pos.rot.index()) * 256 + (pos.x + 128)) * 256 + (pos.y + 128)
}

/// One more than the largest position key.
pub open spec fn key_space() -> int {
    1835008int
}

/// Two positions with one key are the same.
pub proof fn lemma_key_injective(p: PiecePosition, q: PiecePosition)
    ensures
        0 <= key_of(p) < key_space(),
        key_of(p) == key_of(q) ==> p == q,
{
    let a = p.kind.index() * 4 + p.rot.index();
    let b = q.kind.index() * 4 + q.rot.index();
    let a2 = a * 256 + (p.x + 128);
    let b2 = b * 256 + (q.x + 128);
    if key_of(p) == key_of(q) {
        assert(a2 == b2);
        assert(a == b);
    }
}

/// The key of a position.
pub fn position_key(pos: PiecePosition) -> (k: u32)
    ensures
        k as int == key_of(pos),
{
    let a: u32 = pos.kind.ordinal() as u32 * 4 + pos.rot.ordinal() as u32;
    let x: u32 = (pos.x as i32 + 128) as u32;
    let y: u32 = (pos.y as i32 + 128) as u32;
    (a * 256 + x) * 256 + y
}

/// The number that stands for a cell inside the field.
pub open spec fn cell_code(c: (int, int)) -> int {
    c.0 * 64 + c.1
}

/// The smallest of four numbers.
#[verifier::opaque]
pub open spec fn rank0(a: int, b: int, c: int, d: int) -> int {
    if a <= b && a <= c && a <= d {
        a
    } else if b <= c && b <= d {
        b
    } else if c <= d {
        c
    } else {
        d
    }
}

/// The largest of four numbers.
#[verifier::opaque]
pub open spec fn rank3(a: int, b: int, c: int, d: int) -> int {
    if a >= b && a >= c && a >= d {
        a
    } else if b >= c && b >= d {
        b
    } else if c >= d {
        c
    } else {
        d
    }
}

/// The second smallest of four numbers.
#[verifier::opaque]
pub open spec fn rank1(a: int, b: int, c: int, d: int) -> int {
    let lo = rank0(a, b, c, d);
    if a == lo {
        rank0(b, c, d, d)
    } else if b == lo {
        rank0(a, c, d, d)
    } else if c == lo {
        rank0(a, b, d, d)
    } else {
        rank0(a, b, c, c)
    }
}

/// The second largest of four numbers.
#[verifier::opaque]
pub open spec fn rank2(a: int, b: int, c: int, d: int) -> int {
    a + b + c + d - rank0(a, b, c, d) - rank1(a, b, c, d) - rank3(a, b, c, d)
}

/// The index of a spin.
pub open spec fn spin_index(s: SpinKind) -> int {
    match s {
        SpinKind::NoSpin => 0,
        SpinKind::Mini => 1,
        SpinKind::Full => 2,
    }
}

/// The number that names the landing of a piece: the codes of its four cells
/// in ascending order, and its spin. It does not depend on the order in
/// which the piece lists its cells.
pub open spec fn landing_key(piece: PieceState) -> int {
    let a = cell_code(piece.pos.cell(0));
    let b = cell_code(piece.pos.cell(1));
    let c = cell_code(piece.pos.cell(2));
    let d = cell_code(piece.pos.cell(3));
    key_of_codes(a, b, c, d, piece.spin)
}

/// True if `x` is one of four numbers.
pub open spec fn among(x: int, a: int, b: int, c: int, d: int) -> bool {
    x == a || x == b || x == c || x == d
}

/// The four numbers in ascending order are the same for two lists of four
/// different numbers each that hold the same numbers.
pub proof fn lemma_ranks_symmetric(
    a: int,
    b: int,
    c: int,
    d: int,
    e: int,
    f: int,
    g: int,
    h: int,
)
    requires
        a != b && a != c && a != d && b != c && b != d && c != d,
        e != f && e != g && e != h && f != g && f != h && g != h,
        among(a, e, f, g, h) && among(b, e, f, g, h) && among(c, e, f, g, h) && among(
            d,
            e,
            f,
            g,
            h,
        ),
    ensures
        rank0(a, b, c, d) == rank0(e, f, g, h),
        rank1(a, b, c, d) == rank1(e, f, g, h),
        rank2(a, b, c, d) == rank2(e, f, g, h),
        rank3(a, b, c, d) == rank3(e, f, g, h),
{
    reveal(rank0);
    reveal(rank1);
    reveal(rank2);
    reveal(rank3);
    assert(among(e, a, b, c, d) && among(f, a, b, c, d) && among(g, a, b, c, d) && among(
        h,
        a,
        b,
        c,
        d,
    ));
    assert(a + b + c + d == e + f + g + h);
}

/// The four cells of a piece are different cells.
pub proof fn lemma_cells_distinct(pos: PiecePosition)
    ensures
        pos.cell(0) != pos.cell(1),
        pos.cell(0) != pos.cell(2),
        pos.cell(0) != pos.cell(3),
        pos.cell(1) != pos.cell(2),
        pos.cell(1) != pos.cell(3),
        pos.cell(2) != pos.cell(3),
{
}

/// The canonical key of a piece, from the codes of its cells.
pub open spec fn key_of_codes(a: int, b: int, c: int, d: int, spin: SpinKind) -> int {
    rank0(a, b, c, d) + 1024 * rank1(a, b, c, d) + 1024 * 1024 * rank2(a, b, c, d) + 1024 * 1024
        * 1024 * rank3(a, b, c, d) + 1024 * 1024 * 1024 * 1024 * spin_index(spin)
}

/// The codes of the cells of a piece inside the field are different numbers
/// below 640.
pub proof fn lemma_cell_codes(b: Set<(int, int)>, pos: PiecePosition) -> (codes: (
    int,
    int,
    int,
    int,
))
    requires
        !collides_at(b, pos),
    ensures
        codes.0 == cell_code(pos.cell(0)),
        codes.1 == cell_code(pos.cell(1)),
        codes.2 == cell_code(pos.cell(2)),
        codes.3 == cell_code(pos.cell(3)),
        0 <= codes.0 < 640 && 0 <= codes.1 < 640 && 0 <= codes.2 < 640 && 0 <= codes.3 < 640,
        codes.0 != codes.1 && codes.0 != codes.2 && codes.0 != codes.3 && codes.1 != codes.2
            && codes.1 != codes.3 && codes.2 != codes.3,
{
    lemma_free_piece_near(b, pos);
    lemma_cells_distinct(pos);
    assert(in_field(pos.cell(0).0, pos.cell(0).1));
    assert(in_field(pos.cell(1).0, pos.cell(1).1));
    assert(in_field(pos.cell(2).0, pos.cell(2).1));
    assert(in_field(pos.cell(3).0, pos.cell(3).1));
    (
        cell_code(pos.cell(0)),
        cell_code(pos.cell(1)),
        cell_code(pos.cell(2)),
        cell_code(pos.cell(3)),
    )
}

/// The canonical key names the cells and the spin of a landing, whatever
/// piece fills them: two pieces inside the field with the same spin that
/// fill the same cells have the same key.
pub proof fn lemma_landing_key_canonical(b: Set<(int, int)>, p: PieceState, q: PieceState)
    requires
        !collides_at(b, p.pos),
        !collides_at(b, q.pos),
        p.spin == q.spin,
        covers(q.pos, p.pos.cell(0).0, p.pos.cell(0).1),
        covers(q.pos, p.pos.cell(1).0, p.pos.cell(1).1),
        covers(q.pos, p.pos.cell(2).0, p.pos.cell(2).1),
        covers(q.pos, p.pos.cell(3).0, p.pos.cell(3).1),
    ensures
        landing_key(p) == landing_key(q),
{
    let x = lemma_cell_codes(b, p.pos);
    let y = lemma_cell_codes(b, q.pos);
    assert(among(x.0, y.0, y.1, y.2, y.3));
    assert(among(x.1, y.0, y.1, y.2, y.3));
    assert(among(x.2, y.0, y.1, y.2, y.3));
    assert(among(x.3, y.0, y.1, y.2, y.3));
    lemma_ranks_symmetric(x.0, x.1, x.2, x.3, y.0, y.1, y.2, y.3);
    assert(landing_key(p) == key_of_codes(x.0, x.1, x.2, x.3, p.spin));
    assert(landing_key(q) == key_of_codes(y.0, y.1, y.2, y.3, q.spin));
}

/// Where an input takes a piece, if anywhere.
#[verifier::opaque]
pub open spec fn step_target(b: Set<(int, int)>, piece: PieceState, ins: Instruction) -> Option<
    PieceState,
> {
    match ins {
        Instruction::Left => strafe_of(b, piece, -1, 0),
        Instruction::Right => strafe_of(b, piece, 1, 0),
        Instruction::Down => strafe_of(b, piece, 0, -1),
        Instruction::Up => strafe_of(b, piece, 0, 1),
        Instruction::Cw => if piece.pos.kind == PieceKind::O {
            None
        } else {
            rotate_of(b, piece, true)
        },
        Instruction::Ccw => if piece.pos.kind == PieceKind::O {
            None
        } else {
            rotate_of(b, piece, false)
        },
        Instruction::SonicDrop => if dropped(b, piece).pos.y != piece.pos.y {
            Some(dropped(b, piece))
        } else {
            None
        },
        Instruction::Idle => None,
    }
}

/// The cost of an input: a sonic drop costs three times the distance fallen,
/// an input that repeats the one before costs two, any other costs one.
pub open spec fn move_cost(
    prev: Option<Instruction>,
    ins: Instruction,
    from: PieceState,
    to: PieceState,
) -> int {
    if ins == Instruction::SonicDrop {
        3 * (from.pos.y - to.pos.y)
    } else if prev == Some(ins) {
        2
    } else {
        1
    }
}

/// True if a step of the given depth and cumulative cost is followed: a
/// branch is given up beyond depth 32, and beyond cost 20 unless the piece is T.
pub open spec fn admitted(kind: PieceKind, cost: int, depth: int) -> bool {
    depth <= MAX_DEPTH && (kind == PieceKind::T || cost <= MAX_NON_T_COST)
}

/// A placement that the search has found: the piece as it locks, the reached
/// position above it, and the cost of reaching that position.
pub type Landing = (PieceState, PiecePosition, u16);

/// The result of a search for the placements of the piece in hand.
pub struct MoveGenerator {
    head_piece: PieceKind,
    /// The steps by which each reached position was first reached.
    tree: HashMap<u32, Step>,
    /// The reached positions whose neighbours are yet to be looked at.
    next: Vec<Step>,
    /// The placements found, each canonical key once, in the order found.
    locked: Vec<Landing>,
    /// For each canonical key, the place of its placement in `locked`.
    locked_keys: HashMap<u64, usize>,
    hold_only_move: bool,
    /// The board searched.
    field: Ghost<Set<(int, int)>>,
    /// The kinds whose spawn the search started from.
    kinds: Ghost<Set<PieceKind>>,
}

impl MoveGenerator {
    /// The board that was searched.
    pub closed spec fn board(&self) -> Set<(int, int)> {
        self.field@
    }

    /// The reached positions, by key, each with its step.
    pub closed spec fn reached(&self) -> Map<u32, Step> {
        self.tree@
    }

    /// The steps whose neighbours are yet to be looked at.
    pub closed spec fn pending(&self) -> Seq<Step> {
        self.next@
    }

    /// The placements found, in the order found.
    pub closed spec fn landings(&self) -> Seq<Landing> {
        self.locked@
    }

    /// The place of each canonical key among the placements.
    pub closed spec fn landing_index(&self) -> Map<u64, usize> {
        self.locked_keys@
    }

    /// The kinds whose spawn the search started from.
    pub closed spec fn searched(&self) -> Set<PieceKind> {
        self.kinds@
    }

    /// The kind of the piece at the head of the queue.
    pub closed spec fn first_kind(&self) -> PieceKind {
        self.head_piece
    }

    /// True if the piece in hand may go to the empty hold slot.
    pub closed spec fn offers_hold(&self) -> bool {
        self.hold_only_move
    }

    /// True if `pos` has been reached.
    pub open spec fn reaches(&self, pos: PiecePosition) -> bool {
        self.reached().contains_key(key_of(pos) as u32)
    }

    /// The step by which `pos` was reached.
    pub open spec fn step_at(&self, pos: PiecePosition) -> Step {
        self.reached()[key_of(pos) as u32]
    }

    /// True if the step stored under key `k` stands on a free position close
    /// to the field and within the limits of the search.
    #[verifier::opaque]
    pub open spec fn entry_sound(&self, k: u32) -> bool {
        let s = self.reached()[k];
        &&& k as int == key_of(s.piece.pos)
        &&& self.searched().contains(s.piece.pos.kind)
        &&& s.piece.pos.representable()
        &&& !collides_at(self.board(), s.piece.pos)
        &&& s.depth <= MAX_DEPTH
        &&& s.cost <= 189 * s.depth
    }

    /// True if the step stored under key `k` is a spawn, or follows by one
    /// admitted input from the step of its parent.
    #[verifier::opaque]
    pub open spec fn entry_linked(&self, k: u32) -> bool {
        let s = self.reached()[k];
        match s.parent {
            None => {
                &&& s.cost == 0
                &&& s.depth == 0
                &&& s.instruction is None
                &&& spawn_of(self.board(), s.piece.pos.kind) == Some(s.piece)
            },
            Some(q) => {
                &&& self.reaches(q)
                &&& s.instruction matches Some(ins)
                &&& step_target(self.board(), self.step_at(q).piece, ins) == Some(s.piece)
                &&& s.cost == self.step_at(q).cost + move_cost(
                    self.step_at(q).instruction,
                    ins,
                    self.step_at(q).piece,
                    s.piece,
                )
                &&& s.depth == self.step_at(q).depth + 1
                &&& admitted(s.piece.pos.kind, s.cost as int, s.depth as int)
            },
        }
    }

    /// True if the step stored under key `k` still waits to be looked at.
    pub open spec fn waits(&self, k: u32) -> bool {
        exists|i: int|
            0 <= i < self.pending().len() && key_of(#[trigger] self.pending()[i].piece.pos) == k
    }

    /// True if the input `ins`, applied at the step `s`, leads nowhere, is
    /// given up, or leads to a reached position.
    pub open spec fn follows(&self, s: Step, ins: Instruction) -> bool {
        step_target(self.board(), s.piece, ins) matches Some(t) ==> (admitted(
            t.pos.kind,
            s.cost + move_cost(s.instruction, ins, s.piece, t),
            s.depth + 1,
        ) ==> self.reaches(t.pos))
    }

    /// True if every admitted input at the step under key `k` leads to a
    /// reached position, and the placement below it has been recorded.
    #[verifier::opaque]
    pub open spec fn settled(&self, k: u32) -> bool {
        &&& forall|ins: Instruction| #[trigger] self.follows(self.reached()[k], ins)
        &&& self.landing_index().contains_key(
            landing_key(dropped(self.board(), self.reached()[k].piece)) as u64,
        )
    }

    /// True if the placement at place `j` is the fall of a reached position,
    /// with the cost of reaching it, and is indexed by its canonical key.
    #[verifier::opaque]
    pub open spec fn landing_sound(&self, j: int) -> bool {
        let e = self.landings()[j];
        &&& self.reaches(e.1)
        &&& e.0 == dropped(self.board(), self.step_at(e.1).piece)
        &&& e.2 == self.step_at(e.1).cost
        &&& self.landing_index().contains_key(landing_key(e.0) as u64)
        &&& self.landing_index()[landing_key(e.0) as u64] == j
    }

    /// The invariant of the search. `hole` is the key of the step that is
    /// being looked at, which neither waits nor is settled, or -1.
    pub open spec fn inv(&self, hole: int) -> bool {
        &&& forall|k: u32| #[trigger]
            self.reached().contains_key(k) ==> self.entry_sound(k) && self.entry_linked(k)
        &&& forall|k: u32| #[trigger]
            self.reached().contains_key(k) ==> k == hole || self.waits(k) || self.settled(k)
        &&& forall|i: int|
            0 <= i < self.pending().len() ==> self.reaches(
                #[trigger] self.pending()[i].piece.pos,
            ) && self.step_at(self.pending()[i].piece.pos) == self.pending()[i]
        &&& forall|j: int| 0 <= j < self.landings().len() ==> #[trigger] self.landing_sound(j)
        &&& forall|c: u64| #[trigger]
            self.landing_index().contains_key(c) ==> self.landing_index()[c]
                < self.landings().len() && landing_key(
                self.landings()[self.landing_index()[c] as int].0,
            ) == c
    }

    /// True once the search is complete: the invariant holds and nothing waits.
    pub open spec fn complete(&self) -> bool {
        self.inv(-1) && self.pending().len() == 0
    }

    /// The moves found, without their costs.
    pub open spec fn move_seq(&self) -> Seq<Move> {
        Seq::new(self.move_list().len(), |j: int| self.move_list()[j].0)
    }

    /// The moves that the placements and the hold offer stand for.
    pub open spec fn move_list(&self) -> Seq<(Move, u16)> {
        let places = Seq::new(
            self.landings().len(),
            |j: int| (Move::Place(self.landings()[j].0), self.landings()[j].2),
        );
        if self.offers_hold() {
            places.push((Move::Hold, 0u16))
        } else {
            places
        }
    }
}

/// A piece that does not collide stands close to the field.
pub proof fn lemma_free_piece_near(b: Set<(int, int)>, pos: PiecePosition)
    requires
        !collides_at(b, pos),
    ensures
        -2 <= pos.x <= 11,
        -2 <= pos.y <= 65,
        pos.representable(),
        forall|i: int| 0 <= i < 4 ==> in_field(#[trigger] pos.cell(i).0, pos.cell(i).1),
{
    lemma_cell_bounds(pos, 0);
    lemma_cell_bounds(pos, 1);
    lemma_cell_bounds(pos, 2);
    lemma_cell_bounds(pos, 3);
}

/// A quarter turn that succeeds ends on a free position of the same kind.
pub proof fn lemma_rotate_sound(
    b: Set<(int, int)>,
    piece: PieceState,
    clockwise: bool,
    i: int,
)
    requires
        0 <= i <= 5,
    ensures
        rotate_from(b, piece, clockwise, i) matches Some(t) ==> !collides_at(b, t.pos)
            && t.pos.kind == piece.pos.kind,
    decreases 5 - i,
{
    if i < 5 {
        lemma_rotate_sound(b, piece, clockwise, i + 1);
    }
}

/// Where each input takes a piece.
pub proof fn lemma_targets(b: Set<(int, int)>, piece: PieceState)
    ensures
        step_target(b, piece, Instruction::Left) == strafe_of(b, piece, -1, 0),
        step_target(b, piece, Instruction::Right) == strafe_of(b, piece, 1, 0),
        step_target(b, piece, Instruction::Down) == strafe_of(b, piece, 0, -1),
        step_target(b, piece, Instruction::Up) == strafe_of(b, piece, 0, 1),
        step_target(b, piece, Instruction::Cw) == (if piece.pos.kind == PieceKind::O {
            None
        } else {
            rotate_of(b, piece, true)
        }),
        step_target(b, piece, Instruction::Ccw) == (if piece.pos.kind == PieceKind::O {
            None
        } else {
            rotate_of(b, piece, false)
        }),
        step_target(b, piece, Instruction::SonicDrop) == (if dropped(b, piece).pos.y
            != piece.pos.y {
            Some(dropped(b, piece))
        } else {
            None
        }),
        step_target(b, piece, Instruction::Idle) is None,
{
    reveal(step_target);
}

/// An input takes a free piece to a free position of the same kind; a sonic
/// drop makes it fall by at least one and at most 63 rows.
pub proof fn lemma_step_sound(b: Set<(int, int)>, piece: PieceState, ins: Instruction)
    requires
        !collides_at(b, piece.pos),
    ensures
        step_target(b, piece, ins) matches Some(t) ==> {
            &&& !collides_at(b, t.pos)
            &&& t.pos.kind == piece.pos.kind
            &&& ins == Instruction::SonicDrop ==> 1 <= piece.pos.y - t.pos.y <= 63
        },
{
    reveal(step_target);
    lemma_free_piece_near(b, piece.pos);
    lemma_rotate_sound(b, piece, true, 0);
    lemma_rotate_sound(b, piece, false, 0);
    lemma_dropped_rests(b, piece);
}

/// The canonical key of a piece inside the field fits 42 bits.
pub proof fn lemma_landing_key_bounds(b: Set<(int, int)>, piece: PieceState)
    requires
        !collides_at(b, piece.pos),
    ensures
        0 <= landing_key(piece) < 0x400_0000_0000,
{
    reveal(rank0);
    reveal(rank1);
    reveal(rank2);
    reveal(rank3);
    lemma_free_piece_near(b, piece.pos);
    let a = cell_code(piece.pos.cell(0));
    let bb = cell_code(piece.pos.cell(1));
    let c = cell_code(piece.pos.cell(2));
    let d = cell_code(piece.pos.cell(3));
    assert(in_field(piece.pos.cell(0).0, piece.pos.cell(0).1));
    assert(in_field(piece.pos.cell(1).0, piece.pos.cell(1).1));
    assert(in_field(piece.pos.cell(2).0, piece.pos.cell(2).1));
    assert(in_field(piece.pos.cell(3).0, piece.pos.cell(3).1));
    assert(0 <= a < 640 && 0 <= bb < 640 && 0 <= c < 640 && 0 <= d < 640);
    assert(0 <= rank0(a, bb, c, d) < 640);
    assert(0 <= rank1(a, bb, c, d) < 640);
    assert(0 <= rank3(a, bb, c, d) < 640);
    assert(0 <= rank2(a, bb, c, d) < 640);
    let s = spin_index(piece.spin);
    assert(0 <= s <= 2);
    let r0 = rank0(a, bb, c, d);
    let r1 = rank1(a, bb, c, d);
    let r2 = rank2(a, bb, c, d);
    let r3 = rank3(a, bb, c, d);
    assert(landing_key(piece) == r0 + 1024 * r1 + 1048576 * r2 + 1073741824 * r3 + 1099511627776
        * s);
}

/// A finite set of keys below `n` has at most `n` elements.
pub proof fn lemma_keys_bounded(s: Set<u32>, n: u32)
    requires
        s.finite(),
        forall|k: u32| s.contains(k) ==> k < n,
    ensures
        s.len() <= n,
    decreases n,
{
    if n == 0 {
        assert(s =~= Set::<u32>::empty());
    } else {
        let top = (n - 1) as u32;
        lemma_keys_bounded(s.remove(top), top);
    }
}

impl Placement {
    /// The code of a cell inside the field.
    fn code(c: (i8, i8)) -> (r: u64)
        requires
            in_field(c.0 as int, c.1 as int),
        ensures
            r as int == cell_code((c.0 as int, c.1 as int)),
            r < 640,
    {
        (c.0 as u64) * 64 + (c.1 as u64)
    }

    /// The canonical form of the landing of a piece that stands inside the
    /// field: its cells in ascending order, and its spin.
    #[verifier::rlimit(50)]
    pub fn of(piece: &PieceState) -> (r: Placement)
        requires
            piece.pos.representable(),
            forall|i: int| 0 <= i < 4 ==> in_field(#[trigger] piece.pos.cell(i).0, piece.pos.cell(i).1),
        ensures
            r.1 == piece.spin,
            r.key_spec() == landing_key(*piece),
            forall|i: int| 0 <= i < 4 ==> in_field(#[trigger] r.0[i].0 as int, r.0[i].1 as int),
            forall|i: int, j: int|
                0 <= i <= j < 4 ==> cell_code((r.0[i].0 as int, r.0[i].1 as int)) <= cell_code(
                    (r.0[j].0 as int, r.0[j].1 as int),
                ),
            forall|i: int| 0 <= i < 4 ==> #[trigger] r.covers(piece.pos.cell(i)),
    {
        let cells = piece.pos.cells();
        proof {
            reveal(rank0);
            reveal(rank1);
            reveal(rank2);
            reveal(rank3);
            assert((cells[0].0 as int, cells[0].1 as int) == piece.pos.cell(0));
            assert((cells[1].0 as int, cells[1].1 as int) == piece.pos.cell(1));
            assert((cells[2].0 as int, cells[2].1 as int) == piece.pos.cell(2));
            assert((cells[3].0 as int, cells[3].1 as int) == piece.pos.cell(3));
            assert(in_field(piece.pos.cell(0).0, piece.pos.cell(0).1));
            assert(in_field(piece.pos.cell(1).0, piece.pos.cell(1).1));
            assert(in_field(piece.pos.cell(2).0, piece.pos.cell(2).1));
            assert(in_field(piece.pos.cell(3).0, piece.pos.cell(3).1));
        }
        let mut a = cells[0];
        let mut b = cells[1];
        let mut c = cells[2];
        let mut d = cells[3];
        if Self::code(b) < Self::code(a) {
            let t = a;
            a = b;
            b = t;
        }
        if Self::code(d) < Self::code(c) {
            let t = c;
            c = d;
            d = t;
        }
        if Self::code(c) < Self::code(a) {
            let t = a;
            a = c;
            c = t;
        }
        if Self::code(d) < Self::code(b) {
            let t = b;
            b = d;
            d = t;
        }
        if Self::code(c) < Self::code(b) {
            let t = b;
            b = c;
            c = t;
        }
        let r = Placement([a, b, c, d], piece.spin);
        proof {
            assert(r.0[0] == a && r.0[1] == b && r.0[2] == c && r.0[3] == d);
            assert forall|i: int| 0 <= i < 4 implies #[trigger] r.covers(piece.pos.cell(i)) by {
                assert((cells[i].0 as int, cells[i].1 as int) == piece.pos.cell(i));
            }
        }
        r
    }

    /// True if the placement names the cell.
    pub open spec fn covers(self, cell: (int, int)) -> bool {
        (self.0[0].0 as int, self.0[0].1 as int) == cell || (self.0[1].0 as int, self.0[1].1 as int)
            == cell || (self.0[2].0 as int, self.0[2].1 as int) == cell || (
        self.0[3].0 as int,
        self.0[3].1 as int,
    ) == cell
    }

    /// The number that the placement packs into: ten bits per cell, then the spin.
    pub open spec fn key_spec(self) -> int {
        cell_code((self.0[0].0 as int, self.0[0].1 as int)) + 1024 * cell_code(
            (self.0[1].0 as int, self.0[1].1 as int),
        ) + 1024 * 1024 * cell_code((self.0[2].0 as int, self.0[2].1 as int)) + 1024 * 1024 * 1024
            * cell_code((self.0[3].0 as int, self.0[3].1 as int)) + 1024 * 1024 * 1024 * 1024
            * spin_index(self.1)
    }

    /// The number that the placement packs into.
    pub fn key(&self) -> (r: u64)
        requires
            forall|i: int| 0 <= i < 4 ==> in_field(#[trigger] self.0[i].0 as int, self.0[i].1 as int),
        ensures
            r as int == self.key_spec(),
    {
        let s: u64 = match self.1 {
            SpinKind::NoSpin => 0,
            SpinKind::Mini => 1,
            SpinKind::Full => 2,
        };
        assert(in_field(self.0[0].0 as int, self.0[0].1 as int));
        assert(in_field(self.0[1].0 as int, self.0[1].1 as int));
        assert(in_field(self.0[2].0 as int, self.0[2].1 as int));
        assert(in_field(self.0[3].0 as int, self.0[3].1 as int));
        Self::code(self.0[0]) + 1024 * Self::code(self.0[1]) + 1024 * 1024 * Self::code(self.0[2])
            + 1024 * 1024 * 1024 * Self::code(self.0[3]) + 1024 * 1024 * 1024 * 1024 * s
    }
}

impl MoveGenerator {
    /// What a step of the search leaves untouched: the board, the kinds, the
    /// hold offer, and every reached position with its step.
    pub open spec fn grows_from(&self, before: &MoveGenerator) -> bool {
        &&& self.board() == before.board()
        &&& self.searched() == before.searched()
        &&& self.first_kind() == before.first_kind()
        &&& self.offers_hold() == before.offers_hold()
        &&& forall|k: u32| #[trigger]
            before.reached().contains_key(k) ==> self.reached().contains_key(k)
                && self.reached()[k] == before.reached()[k]
    }

    /// The number of reached positions that do not wait.
    pub open spec fn slack(&self) -> int {
        self.reached().len() - self.pending().len()
    }

    /// The measure that the search decreases: twice the number of positions
    /// not reached yet, plus the number of waiting steps.
    pub open spec fn fuel(&self) -> int {
        2 * (key_space() - self.reached().len()) + self.pending().len()
    }

    /// The reached positions are fewer than the keys.
    proof fn lemma_reached_bounded(&self, hole: int)
        requires
            self.inv(hole),
        ensures
            self.reached().len() <= key_space(),
            self.reached().dom().finite(),
    {
        reveal(MoveGenerator::entry_sound);
        reveal(MoveGenerator::entry_linked);
        reveal(MoveGenerator::settled);
        reveal(MoveGenerator::landing_sound);
        assert forall|k: u32| self.reached().dom().contains(k) implies k < 1835008u32 by {
            assert(self.reached().contains_key(k));
            assert(self.entry_sound(k));
            lemma_key_injective(self.reached()[k].piece.pos, self.reached()[k].piece.pos);
        }
        lemma_keys_bounded(self.reached().dom(), 1835008u32);
    }

    /// What the invariant says of a reached position: it is free and close to
    /// the field, and its step is within the limits of the search.
    #[verifier::rlimit(50)]
    proof fn lemma_step_facts(&self, hole: int, pos: PiecePosition)
        requires
            self.inv(hole),
            self.reaches(pos),
        ensures
            self.step_at(pos).piece.pos == pos,
            !collides_at(self.board(), pos),
            pos.representable(),
            -2 <= pos.x <= 11,
            -2 <= pos.y <= 65,
            self.step_at(pos).depth <= MAX_DEPTH,
            self.step_at(pos).cost <= 189 * self.step_at(pos).depth,
    {
        reveal(MoveGenerator::entry_sound);
        let k = key_of(pos) as u32;
        assert(self.reached().contains_key(k));
        assert(self.entry_sound(k));
        lemma_key_injective(pos, self.step_at(pos).piece.pos);
        lemma_free_piece_near(self.board(), pos);
    }

    /// With one more position, reached by an admitted input from a reached
    /// position and waiting at the end of the queue, the invariant holds.
    #[verifier::rlimit(50)]
    proof fn lemma_written(
        &self,
        before: &MoveGenerator,
        from: Step,
        step: Step,
        ins: Instruction,
    )
        requires
            before.inv(key_of(from.piece.pos)),
            before.reaches(from.piece.pos),
            before.step_at(from.piece.pos) == from,
            !before.reaches(step.piece.pos),
            self.reached() == before.reached().insert(key_of(step.piece.pos) as u32, step),
            self.pending() == before.pending().push(step),
            self.landings() == before.landings(),
            self.landing_index() == before.landing_index(),
            self.board() == before.board(),
            self.searched() == before.searched(),
            self.first_kind() == before.first_kind(),
            self.offers_hold() == before.offers_hold(),
            step.parent == Some(from.piece.pos),
            step.instruction == Some(ins),
            step_target(before.board(), from.piece, ins) == Some(step.piece),
            step.cost == from.cost + move_cost(from.instruction, ins, from.piece, step.piece),
            step.depth == from.depth + 1,
            admitted(step.piece.pos.kind, step.cost as int, step.depth as int),
            step.cost <= 189 * step.depth,
        ensures
            self.inv(key_of(from.piece.pos)),
            self.grows_from(before),
    {
        reveal(MoveGenerator::entry_sound);
        reveal(MoveGenerator::entry_linked);
        let hole = key_of(from.piece.pos);
        let key = key_of(step.piece.pos) as u32;
        let b = before.board();
        lemma_key_injective(step.piece.pos, step.piece.pos);
        lemma_key_injective(from.piece.pos, from.piece.pos);
        assert(before.reached().contains_key(hole as u32));
        assert(before.entry_sound(hole as u32));
        lemma_step_sound(b, from.piece, ins);
        lemma_free_piece_near(b, step.piece.pos);
        assert(self.grows_from(before));
        assert forall|k: u32| #[trigger] self.reached().contains_key(k) implies self.entry_sound(k)
            && self.entry_linked(k) by {
            if k == key {
                assert(self.reached()[k] == step);
                assert(self.reaches(from.piece.pos));
                assert(self.step_at(from.piece.pos) == from);
            } else {
                self.lemma_entries_grow(before, k);
            }
        }
        assert(self.pending()[before.pending().len() as int] == step);
        assert forall|k: u32| #[trigger] self.reached().contains_key(k) implies k == hole
            || self.waits(k) || self.settled(k) by {
            if k == key {
                assert(key_of(self.pending()[before.pending().len() as int].piece.pos) == k);
                assert(self.waits(k));
            } else if k != hole {
                assert(before.reached().contains_key(k));
                if before.waits(k) {
                    let i = choose|i: int|
                        0 <= i < before.pending().len() && key_of(
                            #[trigger] before.pending()[i].piece.pos,
                        ) == k;
                    assert(self.pending()[i] == before.pending()[i]);
                    assert(self.waits(k));
                } else {
                    self.lemma_settled_grows(before, k);
                }
            }
        }
        assert forall|i: int| 0 <= i < self.pending().len() implies self.reaches(
            #[trigger] self.pending()[i].piece.pos,
        ) && self.step_at(self.pending()[i].piece.pos) == self.pending()[i] by {
            if i < before.pending().len() {
                assert(self.pending()[i] == before.pending()[i]);
                assert(before.reaches(before.pending()[i].piece.pos));
            }
        }
        assert forall|j: int| 0 <= j < self.landings().len() implies #[trigger] self.landing_sound(
            j,
        ) by {
            self.lemma_landing_grows(before, j);
        }
        assert forall|c: u64| #[trigger] self.landing_index().contains_key(c) implies
            self.landing_index()[c] < self.landings().len() && landing_key(
            self.landings()[self.landing_index()[c] as int].0,
        ) == c by {
            assert(before.landing_index().contains_key(c));
        }
    }

    /// Records the position that an input leads to, unless the input leads
    /// nowhere, the position was reached before, or the branch is given up.
    #[verifier::rlimit(50)]
    fn check_write(&mut self, parent: &Step, piece: Option<PieceState>, instruction: Instruction)
        requires
            old(self).inv(key_of(parent.piece.pos)),
            old(self).reaches(parent.piece.pos),
            old(self).step_at(parent.piece.pos) == *parent,
            piece == step_target(old(self).board(), parent.piece, instruction),
        ensures
            final(self).inv(key_of(parent.piece.pos)),
            final(self).grows_from(old(self)),
            final(self).landings() == old(self).landings(),
            final(self).landing_index() == old(self).landing_index(),
            final(self).pending().len() >= old(self).pending().len(),
            forall|i: int|
                0 <= i < old(self).pending().len() ==> final(self).pending()[i] == old(self).pending()[i],
            final(self).follows(*parent, instruction),
            final(self).fuel() <= old(self).fuel(),
            final(self).slack() == old(self).slack(),
    {
        let ghost b = self.board();
        let ghost hole = key_of(parent.piece.pos);
        proof {
            self.lemma_step_facts(hole, parent.piece.pos);
            lemma_step_sound(b, parent.piece, instruction);
            lemma_key_injective(parent.piece.pos, parent.piece.pos);
        }
        let piece = match piece {
            Some(p) => p,
            None => {
                return ;
            },
        };
        proof {
            lemma_free_piece_near(b, piece.pos);
            lemma_free_piece_near(b, parent.piece.pos);
            lemma_key_injective(piece.pos, piece.pos);
        }
        let cost: u16 = match instruction {
            Instruction::SonicDrop => 3 * ((parent.piece.pos.y - piece.pos.y) as u16),
            _ => {
                let repeated = match parent.instruction {
                    Some(prev) => prev == instruction,
                    None => false,
                };
                if repeated {
                    2
                } else {
                    1
                }
            },
        };
        assert(cost as int == move_cost(parent.instruction, instruction, parent.piece, piece));
        let step = Step {
            piece,
            parent: Some(parent.piece.pos),
            instruction: Some(instruction),
            cost: parent.cost + cost,
            depth: parent.depth + 1,
        };
        let key = position_key(piece.pos);
        let is_t = match piece.pos.kind {
            PieceKind::T => true,
            _ => false,
        };
        if !self.tree.contains_key(&key) && step.depth <= MAX_DEPTH && (is_t || step.cost
            <= MAX_NON_T_COST) {
            let ghost before = *self;
            self.tree.insert(key, step);
            self.next.push(step);
            proof {
                assert(self.reached() == before.reached().insert(key, step));
                assert(self.pending() == before.pending().push(step));
                self.lemma_written(&before, *parent, step, instruction);
                before.lemma_reached_bounded(hole);
                assert(!before.reached().dom().contains(key));
                assert(self.reached().dom() == before.reached().dom().insert(key));
                assert(self.reached().len() == before.reached().len() + 1);
                assert(self.reaches(step.piece.pos));
            }
        } else {
            proof {
                assert(final(self).follows(*parent, instruction));
            }
        }
    }

    /// The place of a waiting step with the least cost.
    fn cheapest(&self) -> (idx: usize)
        requires
            self.pending().len() > 0,
        ensures
            idx < self.pending().len(),
            forall|i: int|
                0 <= i < self.pending().len() ==> self.pending()[idx as int].cost
                    <= #[trigger] self.pending()[i].cost,
    {
        let mut idx: usize = 0;
        let mut i: usize = 1;
        while i < self.next.len()
            invariant
                1 <= i,
                idx < i,
                idx < self.next.len(),
                forall|j: int| 0 <= j < i && j < self.next.len() ==> self.next[idx as int].cost
                    <= #[trigger] self.next[j].cost,
            decreases self.next.len() - i,
        {
            if self.next[i].cost < self.next[idx].cost {
                idx = i;
            }
            i = i + 1;
        }
        idx
    }
}

impl MoveGenerator {
    /// An input that led to a reached position still does so when more
    /// positions are reached.
    proof fn lemma_follows_grows(&self, before: &MoveGenerator, s: Step, ins: Instruction)
        requires
            self.grows_from(before),
            before.follows(s, ins),
        ensures
            self.follows(s, ins),
    {
        reveal(MoveGenerator::entry_sound);
        reveal(MoveGenerator::entry_linked);
        reveal(MoveGenerator::settled);
        reveal(MoveGenerator::landing_sound);
        let t = step_target(self.board(), s.piece, ins);
        if t is Some {
            if before.reaches(t->0.pos) {
                assert(before.reached().contains_key(key_of(t->0.pos) as u32));
            }
        }
    }

    /// A settled step stays settled when more positions are reached and more
    /// placements are indexed.
    proof fn lemma_settled_grows(&self, before: &MoveGenerator, k: u32)
        requires
            self.grows_from(before),
            before.reached().contains_key(k),
            before.settled(k),
            forall|c: u64| #[trigger]
                before.landing_index().contains_key(c) ==> self.landing_index().contains_key(c),
        ensures
            self.settled(k),
    {
        reveal(MoveGenerator::entry_sound);
        reveal(MoveGenerator::entry_linked);
        reveal(MoveGenerator::settled);
        reveal(MoveGenerator::landing_sound);
        let s = before.reached()[k];
        assert forall|ins: Instruction| #[trigger] self.follows(s, ins) by {
            assert(before.follows(s, ins));
            self.lemma_follows_grows(before, s, ins);
        }
    }

    /// The steps stay sound and linked when more positions are reached.
    proof fn lemma_entries_grow(&self, before: &MoveGenerator, k: u32)
        requires
            self.grows_from(before),
            before.reached().contains_key(k),
            before.entry_sound(k),
            before.entry_linked(k),
        ensures
            self.entry_sound(k),
            self.entry_linked(k),
    {
        reveal(MoveGenerator::entry_sound);
        reveal(MoveGenerator::entry_linked);
        reveal(MoveGenerator::settled);
        reveal(MoveGenerator::landing_sound);
        let s = before.reached()[k];
        if s.parent is Some {
            assert(before.reached().contains_key(key_of(s.parent->0) as u32));
        }
    }

    /// A placement stays sound when more positions are reached and the index
    /// keeps its entries.
    proof fn lemma_landing_grows(&self, before: &MoveGenerator, j: int)
        requires
            self.grows_from(before),
            0 <= j < before.landings().len(),
            before.landing_sound(j),
            j < self.landings().len(),
            self.landings()[j] == before.landings()[j],
            forall|c: u64| #[trigger]
                before.landing_index().contains_key(c) ==> self.landing_index().contains_key(c)
                    && self.landing_index()[c] == before.landing_index()[c],
        ensures
            self.landing_sound(j),
    {
        reveal(MoveGenerator::entry_sound);
        reveal(MoveGenerator::entry_linked);
        reveal(MoveGenerator::settled);
        reveal(MoveGenerator::landing_sound);
        let e = before.landings()[j];
        assert(before.reached().contains_key(key_of(e.1) as u32));
        assert(before.landing_index().contains_key(landing_key(e.0) as u64));
    }

    /// Starts the search at a spawn: the spawn is reached at no cost and waits.
    #[verifier::rlimit(50)]
    fn plant(&mut self, spawn: PieceState) -> (fresh: bool)
        requires
            old(self).complete(),
            spawn_of(old(self).board(), spawn.pos.kind) == Some(spawn),
        ensures
            final(self).inv(-1),
            final(self).board() == old(self).board(),
            final(self).searched() == old(self).searched().insert(spawn.pos.kind),
            final(self).first_kind() == old(self).first_kind(),
            final(self).offers_hold() == old(self).offers_hold(),
            forall|q: PiecePosition| old(self).reaches(q) ==> final(self).reaches(q),
            final(self).reaches(spawn.pos),
            final(self).landings() == old(self).landings(),
            final(self).landing_index() == old(self).landing_index(),
            final(self).pending().len() == if fresh {
                1nat
            } else {
                0nat
            },
            final(self).slack() == old(self).slack(),
    {
        let ghost b = self.board();
        let ghost start = *old(self);
        let root_key = position_key(spawn.pos);
        proof {
            reveal(MoveGenerator::entry_sound);
            reveal(MoveGenerator::entry_linked);
            reveal(MoveGenerator::settled);
            reveal(MoveGenerator::landing_sound);
            lemma_free_piece_near(b, spawn.pos);
            lemma_key_injective(spawn.pos, spawn.pos);
        }
        self.kinds = Ghost(self.kinds@.insert(spawn.pos.kind));
        let ghost mid = *self;
        proof {
            assert forall|k: u32| #[trigger] mid.reached().contains_key(k) implies mid.entry_sound(
                k,
            ) && mid.entry_linked(k) && mid.settled(k) by {
                assert(start.reached().contains_key(k));
                assert(start.entry_sound(k) && start.entry_linked(k));
                assert(start.settled(k));
                let s = start.reached()[k];
                if s.parent is Some {
                    assert(start.reaches(s.parent->0));
                }
                assert forall|ins: Instruction| #[trigger] mid.follows(s, ins) by {
                    assert(start.follows(s, ins));
                }
            }
            assert forall|j: int| 0 <= j < mid.landings().len() implies #[trigger] mid.landing_sound(
                j,
            ) by {
                assert(start.landing_sound(j));
            }
            assert(mid.inv(-1));
            assert forall|q: PiecePosition| start.reaches(q) implies mid.reaches(q) by {}
        }
        if self.tree.contains_key(&root_key) {
            return false;
        }
        let root_step = Step { parent: None, piece: spawn, instruction: None, cost: 0, depth: 0 };
        self.tree.insert(root_key, root_step);
        self.next.push(root_step);
        proof {
            let after = *self;
            assert(after.reached() == mid.reached().insert(root_key, root_step));
            assert(after.pending() == mid.pending().push(root_step));
            assert(after.pending()[0] == root_step);
            assert(after.grows_from(&mid));
            assert forall|k: u32| #[trigger] after.reached().contains_key(k) implies after.entry_sound(
                k,
            ) && after.entry_linked(k) by {
                if k != root_key {
                    after.lemma_entries_grow(&mid, k);
                }
            }
            assert forall|k: u32| #[trigger] after.reached().contains_key(k) implies k == -1
                || after.waits(k) || after.settled(k) by {
                if k == root_key {
                    assert(key_of(after.pending()[0].piece.pos) == k);
                    assert(after.waits(k));
                } else {
                    after.lemma_settled_grows(&mid, k);
                }
            }
            assert forall|j: int| 0 <= j < after.landings().len() implies #[trigger]
                after.landing_sound(j) by {
                after.lemma_landing_grows(&mid, j);
            }
            assert(after.inv(-1));
            assert forall|q: PiecePosition| start.reaches(q) implies after.reaches(q) by {
                assert(mid.reached().contains_key(key_of(q) as u32));
            }
            mid.lemma_reached_bounded(-1);
            assert(!mid.reached().dom().contains(root_key));
            assert(after.reached().dom() == mid.reached().dom().insert(root_key));
            assert(after.reached().len() == mid.reached().len() + 1);
        }
        true
    }

    /// Without one of the waiting steps, the invariant holds around that step.
    #[verifier::rlimit(50)]
    proof fn lemma_pop(&self, before: &MoveGenerator, idx: int)
        requires
            before.inv(-1),
            0 <= idx < before.pending().len(),
            self.pending() == before.pending().remove(idx),
            self.reached() == before.reached(),
            self.landings() == before.landings(),
            self.landing_index() == before.landing_index(),
            self.board() == before.board(),
            self.searched() == before.searched(),
            self.first_kind() == before.first_kind(),
            self.offers_hold() == before.offers_hold(),
        ensures
            self.inv(key_of(before.pending()[idx].piece.pos)),
            self.reaches(before.pending()[idx].piece.pos),
            self.step_at(before.pending()[idx].piece.pos) == before.pending()[idx],
            self.grows_from(before),
    {
        let step = before.pending()[idx];
        let hole = key_of(step.piece.pos);
        assert(before.reaches(step.piece.pos) && before.step_at(step.piece.pos) == step);
        lemma_key_injective(step.piece.pos, step.piece.pos);
        assert(self.grows_from(before));
        assert forall|k: u32| #[trigger] self.reached().contains_key(k) implies self.entry_sound(k)
            && self.entry_linked(k) by {
            self.lemma_entries_grow(before, k);
        }
        assert forall|k: u32| #[trigger] self.reached().contains_key(k) implies k == hole
            || self.waits(k) || self.settled(k) by {
            if k != hole {
                if before.waits(k) {
                    let i = choose|i: int|
                        0 <= i < before.pending().len() && key_of(
                            #[trigger] before.pending()[i].piece.pos,
                        ) == k;
                    if i < idx {
                        assert(self.pending()[i] == before.pending()[i]);
                    } else {
                        assert(i != idx);
                        assert(self.pending()[i - 1] == before.pending()[i]);
                    }
                    assert(self.waits(k));
                } else {
                    self.lemma_settled_grows(before, k);
                }
            }
        }
        assert forall|i: int| 0 <= i < self.pending().len() implies self.reaches(
            #[trigger] self.pending()[i].piece.pos,
        ) && self.step_at(self.pending()[i].piece.pos) == self.pending()[i] by {
            if i < idx {
                assert(self.pending()[i] == before.pending()[i]);
            } else {
                assert(self.pending()[i] == before.pending()[i + 1]);
            }
        }
        assert forall|j: int| 0 <= j < self.landings().len() implies #[trigger] self.landing_sound(
            j,
        ) by {
            self.lemma_landing_grows(before, j);
        }
        assert forall|c: u64| #[trigger] self.landing_index().contains_key(c) implies
            self.landing_index()[c] < self.landings().len() && landing_key(
            self.landings()[self.landing_index()[c] as int].0,
        ) == c by {
            assert(before.landing_index().contains_key(c));
        }
    }

    /// Takes the waiting step of least cost off the queue.
    #[verifier::rlimit(50)]
    fn take_cheapest(&mut self) -> (step: Step)
        requires
            old(self).inv(-1),
            old(self).pending().len() > 0,
        ensures
            final(self).inv(key_of(step.piece.pos)),
            final(self).reaches(step.piece.pos),
            final(self).step_at(step.piece.pos) == step,
            final(self).grows_from(old(self)),
            final(self).reached() == old(self).reached(),
            final(self).landings() == old(self).landings(),
            final(self).landing_index() == old(self).landing_index(),
            final(self).pending().len() == old(self).pending().len() - 1,
            forall|i: int|
                0 <= i < old(self).pending().len() ==> step.cost <= #[trigger] old(self).pending()[i].cost,
    {
        let idx = self.cheapest();
        let ghost before = *self;
        let step = self.next.remove(idx);
        proof {
            assert(self.pending() == before.pending().remove(idx as int));
            assert(before.pending()[idx as int] == step);
            self.lemma_pop(&before, idx as int);
        }
        step
    }

    /// What `look_around` and its parts keep: the invariant around the step
    /// in hand, the reached positions, the placements and the measure.
    pub open spec fn looked_from(&self, before: &MoveGenerator, step: Step) -> bool {
        &&& self.inv(key_of(step.piece.pos))
        &&& self.grows_from(before)
        &&& self.landings() == before.landings()
        &&& self.landing_index() == before.landing_index()
        &&& self.fuel() <= before.fuel()
        &&& self.slack() == before.slack()
    }

    /// Tries the four strafes at a step.
    #[verifier::rlimit(50)]
    fn look_aside<B: Board>(&mut self, state: &GameState<B>, step: &Step)
        requires
            old(self).inv(key_of(step.piece.pos)),
            old(self).reaches(step.piece.pos),
            old(self).step_at(step.piece.pos) == *step,
            old(self).board() == state.board.blocks(),
        ensures
            final(self).looked_from(old(self), *step),
            final(self).follows(*step, Instruction::Left),
            final(self).follows(*step, Instruction::Right),
            final(self).follows(*step, Instruction::Down),
            final(self).follows(*step, Instruction::Up),
    {
        let piece = step.piece;
        proof {
            self.lemma_step_facts(key_of(piece.pos), piece.pos);
            lemma_targets(self.board(), piece);
        }
        let ghost s0 = *self;
        self.check_write(step, state.strafe(piece, (-1, 0)), Instruction::Left);
        let ghost s1 = *self;
        assert(s1.reaches(piece.pos) && s1.step_at(piece.pos) == *step) by {
            assert(s0.reached().contains_key(key_of(piece.pos) as u32));
        }
        self.check_write(step, state.strafe(piece, (1, 0)), Instruction::Right);
        let ghost s2 = *self;
        assert(s2.reaches(piece.pos) && s2.step_at(piece.pos) == *step) by {
            assert(s1.reached().contains_key(key_of(piece.pos) as u32));
        }
        self.check_write(step, state.strafe(piece, (0, -1)), Instruction::Down);
        let ghost s3 = *self;
        assert(s3.reaches(piece.pos) && s3.step_at(piece.pos) == *step) by {
            assert(s2.reached().contains_key(key_of(piece.pos) as u32));
        }
        self.check_write(step, state.strafe(piece, (0, 1)), Instruction::Up);
        proof {
            let s4 = *self;
            s2.lemma_follows_grows(&s1, *step, Instruction::Left);
            s3.lemma_follows_grows(&s2, *step, Instruction::Left);
            s4.lemma_follows_grows(&s3, *step, Instruction::Left);
            s3.lemma_follows_grows(&s2, *step, Instruction::Right);
            s4.lemma_follows_grows(&s3, *step, Instruction::Right);
            s4.lemma_follows_grows(&s3, *step, Instruction::Down);
            assert(s4.grows_from(&s0)) by {
                assert forall|k: u32| #[trigger] s0.reached().contains_key(k) implies s4.reached().contains_key(
                    k,
                ) && s4.reached()[k] == s0.reached()[k] by {
                    assert(s1.reached().contains_key(k));
                    assert(s2.reached().contains_key(k));
                    assert(s3.reached().contains_key(k));
                }
            }
        }
    }

    /// Tries the two quarter turns and the sonic drop at a step.
    #[verifier::rlimit(50)]
    fn look_beyond<B: Board>(&mut self, state: &GameState<B>, step: &Step)
        requires
            old(self).inv(key_of(step.piece.pos)),
            old(self).reaches(step.piece.pos),
            old(self).step_at(step.piece.pos) == *step,
            old(self).board() == state.board.blocks(),
        ensures
            final(self).looked_from(old(self), *step),
            final(self).follows(*step, Instruction::Cw),
            final(self).follows(*step, Instruction::Ccw),
            final(self).follows(*step, Instruction::SonicDrop),
            final(self).follows(*step, Instruction::Idle),
    {
        let piece = step.piece;
        proof {
            self.lemma_step_facts(key_of(piece.pos), piece.pos);
            lemma_targets(self.board(), piece);
            lemma_dropped_rests(self.board(), piece);
        }
        let ghost s0 = *self;
        let is_o = match piece.pos.kind {
            PieceKind::O => true,
            _ => false,
        };
        if !is_o {
            self.check_write(step, state.rotate(piece, true), Instruction::Cw);
        }
        let ghost s1 = *self;
        assert(s1.reaches(piece.pos) && s1.step_at(piece.pos) == *step) by {
            assert(s0.reached().contains_key(key_of(piece.pos) as u32));
        }
        if !is_o {
            self.check_write(step, state.rotate(piece, false), Instruction::Ccw);
        }
        let ghost s2 = *self;
        assert(s2.reaches(piece.pos) && s2.step_at(piece.pos) == *step) by {
            assert(s1.reached().contains_key(key_of(piece.pos) as u32));
        }
        let landed = match state.sonic_drop(&piece) {
            Some(d) => d,
            None => piece,
        };
        if landed.pos.y != piece.pos.y {
            self.check_write(step, Some(landed), Instruction::SonicDrop);
        }
        proof {
            let s3 = *self;
            s2.lemma_follows_grows(&s1, *step, Instruction::Cw);
            s3.lemma_follows_grows(&s2, *step, Instruction::Cw);
            s3.lemma_follows_grows(&s2, *step, Instruction::Ccw);
            assert(s3.grows_from(&s0)) by {
                assert forall|k: u32| #[trigger] s0.reached().contains_key(k) implies s3.reached().contains_key(
                    k,
                ) && s3.reached()[k] == s0.reached()[k] by {
                    assert(s1.reached().contains_key(k));
                    assert(s2.reached().contains_key(k));
                }
            }
        }
    }

    /// Records the placement below a step whose neighbours have been looked
    /// at, unless its canonical key is taken.
    #[verifier::rlimit(50)]
    fn record_landing<B: Board>(&mut self, state: &GameState<B>, step: &Step)
        requires
            old(self).inv(key_of(step.piece.pos)),
            old(self).reaches(step.piece.pos),
            old(self).step_at(step.piece.pos) == *step,
            old(self).board() == state.board.blocks(),
            forall|ins: Instruction| #[trigger] old(self).follows(*step, ins),
        ensures
            final(self).inv(-1),
            final(self).grows_from(old(self)),
            final(self).reached() == old(self).reached(),
            final(self).pending() == old(self).pending(),
            old(self).landings().len() <= final(self).landings().len() <= old(self).landings().len()
                + 1,
            forall|j: int|
                0 <= j < old(self).landings().len() ==> final(self).landings()[j] == old(self).landings()[j],
    {
        let piece = step.piece;
        let ghost b = self.board();
        let ghost hole = key_of(piece.pos);
        proof {
            reveal(MoveGenerator::entry_sound);
            reveal(MoveGenerator::entry_linked);
            reveal(MoveGenerator::settled);
            reveal(MoveGenerator::landing_sound);
            lemma_key_injective(piece.pos, piece.pos);
            assert(self.entry_sound(hole as u32));
            lemma_free_piece_near(b, piece.pos);
            lemma_dropped_rests(b, piece);
        }
        let landed = match state.sonic_drop(&piece) {
            Some(d) => d,
            None => piece,
        };
        proof {
            lemma_free_piece_near(b, landed.pos);
            lemma_landing_key_bounds(b, landed);
        }
        let ghost s7 = *self;
        let placement = Placement::of(&landed);
        let ckey = placement.key();
        if !self.locked_keys.contains_key(&ckey) {
            let at = self.locked.len();
            self.locked_keys.insert(ckey, at);
            self.locked.push((landed, piece.pos, step.cost));
        }
        proof {
            let after = *self;
            assert(after.grows_from(&s7));
            assert(after.landing_index().contains_key(ckey));
            if s7.landing_index().contains_key(ckey) {
                assert(after.landings() == s7.landings());
                assert(after.landing_index() == s7.landing_index());
            } else {
                let at = s7.landings().len() as usize;
                assert(after.landings() == s7.landings().push((landed, piece.pos, step.cost)));
                assert(after.landing_index() == s7.landing_index().insert(ckey, at));
                assert(s7.landings().push((landed, piece.pos, step.cost))[at as int] == (
                    landed,
                    piece.pos,
                    step.cost,
                ));
            }
            assert forall|j: int| 0 <= j < after.landings().len() implies #[trigger]
                after.landing_sound(j) by {
                if j < s7.landings().len() {
                    assert(s7.landing_sound(j));
                    let e = s7.landings()[j];
                    assert(s7.landing_index().contains_key(landing_key(e.0) as u64));
                    assert(after.landings()[j] == e);
                    assert(s7.reached().contains_key(key_of(e.1) as u32));
                } else {
                    assert(after.landings()[j] == (landed, piece.pos, step.cost));
                }
            }
            assert forall|c: u64| #[trigger] after.landing_index().contains_key(c) implies
                after.landing_index()[c] < after.landings().len() && landing_key(
                after.landings()[after.landing_index()[c] as int].0,
            ) == c by {
                if s7.landing_index().contains_key(c) {
                    assert(after.landings()[s7.landing_index()[c] as int]
                        == s7.landings()[s7.landing_index()[c] as int]);
                }
            }
            assert forall|k: u32| #[trigger] after.reached().contains_key(k) implies after.entry_sound(
                k,
            ) && after.entry_linked(k) by {
                after.lemma_entries_grow(&s7, k);
            }
            assert forall|k: u32| #[trigger] after.reached().contains_key(k) implies k == -1
                || after.waits(k) || after.settled(k) by {
                if k == hole {
                    assert(after.reached()[k] == *step);
                    assert forall|ins: Instruction| #[trigger] after.follows(*step, ins) by {
                        assert(s7.follows(*step, ins));
                        after.lemma_follows_grows(&s7, *step, ins);
                    }
                    assert(after.settled(k));
                } else if s7.waits(k) {
                    assert(after.waits(k));
                } else {
                    after.lemma_settled_grows(&s7, k);
                }
            }
            assert forall|i: int| 0 <= i < after.pending().len() implies after.reaches(
                #[trigger] after.pending()[i].piece.pos,
            ) && after.step_at(after.pending()[i].piece.pos) == after.pending()[i] by {
                assert(s7.reaches(s7.pending()[i].piece.pos));
            }
        }
    }
}

impl MoveGenerator {
    /// Searches the positions that can be reached from a spawn.
    ///
    /// Looks at the waiting step of least cost until none waits: tries the
    /// four strafes, the two quarter turns (not for O) and the sonic drop,
    /// and records the placement below the step under its canonical key
    /// unless that key is taken.
    #[verifier::rlimit(50)]
    fn generate_internal<B: Board>(&mut self, state: &GameState<B>, spawn: PieceState)
        requires
            old(self).complete(),
            old(self).landings().len() <= old(self).reached().len(),
            old(self).board() == state.board.blocks(),
            spawn_of(state.board.blocks(), spawn.pos.kind) == Some(spawn),
        ensures
            final(self).complete(),
            final(self).landings().len() <= final(self).reached().len(),
            final(self).board() == old(self).board(),
            final(self).searched() == old(self).searched().insert(spawn.pos.kind),
            final(self).first_kind() == old(self).first_kind(),
            final(self).offers_hold() == old(self).offers_hold(),
            forall|q: PiecePosition| old(self).reaches(q) ==> final(self).reaches(q),
            final(self).reaches(spawn.pos),
            old(self).landings().len() <= final(self).landings().len(),
            forall|j: int|
                0 <= j < old(self).landings().len() ==> final(self).landings()[j] == old(self).landings()[j],
    {
        let ghost start = *old(self);
        self.plant(spawn);
        let ghost planted = *self;
        while self.next.len() > 0
            invariant
                self.inv(-1),
                self.board() == state.board.blocks(),
                self.board() == start.board(),
                self.searched() == start.searched().insert(spawn.pos.kind),
                self.first_kind() == start.first_kind(),
                self.offers_hold() == start.offers_hold(),
                forall|q: PiecePosition| planted.reaches(q) ==> self.reaches(q),
                self.landings().len() <= self.slack(),
                start.landings().len() <= self.landings().len(),
                forall|j: int|
                    0 <= j < start.landings().len() ==> self.landings()[j] == start.landings()[j],
            decreases self.fuel(),
        {
            proof {
                self.lemma_reached_bounded(-1);
            }
            let ghost s0 = *self;
            let step = self.take_cheapest();
            let ghost s1 = *self;
            self.look_aside(state, &step);
            let ghost s2 = *self;
            assert(s2.reaches(step.piece.pos) && s2.step_at(step.piece.pos) == step) by {
                assert(s1.reached().contains_key(key_of(step.piece.pos) as u32));
            }
            self.look_beyond(state, &step);
            let ghost s3 = *self;
            proof {
                assert(s3.reaches(step.piece.pos) && s3.step_at(step.piece.pos) == step) by {
                    assert(s2.reached().contains_key(key_of(step.piece.pos) as u32));
                }
                s3.lemma_follows_grows(&s2, step, Instruction::Left);
                s3.lemma_follows_grows(&s2, step, Instruction::Right);
                s3.lemma_follows_grows(&s2, step, Instruction::Down);
                s3.lemma_follows_grows(&s2, step, Instruction::Up);
                assert forall|ins: Instruction| #[trigger] s3.follows(step, ins) by {
                    match ins {
                        Instruction::Left => {},
                        Instruction::Right => {},
                        Instruction::Down => {},
                        Instruction::Up => {},
                        Instruction::Cw => {},
                        Instruction::Ccw => {},
                        Instruction::SonicDrop => {},
                        Instruction::Idle => {},
                    }
                }
            }
            self.record_landing(state, &step);
            proof {
                let s4 = *self;
                assert forall|q: PiecePosition| planted.reaches(q) implies s4.reaches(q) by {
                    assert(s0.reached().contains_key(key_of(q) as u32));
                    assert(s1.reached().contains_key(key_of(q) as u32));
                    assert(s2.reached().contains_key(key_of(q) as u32));
                    assert(s3.reached().contains_key(key_of(q) as u32));
                }
                s3.lemma_reached_bounded(key_of(step.piece.pos));
                assert(s1.fuel() == s0.fuel() - 1);
                assert(s4.fuel() == s3.fuel());
                assert(s1.slack() == s0.slack() + 1);
                assert(s2.slack() == s1.slack());
                assert(s3.slack() == s2.slack());
                assert(s4.slack() == s3.slack());
                assert(s3.landings() == s0.landings());
                assert(s0.landings().len() <= s0.slack());
                assert(s4.landings().len() <= s3.landings().len() + 1);
                assert(s4.landings().len() <= s4.slack());
            }
        }
    }

    /// Searches the placements of the piece at the head of the queue and,
    /// if `use_hold` is set, of the held piece.
    ///
    /// Fails if the piece at the head of the queue cannot spawn. With
    /// `use_hold` and an empty hold slot the result offers the hold move; with
    /// a held piece of another kind that can spawn, its placements are
    /// searched too.
    #[verifier::rlimit(50)]
    pub fn generate_for<B: Board>(state: &GameState<B>, use_hold: bool) -> (r: Result<Self, ()>)
        requires
            state.queue@.len() > 0,
        ensures
            r is Err <==> spawn_of(state.board.blocks(), state.queue@[0]) is None,
            r matches Ok(g) ==> {
                &&& g.searches(state.board.blocks(), state.queue@[0], state.hold, use_hold)
                &&& g.move_list().len() <= key_space() + 1
            },
    {
        let kind = state.queue[0];
        let spawn = match state.spawn(kind) {
            Some(s) => s,
            None => {
                return Err(());
            },
        };
        let mut gen = MoveGenerator {
            head_piece: kind,
            tree: HashMap::new(),
            next: Vec::new(),
            locked: Vec::new(),
            locked_keys: HashMap::new(),
            hold_only_move: false,
            field: Ghost(state.board.blocks()),
            kinds: Ghost(Set::empty()),
        };
        assert(gen.complete());
        gen.generate_internal(state, spawn);
        assert(gen.searched() =~= set![kind]);
        if use_hold {
            match state.hold {
                Some(held) => {
                    if held != kind {
                        match state.spawn(held) {
                            Some(other) => {
                                gen.generate_internal(state, other);
                                assert(gen.searched() =~= set![kind, held]);
                            },
                            None => {},
                        }
                    }
                },
                None => {
                    gen.hold_only_move = true;
                    proof {
                        gen.lemma_same_search(&(MoveGenerator { hold_only_move: false, ..gen }));
                    }
                },
            }
        }
        proof {
            gen.lemma_reached_bounded(-1);
        }
        Ok(gen)
    }

    /// Two generators that differ in the hold offer only are complete together.
    proof fn lemma_same_search(&self, other: &MoveGenerator)
        requires
            other.complete(),
            self.reached() == other.reached(),
            self.pending() == other.pending(),
            self.landings() == other.landings(),
            self.landing_index() == other.landing_index(),
            self.board() == other.board(),
            self.searched() == other.searched(),
        ensures
            self.complete(),
    {
        reveal(MoveGenerator::entry_sound);
        reveal(MoveGenerator::entry_linked);
        reveal(MoveGenerator::settled);
        reveal(MoveGenerator::landing_sound);
        assert forall|k: u32| #[trigger] self.reached().contains_key(k) implies self.entry_sound(k)
            && self.entry_linked(k) && self.settled(k) by {
            assert(other.entry_sound(k) && other.entry_linked(k));
            assert(other.settled(k));
            let s = other.reached()[k];
            assert forall|ins: Instruction| #[trigger] self.follows(s, ins) by {
                assert(other.follows(s, ins));
            }
        }
        assert forall|j: int| 0 <= j < self.landings().len() implies #[trigger] self.landing_sound(
            j,
        ) by {
            assert(other.landing_sound(j));
        }
    }

    /// The moves found: one placement per canonical key, in the order found,
    /// and the hold move at the end if it is offered.
    pub fn moves(&self) -> (r: Vec<Move>)
        ensures
            r@ == self.move_seq(),
    {
        let mut vec: Vec<Move> = Vec::new();
        let mut j: usize = 0;
        while j < self.locked.len()
            invariant
                j <= self.locked.len(),
                vec@.len() == j,
                forall|i: int| 0 <= i < j ==> vec@[i] == Move::Place(self.locked@[i].0),
            decreases self.locked.len() - j,
        {
            vec.push(Move::Place(self.locked[j].0));
            j = j + 1;
        }
        if self.hold_only_move {
            vec.push(Move::Hold);
        }
        assert(vec@ =~= self.move_seq());
        vec
    }

    /// The moves found, each with the cost of the inputs that lead above it;
    /// the hold move costs nothing.
    pub fn moves_with_cost(&self) -> (r: Vec<(Move, u16)>)
        ensures
            r@ == self.move_list(),
    {
        let mut vec: Vec<(Move, u16)> = Vec::new();
        let mut j: usize = 0;
        while j < self.locked.len()
            invariant
                j <= self.locked.len(),
                vec@.len() == j,
                forall|i: int|
                    0 <= i < j ==> vec@[i] == (Move::Place(self.locked@[i].0), self.locked@[i].2),
            decreases self.locked.len() - j,
        {
            vec.push((Move::Place(self.locked[j].0), self.locked[j].2));
            j = j + 1;
        }
        if self.hold_only_move {
            vec.push((Move::Hold, 0));
        }
        assert(vec@ =~= self.move_list());
        vec
    }
}

/// The kinds whose placements a search covers: the kind at the head of the
/// queue, and with `use_hold` the held kind if it can spawn.
pub open spec fn searched_kinds(
    b: Set<(int, int)>,
    first: PieceKind,
    hold: Option<PieceKind>,
    use_hold: bool,
) -> Set<PieceKind> {
    if use_hold && hold is Some && hold->0 != first && spawn_of(b, hold->0) is Some {
        set![first, hold->0]
    } else {
        set![first]
    }
}

/// Where a sequence of inputs takes a piece, if every input leads somewhere.
pub open spec fn replay(b: Set<(int, int)>, start: PieceState, inputs: Seq<Instruction>) -> Option<
    PieceState,
>
    decreases inputs.len(),
{
    if inputs.len() == 0 {
        Some(start)
    } else {
        match step_target(b, start, inputs[0]) {
            Some(next) => replay(b, next, inputs.skip(1)),
            None => None,
        }
    }
}

impl MoveGenerator {
    /// True if `piece` is one of the placements found.
    pub open spec fn finds(&self, piece: PieceState) -> bool {
        exists|j: int| 0 <= j < self.landings().len() && (#[trigger] self.landings()[j]).0 == piece
    }

    /// The place of a placement that was found.
    #[verifier::rlimit(50)]
    fn landing_place(&self, piece: PieceState) -> (j: usize)
        requires
            self.complete(),
            self.finds(piece),
        ensures
            j < self.landings().len(),
            self.landings()[j as int].0 == piece,
    {
        proof {
            reveal(MoveGenerator::landing_sound);
            reveal(MoveGenerator::entry_sound);
            let w = choose|j: int|
                0 <= j < self.landings().len() && (#[trigger] self.landings()[j]).0 == piece;
            assert(self.landing_sound(w));
            let src = self.landings()[w].1;
            assert(self.reached().contains_key(key_of(src) as u32));
            assert(self.entry_sound(key_of(src) as u32));
            lemma_key_injective(src, src);
            lemma_dropped_rests(self.board(), self.step_at(src).piece);
            lemma_free_piece_near(self.board(), piece.pos);
            lemma_landing_key_bounds(self.board(), piece);
        }
        let key = Placement::of(&piece).key();
        match self.locked_keys.get(&key) {
            Some(j) => *j,
            None => 0,
        }
    }

    /// The inputs that lead from the spawn to a placement that was found.
    ///
    /// The path follows the steps of the search back from the position above
    /// the placement to the spawn, and ends with a sonic drop if the placement
    /// lies below that position.
    #[verifier::rlimit(50)]
    pub fn rebuild_path(&self, mv: Move) -> (r: Path)
        requires
            self.complete(),
            mv matches Move::Place(piece) ==> self.finds(piece),
        ensures
            mv is Hold ==> r is HoldOnly,
            mv matches Move::Place(piece) ==> {
                &&& r matches Path::Normal { hold, cost, instructions, piece: locked }
                &&& locked == piece
                &&& hold == (piece.pos.kind != self.first_kind())
                &&& spawn_of(self.board(), piece.pos.kind) matches Some(spawn)
                &&& replay(self.board(), spawn, instructions@) == Some(piece)
                &&& self.finds_at_cost(piece, cost)
            },
    {
        let piece = match mv {
            Move::Hold => {
                return Path::HoldOnly;
            },
            Move::Place(piece) => piece,
        };
        let ghost b = self.board();
        let j = self.landing_place(piece);
        let source = self.locked[j].1;
        let cost = self.locked[j].2;
        proof {
            reveal(MoveGenerator::landing_sound);
            reveal(MoveGenerator::entry_sound);
            reveal(step_target);
            assert(self.landing_sound(j as int));
            assert(self.reached().contains_key(key_of(source) as u32));
            assert(self.entry_sound(key_of(source) as u32));
            lemma_key_injective(source, source);
            lemma_dropped_rests(b, self.step_at(source).piece);
        }
        let mut back: Vec<Instruction> = Vec::new();
        let ghost mut ahead: Seq<Instruction> = Seq::empty();
        if piece.pos.y != source.y {
            back.push(Instruction::SonicDrop);
            proof {
                ahead = seq![Instruction::SonicDrop];
                assert(ahead.skip(1) =~= Seq::<Instruction>::empty());
            }
        }
        let mut cur: Step = match self.tree.get(&position_key(source)) {
            Some(s) => *s,
            None => Step { piece, parent: None, instruction: None, cost: 0, depth: 0 },
        };
        proof {
            assert(cur == self.step_at(source));
            lemma_key_injective(cur.piece.pos, source);
            assert(cur.piece.pos == source);
            assert(piece == dropped(b, cur.piece));
            if piece.pos.y != source.y {
                assert(step_target(b, cur.piece, Instruction::SonicDrop) == Some(piece));
                assert(ahead[0] == Instruction::SonicDrop);
                assert(replay(b, piece, ahead.skip(1)) == Some(piece));
                assert(replay(b, cur.piece, ahead) == Some(piece));
            } else {
                assert(piece == cur.piece);
            }
        }
        loop
            invariant
                self.complete(),
                b == self.board(),
                self.reaches(cur.piece.pos),
                self.step_at(cur.piece.pos) == cur,
                cur.piece.pos.kind == piece.pos.kind,
                replay(b, cur.piece, ahead) == Some(piece),
                ahead.len() == back@.len(),
                forall|i: int| 0 <= i < ahead.len() ==> ahead[i] == back@[back@.len() - 1 - i],
            ensures
                cur.parent is None,
                self.reaches(cur.piece.pos),
                self.step_at(cur.piece.pos) == cur,
                cur.piece.pos.kind == piece.pos.kind,
                replay(b, cur.piece, ahead) == Some(piece),
                ahead.len() == back@.len(),
                forall|i: int| 0 <= i < ahead.len() ==> ahead[i] == back@[back@.len() - 1 - i],
            decreases cur.depth,
        {
            proof {
                reveal(MoveGenerator::entry_linked);
                reveal(MoveGenerator::entry_sound);
                lemma_key_injective(cur.piece.pos, cur.piece.pos);
                assert(self.reached().contains_key(key_of(cur.piece.pos) as u32));
                assert(self.entry_linked(key_of(cur.piece.pos) as u32));
            }
            let parent = match cur.parent {
                Some(q) => q,
                None => {
                    break ;
                },
            };
            let ins = match cur.instruction {
                Some(i) => i,
                None => Instruction::Idle,
            };
            let above: Step = match self.tree.get(&position_key(parent)) {
                Some(s) => *s,
                None => cur,
            };
            proof {
                lemma_key_injective(parent, parent);
                assert(self.reached().contains_key(key_of(parent) as u32));
                assert(self.entry_sound(key_of(parent) as u32));
                assert(above == self.step_at(parent));
                lemma_key_injective(above.piece.pos, parent);
                lemma_step_sound(b, above.piece, ins);
                let longer = seq![ins] + ahead;
                assert(longer[0] == ins);
                assert(longer.skip(1) =~= ahead);
                assert(replay(b, above.piece, longer) == Some(piece));
                ahead = longer;
            }
            back.push(ins);
            cur = above;
        }
        let mut instructions: Vec<Instruction> = Vec::new();
        let mut i: usize = back.len();
        while i > 0
            invariant
                i <= back@.len(),
                instructions@.len() == back@.len() - i,
                forall|k: int|
                    0 <= k < instructions@.len() ==> instructions@[k] == back@[back@.len() - 1 - k],
            decreases i,
        {
            i = i - 1;
            instructions.push(back[i]);
        }
        proof {
            reveal(MoveGenerator::entry_linked);
            assert(instructions@ =~= ahead);
            lemma_key_injective(cur.piece.pos, cur.piece.pos);
            assert(self.reached().contains_key(key_of(cur.piece.pos) as u32));
            assert(self.entry_linked(key_of(cur.piece.pos) as u32));
            assert(self.landings()[j as int] == (piece, source, cost));
        }
        let first = self.head_piece;
        Path::Normal { hold: piece.pos.kind != first, cost, instructions, piece }
    }

    /// True if `piece` is one of the placements found, recorded with `cost`.
    pub open spec fn finds_at_cost(&self, piece: PieceState, cost: u16) -> bool {
        exists|j: int|
            0 <= j < self.landings().len() && (#[trigger] self.landings()[j]).0 == piece
                && self.landings()[j].2 == cost
    }

    /// True if this is a complete search of the board `b` for the piece
    /// `first` in hand and, if `use_hold` is set, for the piece held: the
    /// spawn of every kind searched is reached, and the hold move is offered
    /// exactly with `use_hold` and an empty hold slot.
    pub open spec fn searches(
        &self,
        b: Set<(int, int)>,
        first: PieceKind,
        hold: Option<PieceKind>,
        use_hold: bool,
    ) -> bool {
        &&& self.complete()
        &&& self.board() == b
        &&& self.first_kind() == first
        &&& self.offers_hold() == (use_hold && hold is None)
        &&& self.searched() == searched_kinds(b, first, hold, use_hold)
        &&& forall|k: PieceKind| #[trigger]
            self.searched().contains(k) ==> self.reaches(spawn_of(b, k)->0.pos)
    }

    /// The hold move stands at the end of the moves, at no cost, exactly when
    /// it is offered.
    pub proof fn lemma_hold_listed(&self)
        ensures
            self.offers_hold() ==> self.move_list().len() > 0 && self.move_list().last() == (
                Move::Hold,
                0u16,
            ),
            forall|j: int|
                0 <= j < self.move_list().len() && (#[trigger] self.move_list()[j]).0 is Hold
                    ==> self.offers_hold() && j == self.move_list().len() - 1,
    {
    }

    /// Every reached position is free, of a kind searched, and is a spawn or
    /// follows from a reached position by one admitted input.
    pub proof fn lemma_reached_sound(&self, q: PiecePosition)
        requires
            self.complete(),
            self.reaches(q),
        ensures
            self.step_at(q).piece.pos == q,
            !collides_at(self.board(), q),
            self.searched().contains(q.kind),
            self.step_at(q).parent is None ==> spawn_of(self.board(), q.kind) == Some(
                self.step_at(q).piece,
            ),
            self.step_at(q).parent matches Some(from) ==> {
                &&& self.reaches(from)
                &&& self.step_at(q).instruction matches Some(ins)
                &&& step_target(self.board(), self.step_at(from).piece, ins) == Some(
                    self.step_at(q).piece,
                )
                &&& admitted(q.kind, self.step_at(q).cost as int, self.step_at(q).depth as int)
            },
    {
        reveal(MoveGenerator::entry_sound);
        reveal(MoveGenerator::entry_linked);
        let k = key_of(q) as u32;
        lemma_key_injective(q, self.step_at(q).piece.pos);
        assert(self.reached().contains_key(k));
        assert(self.entry_sound(k) && self.entry_linked(k));
    }

    /// Every admitted input at a reached position leads to a reached position.
    pub proof fn lemma_reached_closed(&self, q: PiecePosition, ins: Instruction)
        requires
            self.complete(),
            self.reaches(q),
        ensures
            self.follows(self.step_at(q), ins),
    {
        reveal(MoveGenerator::settled);
        let k = key_of(q) as u32;
        assert(self.reached().contains_key(k));
        assert(self.settled(k));
    }

    /// Every placement found is the fall of a reached position, recorded with
    /// the cost of reaching that position.
    pub proof fn lemma_landing_reached(&self, j: int)
        requires
            self.complete(),
            0 <= j < self.landings().len(),
        ensures
            self.reaches(self.landings()[j].1),
            self.landings()[j].0 == dropped(self.board(), self.step_at(self.landings()[j].1).piece),
            self.landings()[j].2 == self.step_at(self.landings()[j].1).cost,
    {
        reveal(MoveGenerator::landing_sound);
        assert(self.landing_sound(j));
    }

    /// The placement below a settled position is indexed by its canonical key.
    proof fn lemma_settled_landing(&self, k: u32)
        requires
            self.settled(k),
        ensures
            self.landing_index().contains_key(
                landing_key(dropped(self.board(), self.reached()[k].piece)) as u64,
            ),
    {
        reveal(MoveGenerator::settled);
    }

    /// The fall of every reached position is among the placements found, by
    /// its canonical key.
    pub proof fn lemma_fall_found(&self, q: PiecePosition) -> (j: int)
        requires
            self.complete(),
            self.reaches(q),
        ensures
            0 <= j < self.landings().len(),
            landing_key(self.landings()[j].0) == landing_key(
                dropped(self.board(), self.step_at(q).piece),
            ),
    {
        self.lemma_step_facts(-1, q);
        let k = key_of(q) as u32;
        assert(self.reached().contains_key(k));
        assert(self.settled(k));
        self.lemma_settled_landing(k);
        let fall = dropped(self.board(), self.step_at(q).piece);
        lemma_dropped_rests(self.board(), self.step_at(q).piece);
        lemma_landing_key_bounds(self.board(), fall);
        let c = landing_key(fall) as u64;
        assert(self.landing_index().contains_key(c));
        self.landing_index()[c] as int
    }

    /// The placements found stand in a one-to-one match with the canonical
    /// keys of the falls of the reached positions: each placement is the fall
    /// of a reached position, the fall of each reached position has the key
    /// of exactly one placement, and no key stands twice.
    pub proof fn lemma_landings_match_falls(&self)
        requires
            self.complete(),
        ensures
            forall|j: int|
                0 <= j < self.landings().len() ==> self.reaches((#[trigger] self.landings()[j]).1)
                    && self.landings()[j].0 == dropped(
                    self.board(),
                    self.step_at(self.landings()[j].1).piece,
                ),
            forall|q: PiecePosition| #[trigger]
                self.reaches(q) ==> exists|j: int|
                    0 <= j < self.landings().len() && landing_key(
                        (#[trigger] self.landings()[j]).0,
                    ) == landing_key(dropped(self.board(), self.step_at(q).piece)),
            forall|i: int, j: int|
                0 <= i < j < self.landings().len() ==> landing_key((#[trigger] self.landings()[i]).0)
                    != landing_key((#[trigger] self.landings()[j]).0),
    {
        assert forall|j: int| 0 <= j < self.landings().len() implies self.reaches(
            (#[trigger] self.landings()[j]).1,
        ) && self.landings()[j].0 == dropped(
            self.board(),
            self.step_at(self.landings()[j].1).piece,
        ) by {
            self.lemma_landing_reached(j);
        }
        assert forall|q: PiecePosition| #[trigger] self.reaches(q) implies exists|j: int|
            0 <= j < self.landings().len() && landing_key((#[trigger] self.landings()[j]).0)
                == landing_key(dropped(self.board(), self.step_at(q).piece)) by {
            let j = self.lemma_fall_found(q);
            assert(landing_key(self.landings()[j].0) == landing_key(
                dropped(self.board(), self.step_at(q).piece),
            ));
        }
        assert forall|i: int, j: int| 0 <= i < j < self.landings().len() implies landing_key(
            (#[trigger] self.landings()[i]).0,
        ) != landing_key((#[trigger] self.landings()[j]).0) by {
            self.lemma_landings_distinct(i, j);
        }
    }

    /// No two placements found have the same canonical key.
    pub proof fn lemma_landings_distinct(&self, i: int, j: int)
        requires
            self.complete(),
            0 <= i < j < self.landings().len(),
        ensures
            landing_key(self.landings()[i].0) != landing_key(self.landings()[j].0),
    {
        reveal(MoveGenerator::landing_sound);
        assert(self.landing_sound(i));
        assert(self.landing_sound(j));
    }
}

} // verus!
