//! The state of a game and the moves of the piece in hand.

use super::bag::SevenBag;
use super::board::{
    board_empty, cleared_from, collides_at, free_below, full_rows_below, lemma_free_below_props, occupied_at, Board,
};
use super::movegen::{key_space, lemma_free_piece_near, MoveGenerator};
use super::piece::{Move, PieceKind, PiecePosition, PieceState, Rotation, SpinKind};
use super::placement::{no_placement, PlacementResult};
use std::collections::VecDeque;
use vstd::prelude::*;

verus! {

/// A game in progress: the board, the held piece, the pieces to come, the
/// bag they are drawn from, and the two chain counters.
#[derive(Clone, Debug)]
pub struct GameState<B: Board> {
    pub board: B,
    pub hold: Option<PieceKind>,
    pub queue: VecDeque<PieceKind>,
    pub bag: SevenBag,
    /// True while a back-to-back chain runs.
    pub b2b: bool,
    /// The combo counter: -1 when no combo runs, 0 after a first clear.
    pub ren: i32,
}

/// A piece of the given kind at a place, facing north, without spin.
pub open spec fn fresh_piece(kind: PieceKind, x: i8, y: i8) -> PieceState {
    PieceState { pos: PiecePosition { kind, x, y, rot: Rotation::North }, spin: SpinKind::NoSpin }
}

/// Where a new piece appears: at column 4 of row 19, or of row 20 if it
/// collides there, or nowhere if it collides there too.
pub open spec fn spawn_of(b: Set<(int, int)>, kind: PieceKind) -> Option<PieceState> {
    if !collides_at(b, fresh_piece(kind, 4, 19).pos) {
        Some(fresh_piece(kind, 4, 19))
    } else if !collides_at(b, fresh_piece(kind, 4, 20).pos) {
        Some(fresh_piece(kind, 4, 20))
    } else {
        None
    }
}

/// The piece moved by an offset, unless it collides there.
pub open spec fn strafe_of(b: Set<(int, int)>, piece: PieceState, dx: int, dy: int) -> Option<
    PieceState,
> {
    if collides_at(b, piece.pos.shifted(dx, dy)) {
        None
    } else {
        Some(PieceState { pos: piece.pos.shifted(dx, dy), spin: SpinKind::NoSpin })
    }
}

/// The `i`-th kick of a rotation: the difference between the entries of the
/// kick tables of the source and of the target orientation.
pub open spec fn kick(kind: PieceKind, from: Rotation, to: Rotation, i: int) -> (int, int) {
    let a = kind.kick_table(from)[i];
    let b = kind.kick_table(to)[i];
    (a.0 - b.0, a.1 - b.1)
}

/// The position that the `i`-th kick of a quarter turn leads to.
pub open spec fn kicked(pos: PiecePosition, clockwise: bool, i: int) -> PiecePosition {
    let to = pos.rot.quarter_turn(clockwise);
    let k = kick(pos.kind, pos.rot, to, i);
    PiecePosition { kind: pos.kind, x: (pos.x + k.0) as i8, y: (pos.y + k.1) as i8, rot: to }
}

/// One if the cell is occupied, else zero.
pub open spec fn occupied_one(b: Set<(int, int)>, x: int, y: int) -> int {
    if occupied_at(b, x, y) {
        1
    } else {
        0
    }
}

/// The number of occupied cells among the four diagonal neighbours of (x, y).
pub open spec fn corner_count(b: Set<(int, int)>, x: int, y: int) -> int {
    occupied_one(b, x - 1, y - 1) + occupied_one(b, x + 1, y - 1) + occupied_one(b, x - 1, y + 1)
        + occupied_one(b, x + 1, y + 1)
}

/// The number of occupied cells among the two front corners of a piece.
pub open spec fn front_count(b: Set<(int, int)>, pos: PiecePosition) -> int {
    let l = pos.rot.turned(-1, 1);
    let r = pos.rot.turned(1, 1);
    occupied_one(b, l.0 + pos.x, l.1 + pos.y) + occupied_one(b, r.0 + pos.x, r.1 + pos.y)
}

/// The spin of a rotation that ended at `target` through kick `i`. Only the T
/// piece spins, and only with three occupied corners; the spin is full when
/// both front corners are occupied or the last kick was taken.
pub open spec fn spin_of(b: Set<(int, int)>, target: PiecePosition, i: int) -> SpinKind {
    if target.kind != PieceKind::T {
        SpinKind::NoSpin
    } else if corner_count(b, target.x as int, target.y as int) < 3 {
        SpinKind::NoSpin
    } else if front_count(b, target) == 2 || i == 4 {
        SpinKind::Full
    } else {
        SpinKind::Mini
    }
}

/// The result of a quarter turn that tries the kicks from the `i`-th on.
pub open spec fn rotate_from(b: Set<(int, int)>, piece: PieceState, clockwise: bool, i: int) -> Option<
    PieceState,
>
    decreases 5 - i,
{
    if i < 0 || i >= 5 {
        None
    } else {
        let target = kicked(piece.pos, clockwise, i);
        if !collides_at(b, target) {
            Some(PieceState { pos: target, spin: spin_of(b, target, i) })
        } else {
            rotate_from(b, piece, clockwise, i + 1)
        }
    }
}

/// The result of a quarter turn: the first kicked position that does not
/// collide, with its spin.
pub open spec fn rotate_of(b: Set<(int, int)>, piece: PieceState, clockwise: bool) -> Option<
    PieceState,
> {
    rotate_from(b, piece, clockwise, 0)
}

/// The smaller of two numbers.
pub open spec fn least(a: int, b: int) -> int {
    if a <= b {
        a
    } else {
        b
    }
}

/// How far a piece can fall: the least ground clearance of its cells.
pub open spec fn drop_distance(b: Set<(int, int)>, pos: PiecePosition) -> int {
    least(
        least(free_below(b, pos.cell(0).0, pos.cell(0).1), free_below(b, pos.cell(1).0, pos.cell(1).1)),
        least(free_below(b, pos.cell(2).0, pos.cell(2).1), free_below(b, pos.cell(3).0, pos.cell(3).1)),
    )
}

/// The piece after it has fallen as far as it can. The spin survives only a
/// fall of distance zero.
pub open spec fn dropped(b: Set<(int, int)>, piece: PieceState) -> PieceState {
    let d = drop_distance(b, piece.pos);
    PieceState {
        pos: piece.pos.shifted(0, -d),
        spin: if d == 0 {
            piece.spin
        } else {
            SpinKind::NoSpin
        },
    }
}

/// True if all four cells of the piece lie at row 20 or above.
pub open spec fn locks_out(pos: PiecePosition) -> bool {
    pos.cell(0).1 >= 20 && pos.cell(1).1 >= 20 && pos.cell(2).1 >= 20 && pos.cell(3).1 >= 20
}

/// True if a clear of `lines` rows by a piece with the given spin counts for
/// a back-to-back chain.
pub open spec fn chains(lines: int, spin: SpinKind) -> bool {
    lines == 4 || (lines > 0 && spin != SpinKind::NoSpin)
}

/// The outcome of locking `piece` when this clears `lines` rows, leaves the
/// board empty or not, and the chain counters stood at `b2b` and `ren`.
pub open spec fn lock_outcome(
    piece: PieceState,
    lines: int,
    now_empty: bool,
    b2b: bool,
    ren: int,
) -> PlacementResult {
    PlacementResult {
        lines_cleared: lines as u32,
        ren: ren_after(lines, ren) as i32,
        spin: piece.spin,
        is_b2b_clear: b2b && chains(lines, piece.spin),
        is_pc: now_empty,
        death: locks_out(piece.pos),
    }
}

/// The combo counter after a placement that cleared `lines` rows.
pub open spec fn ren_after(lines: int, ren: int) -> int {
    if lines > 0 {
        ren + 1
    } else {
        -1
    }
}

/// The back-to-back flag after a placement that cleared `lines` rows.
pub open spec fn b2b_after(lines: int, spin: SpinKind, b2b: bool) -> bool {
    if lines > 0 {
        chains(lines, spin)
    } else {
        b2b
    }
}

/// The entries of the kick tables are small.
pub proof fn lemma_kick_table_bounds(kind: PieceKind, rot: Rotation, i: int)
    requires
        0 <= i < 5,
    ensures
        kind.kick_table(rot).len() == 5,
        -2 <= kind.kick_table(rot)[i].0 <= 2,
        -2 <= kind.kick_table(rot)[i].1 <= 2,
{
}

/// The cells of a footprint are close to the centre.
pub proof fn lemma_cell_bounds(pos: PiecePosition, i: int)
    requires
        0 <= i < 4,
    ensures
        pos.x - 2 <= pos.cell(i).0 <= pos.x + 2,
        pos.y - 2 <= pos.cell(i).1 <= pos.y + 2,
{
}

/// A piece that has fallen as far as it can still fits, and cannot fall further.
#[verifier::rlimit(50)]
pub proof fn lemma_dropped_rests(b: Set<(int, int)>, piece: PieceState)
    requires
        piece.pos.representable(),
        !collides_at(b, piece.pos),
    ensures
        0 <= drop_distance(b, piece.pos) <= 63,
        !collides_at(b, dropped(b, piece).pos),
        collides_at(b, dropped(b, piece).pos.shifted(0, -1)),
        drop_distance(b, dropped(b, piece).pos) == 0,
{
    let pos = piece.pos;
    let d = drop_distance(b, pos);
    lemma_free_below_props(b, pos.cell(0).0, pos.cell(0).1);
    lemma_free_below_props(b, pos.cell(1).0, pos.cell(1).1);
    lemma_free_below_props(b, pos.cell(2).0, pos.cell(2).1);
    lemma_free_below_props(b, pos.cell(3).0, pos.cell(3).1);
    let low = pos.shifted(0, -d);
    assert forall|i: int| 0 <= i < 4 implies low.cell(i) == (pos.cell(i).0, pos.cell(i).1 - d) by {}
    let under = low.shifted(0, -1);
    assert forall|i: int| 0 <= i < 4 implies under.cell(i) == (pos.cell(i).0, pos.cell(i).1 - d - 1) by {}
    lemma_free_below_props(b, low.cell(0).0, low.cell(0).1);
    lemma_free_below_props(b, low.cell(1).0, low.cell(1).1);
    lemma_free_below_props(b, low.cell(2).0, low.cell(2).1);
    lemma_free_below_props(b, low.cell(3).0, low.cell(3).1);
}

impl<B: Board> GameState<B> {
    /// A game on an empty board, with nothing held or queued and a full bag.
    pub fn new() -> (r: Self)
        ensures
            board_empty(r.board.blocks()),
            r.hold is None,
            r.queue@.len() == 0,
            r.bag == SevenBag(0),
            !r.b2b,
            r.ren == -1,
    {
        GameState {
            board: B::empty(),
            hold: None,
            queue: VecDeque::new(),
            bag: SevenBag(0),
            b2b: false,
            ren: -1,
        }
    }

    /// Draws a piece at random from the bag, appends it to the queue and
    /// returns it.
    pub fn fulfill_queue(&mut self) -> (p: PieceKind)
        requires
            old(self).bag.well_formed(),
        ensures
            old(self).bag.available().contains(p),
            final(self).bag == old(self).bag.without(p),
            final(self).bag.well_formed(),
            final(self).queue@ == old(self).queue@.push(p),
            final(self).board == old(self).board,
            final(self).hold == old(self).hold,
            final(self).b2b == old(self).b2b,
            final(self).ren == old(self).ren,
    {
        let p = self.bag.take_rand();
        self.queue.push_back(p);
        p
    }

    /// Takes the next piece off the queue and spawns it.
    pub fn spawn_next(&mut self) -> (r: Option<PieceState>)
        requires
            old(self).queue@.len() > 0,
        ensures
            r == spawn_of(old(self).board.blocks(), old(self).queue@[0]),
            final(self).queue@ == old(self).queue@.skip(1),
            final(self).board == old(self).board,
            final(self).hold == old(self).hold,
            final(self).bag == old(self).bag,
            final(self).b2b == old(self).b2b,
            final(self).ren == old(self).ren,
    {
        match self.queue.pop_front() {
            Some(kind) => self.spawn(kind),
            None => None,
        }
    }

    /// Swaps the piece in hand with the held piece and spawns the latter.
    pub fn spawn_hold(&mut self, current: PieceKind) -> (r: Option<PieceState>)
        requires
            old(self).hold is Some,
        ensures
            r == spawn_of(old(self).board.blocks(), old(self).hold->0),
            final(self).hold == Some(current),
            final(self).queue == old(self).queue,
            final(self).board == old(self).board,
            final(self).bag == old(self).bag,
            final(self).b2b == old(self).b2b,
            final(self).ren == old(self).ren,
    {
        let unhold = match self.hold {
            Some(k) => k,
            None => current,
        };
        self.hold = Some(current);
        self.spawn(unhold)
    }

    /// Where a new piece of the given kind appears, if anywhere.
    pub fn spawn(&self, kind: PieceKind) -> (r: Option<PieceState>)
        ensures
            r == spawn_of(self.board.blocks(), kind),
    {
        let mut p = PieceState::new(kind, (4, 19), Rotation::North);
        if self.board.collides(p.pos) {
            p = PieceState::new(kind, (4, 20), Rotation::North);
            if self.board.collides(p.pos) {
                return None;
            }
        }
        Some(p)
    }

    /// Moves the piece by `delta`, unless it collides there. The piece that
    /// has moved has no spin. The place that it moves to must fit the
    /// machine's numbers.
    pub fn strafe(&self, piece: PieceState, delta: (i8, i8)) -> (r: Option<PieceState>)
        requires
            i8::MIN <= piece.pos.x + delta.0 <= i8::MAX,
            i8::MIN <= piece.pos.y + delta.1 <= i8::MAX,
        ensures
            r == strafe_of(self.board.blocks(), piece, delta.0 as int, delta.1 as int),
    {
        let moved = piece.translate(delta);
        if moved.pos.x < -100 || moved.pos.x > 100 || moved.pos.y < -100 || moved.pos.y > 100 {
            proof {
                if !collides_at(self.board.blocks(), moved.pos) {
                    lemma_free_piece_near(self.board.blocks(), moved.pos);
                }
            }
            return None;
        }
        if self.board.collides(moved.pos) {
            None
        } else {
            Some(PieceState { pos: moved.pos, spin: SpinKind::NoSpin })
        }
    }

    /// Turns the piece by a quarter: tries the five kicks in order and takes
    /// the first that does not collide. The places that the kicks lead to,
    /// which lie at most four cells from the piece, must fit the machine's
    /// numbers.
    #[verifier::rlimit(50)]
    pub fn rotate(&self, piece: PieceState, clockwise: bool) -> (r: Option<PieceState>)
        requires
            i8::MIN + 4 <= piece.pos.x <= i8::MAX - 4,
            i8::MIN + 4 <= piece.pos.y <= i8::MAX - 4,
        ensures
            r == rotate_of(self.board.blocks(), piece, clockwise),
    {
        let from = piece.pos.rot;
        let to = from.rotated(clockwise);
        let from_offsets = piece.pos.kind.rotation_offsets(from);
        let to_offsets = piece.pos.kind.rotation_offsets(to);
        let mut i: usize = 0;
        while i < 5
            invariant
                i <= 5,
                i8::MIN + 4 <= piece.pos.x <= i8::MAX - 4,
                i8::MIN + 4 <= piece.pos.y <= i8::MAX - 4,
                from == piece.pos.rot,
                to == from.quarter_turn(clockwise),
                from_offsets@ == piece.pos.kind.kick_table(from),
                to_offsets@ == piece.pos.kind.kick_table(to),
                rotate_of(self.board.blocks(), piece, clockwise) == rotate_from(
                    self.board.blocks(),
                    piece,
                    clockwise,
                    i as int,
                ),
            decreases 5 - i,
        {
            proof {
                lemma_kick_table_bounds(piece.pos.kind, from, i as int);
                lemma_kick_table_bounds(piece.pos.kind, to, i as int);
            }
            let a = from_offsets[i];
            let b = to_offsets[i];
            let target = PiecePosition {
                kind: piece.pos.kind,
                x: piece.pos.x + (a.0 - b.0),
                y: piece.pos.y + (a.1 - b.1),
                rot: to,
            };
            assert(target == kicked(piece.pos, clockwise, i as int));
            let near = -100 <= target.x && target.x <= 100 && -100 <= target.y && target.y <= 100;
            proof {
                if !near && !collides_at(self.board.blocks(), target) {
                    lemma_free_piece_near(self.board.blocks(), target);
                }
                if near {
                    target.lemma_near_fits();
                }
            }
            if near && !self.board.collides(target) {
                let spin = self.classify_spin(target, i);
                return Some(PieceState { pos: target, spin });
            }
            i = i + 1;
        }
        None
    }

    /// The spin of a rotation that ended at `target` through kick `i`.
    fn classify_spin(&self, target: PiecePosition, i: usize) -> (r: SpinKind)
        requires
            target.representable(),
        ensures
            r == spin_of(self.board.blocks(), target, i as int),
    {
        match target.kind {
            PieceKind::T => {
                let mut corners: u8 = 0;
                if self.board.occupied((target.x - 1, target.y - 1)) {
                    corners = corners + 1;
                }
                if self.board.occupied((target.x + 1, target.y - 1)) {
                    corners = corners + 1;
                }
                if self.board.occupied((target.x - 1, target.y + 1)) {
                    corners = corners + 1;
                }
                if self.board.occupied((target.x + 1, target.y + 1)) {
                    corners = corners + 1;
                }
                let l = target.rot.rotate_cell((-1, 1));
                let r = target.rot.rotate_cell((1, 1));
                let mut front: u8 = 0;
                if self.board.occupied((l.0 + target.x, l.1 + target.y)) {
                    front = front + 1;
                }
                if self.board.occupied((r.0 + target.x, r.1 + target.y)) {
                    front = front + 1;
                }
                if corners < 3 {
                    SpinKind::NoSpin
                } else if front == 2 || i == 4 {
                    SpinKind::Full
                } else {
                    SpinKind::Mini
                }
            },
            _ => SpinKind::NoSpin,
        }
    }

    /// Lets the piece fall as far as it can.
    pub fn sonic_drop(&self, piece: &PieceState) -> (r: Option<PieceState>)
        requires
            !collides_at(self.board.blocks(), piece.pos),
        ensures
            r == Some(dropped(self.board.blocks(), *piece)),
    {
        proof {
            super::board::lemma_free_is_near(self.board.blocks(), piece.pos);
        }
        let cells = piece.pos.cells();
        proof {
            assert((cells[0].0 as int, cells[0].1 as int) == piece.pos.cell(0));
            assert((cells[1].0 as int, cells[1].1 as int) == piece.pos.cell(1));
            assert((cells[2].0 as int, cells[2].1 as int) == piece.pos.cell(2));
            assert((cells[3].0 as int, cells[3].1 as int) == piece.pos.cell(3));
        }
        let mut distance = self.board.distance_to_ground(cells[0]);
        let d1 = self.board.distance_to_ground(cells[1]);
        if d1 < distance {
            distance = d1;
        }
        let d2 = self.board.distance_to_ground(cells[2]);
        if d2 < distance {
            distance = d2;
        }
        let d3 = self.board.distance_to_ground(cells[3]);
        if d3 < distance {
            distance = d3;
        }
        let spin = if distance == 0 {
            piece.spin
        } else {
            SpinKind::NoSpin
        };
        let fall = distance as i8;
        Some(
            PieceState {
                pos: PiecePosition {
                    kind: piece.pos.kind,
                    x: piece.pos.x,
                    y: piece.pos.y - fall,
                    rot: piece.pos.rot,
                },
                spin,
            },
        )
    }

    /// True if the piece rests on the ground or on a block.
    pub fn is_grounded(&self, piece: &PieceState) -> (r: bool)
        requires
            !collides_at(self.board.blocks(), piece.pos),
        ensures
            r == (drop_distance(self.board.blocks(), piece.pos) == 0),
    {
        proof {
            super::board::lemma_free_is_near(self.board.blocks(), piece.pos);
            lemma_dropped_rests(self.board.blocks(), *piece);
        }
        match self.sonic_drop(piece) {
            Some(d) => d.pos.y == piece.pos.y,
            None => false,
        }
    }

    /// Locks the piece: writes it to the board, clears the full rows and
    /// updates the combo counter and the back-to-back flag.
    pub fn place_piece(&mut self, piece: PieceState) -> (r: PlacementResult)
        requires
            !collides_at(old(self).board.blocks(), piece.pos),
            old(self).ren < i32::MAX,
        ensures
            cleared_from(final(self).board.blocks(), old(self).board.blocks(), piece.pos),
            r == lock_outcome(
                piece,
                full_rows_below(old(self).board.blocks(), piece.pos, 64),
                board_empty(final(self).board.blocks()),
                old(self).b2b,
                old(self).ren as int,
            ),
            final(self).ren == r.ren,
            final(self).b2b == b2b_after(r.lines_cleared as int, piece.spin, old(self).b2b),
            final(self).hold == old(self).hold,
            final(self).queue == old(self).queue,
            final(self).bag == old(self).bag,
    {
        proof {
            super::board::lemma_free_is_near(self.board.blocks(), piece.pos);
        }
        let cells = piece.pos.cells();
        proof {
            assert((cells[0].0 as int, cells[0].1 as int) == piece.pos.cell(0));
            assert((cells[1].0 as int, cells[1].1 as int) == piece.pos.cell(1));
            assert((cells[2].0 as int, cells[2].1 as int) == piece.pos.cell(2));
            assert((cells[3].0 as int, cells[3].1 as int) == piece.pos.cell(3));
            super::board::lemma_full_rows_bounds(old(self).board.blocks(), piece.pos, 64, 64);
        }
        let death = cells[0].1 >= 20 && cells[1].1 >= 20 && cells[2].1 >= 20 && cells[3].1 >= 20;
        let lines_cleared = self.board.add_piece_and_clear(piece);
        let is_pc = self.board.is_empty();
        let spun = match piece.spin {
            SpinKind::NoSpin => false,
            _ => true,
        };
        let is_b2b = lines_cleared == 4 || (lines_cleared > 0 && spun);
        let is_b2b_clear = self.b2b && is_b2b;
        if lines_cleared > 0 {
            self.ren = self.ren + 1;
            self.b2b = is_b2b;
        } else {
            self.ren = -1;
        }
        PlacementResult {
            lines_cleared,
            is_b2b_clear,
            is_pc,
            ren: self.ren,
            spin: piece.spin,
            death,
        }
    }

    /// Plays a move with the piece at the head of the queue.
    ///
    /// `Hold` puts that piece into the empty hold slot. `Place` locks the
    /// given piece; if it is not of the kind at the head of the queue, it is
    /// the held piece, and the head of the queue takes its place in the hold.
    pub fn advance(&mut self, mv: Move) -> (r: PlacementResult)
        requires
            old(self).queue@.len() > 0,
            mv is Hold ==> old(self).hold is None,
            mv matches Move::Place(piece) ==> {
                &&& piece.pos.kind != old(self).queue@[0] ==> old(self).hold == Some(piece.pos.kind)
                &&& piece.pos.representable()
                &&& !collides_at(old(self).board.blocks(), piece.pos)
                &&& old(self).ren < i32::MAX
            },
        ensures
            final(self).queue@ == old(self).queue@.skip(1),
            final(self).bag == old(self).bag,
            mv is Hold ==> {
                &&& r == no_placement()
                &&& final(self).hold == Some(old(self).queue@[0])
                &&& final(self).board == old(self).board
                &&& final(self).b2b == old(self).b2b
                &&& final(self).ren == old(self).ren
            },
            mv matches Move::Place(piece) ==> {
                &&& cleared_from(final(self).board.blocks(), old(self).board.blocks(), piece.pos)
                &&& r == lock_outcome(
                    piece,
                    full_rows_below(old(self).board.blocks(), piece.pos, 64),
                    board_empty(final(self).board.blocks()),
                    old(self).b2b,
                    old(self).ren as int,
                )
                &&& final(self).ren == r.ren
                &&& final(self).b2b == b2b_after(r.lines_cleared as int, piece.spin, old(self).b2b)
                &&& final(self).hold == (if piece.pos.kind != old(self).queue@[0] {
                    Some(old(self).queue@[0])
                } else {
                    old(self).hold
                })
            },
    {
        let current = match self.queue.pop_front() {
            Some(k) => k,
            None => PieceKind::I,
        };
        match mv {
            Move::Hold => {
                self.hold = Some(current);
                PlacementResult::default()
            },
            Move::Place(piece) => {
                if piece.pos.kind != current {
                    self.hold = Some(current);
                }
                self.place_piece(piece)
            },
        }
    }

    /// The moves that the piece at the head of the queue can make: one
    /// placement for each landing that can be reached, and with `use_hold`
    /// the hold move if the hold slot is empty, or else the placements of the
    /// held piece. Fails if the piece at the head of the queue cannot spawn.
    pub fn legal_moves(&self, use_hold: bool) -> (r: Result<Vec<Move>, ()>)
        requires
            self.queue@.len() > 0,
        ensures
            r is Err <==> spawn_of(self.board.blocks(), self.queue@[0]) is None,
            r matches Ok(v) ==> exists|g: MoveGenerator|
                g.searches(self.board.blocks(), self.queue@[0], self.hold, use_hold)
                    && #[trigger] g.move_seq() == v@,
            r matches Ok(v) ==> v@.len() <= key_space() + 1,
    {
        match MoveGenerator::generate_for(self, use_hold) {
            Ok(g) => Ok(g.moves()),
            Err(e) => Err(e),
        }
    }

    /// Appends a revealed piece to the queue and takes it out of the bag.
    pub fn add_piece(&mut self, piece: PieceKind)
        requires
            old(self).bag.available().contains(piece),
        ensures
            final(self).bag == old(self).bag.without(piece),
            final(self).queue@ == old(self).queue@.push(piece),
            final(self).board == old(self).board,
            final(self).hold == old(self).hold,
            final(self).b2b == old(self).b2b,
            final(self).ren == old(self).ren,
    {
        self.bag.take(piece);
        self.queue.push_back(piece);
    }
}

} // verus!
