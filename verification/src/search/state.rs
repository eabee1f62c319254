//! The part of a game state by which the search tells states apart.

use crate::eval::{situation_of, Situation};
use crate::tetris::bag::SevenBag;
use crate::tetris::bit_board::BitBoard;
use crate::tetris::board::{board_empty, collides_at, full_rows_below, Board};
use crate::tetris::piece::{Move, PieceKind, PieceState};
use crate::tetris::placement::{no_placement, PlacementResult};
use crate::tetris::state::{b2b_after, lock_outcome, ren_after, GameState};
use std::collections::VecDeque;
use vstd::prelude::*;

verus! {

/// A game state without its queue: the board, the bag as it was before the
/// queued pieces were drawn, the held piece and the chain counters. The
/// queue and the piece in hand follow from the depth at which the state
/// stands in the search.
#[derive(Debug, Clone, Copy, PartialEq, Eq, Hash)]
pub struct State {
    pub board: BitBoard,
    pub bag: SevenBag,
    pub hold: Option<PieceKind>,
    pub ren: i32,
    pub b2b: bool,
}

/// The bag after the pieces of a queue were put back, the last one first.
pub open spec fn rewound(bag: SevenBag, queue: Seq<PieceKind>) -> SevenBag
    decreases queue.len(),
{
    if queue.len() == 0 {
        bag
    } else {
        rewound(bag.with(queue.last()), queue.drop_last())
    }
}

/// True if the pieces of a queue can be put back into the bag, the last one
/// first: none of them is in the bag when its turn comes.
pub open spec fn can_rewind(bag: SevenBag, queue: Seq<PieceKind>) -> bool
    decreases queue.len(),
{
    bag.well_formed() && (queue.len() == 0 || (!bag.stored().contains(queue.last()) && can_rewind(
        bag.with(queue.last()),
        queue.drop_last(),
    )))
}

/// The number that stands for the held piece: 0 for none, else one more than
/// the index of its kind.
pub open spec fn hold_code(hold: Option<PieceKind>) -> int {
    match hold {
        None => 0,
        Some(k) => k.index() + 1,
    }
}

/// The number that packs the bag, the held piece and the chain counters.
pub open spec fn meta_of(s: State) -> int {
    s.bag.0 + 256 * hold_code(s.hold) + 4096 * (if s.b2b {
        1int
    } else {
        0int
    }) + 65536 * (s.ren + 0x8000_0000)
}

impl State {
    /// The key of the state: the ten columns of its board, then the number
    /// that packs the rest.
    pub open spec fn key_seq(self) -> Seq<u64> {
        self.board.cols@.push(meta_of(self) as u64)
    }

    /// What an evaluator sees of the state, with the given pieces queued.
    pub open spec fn situation(self, queue: Seq<PieceKind>) -> Situation {
        Situation {
            board: self.board,
            hold: self.hold,
            queue,
            bag: self.bag,
            b2b: self.b2b,
            ren: self.ren,
        }
    }

    /// True if the move can be played with `current` in hand: a hold needs an
    /// empty hold slot; a placement needs a piece of the kind in hand or of
    /// the kind held, at a free place close to the field, and a combo counter
    /// that can still grow.
    pub open spec fn applies(self, mv: Move, current: PieceKind) -> bool {
        match mv {
            Move::Hold => self.hold is None,
            Move::Place(piece) => {
                &&& piece.pos.kind == current || self.hold == Some(piece.pos.kind)
                &&& piece.pos.representable()
                &&& !collides_at(self.board.blocks(), piece.pos)
                &&& self.ren < i32::MAX
            },
        }
    }

    /// The state after the move was played with `current` in hand.
    pub open spec fn moved(self, mv: Move, current: PieceKind) -> State {
        match mv {
            Move::Hold => State { hold: Some(current), ..self },
            Move::Place(piece) => {
                let lines = full_rows_below(self.board.blocks(), piece.pos, 64);
                State {
                    board: self.board.locked(piece.pos),
                    bag: self.bag,
                    hold: if piece.pos.kind != current {
                        Some(current)
                    } else {
                        self.hold
                    },
                    ren: ren_after(lines, self.ren as int) as i32,
                    b2b: b2b_after(lines, piece.spin, self.b2b),
                }
            },
        }
    }

    /// What the move brought about.
    pub open spec fn outcome(self, mv: Move, current: PieceKind) -> PlacementResult {
        match mv {
            Move::Hold => no_placement(),
            Move::Place(piece) => lock_outcome(
                piece,
                full_rows_below(self.board.blocks(), piece.pos, 64),
                board_empty(self.board.locked(piece.pos).blocks()),
                self.b2b,
                self.ren as int,
            ),
        }
    }

    /// The state of a game, with the bag as it was before the queue was drawn.
    pub fn new(state: &GameState<BitBoard>) -> (r: State)
        requires
            can_rewind(state.bag, state.queue@),
        ensures
            r == (State {
                board: state.board,
                bag: rewound(state.bag, state.queue@),
                hold: state.hold,
                ren: state.ren,
                b2b: state.b2b,
            }),
            r.bag.well_formed(),
    {
        let mut bag = state.bag;
        let mut i: usize = state.queue.len();
        proof {
            assert(state.queue@.take(state.queue@.len() as int) =~= state.queue@);
        }
        while i > 0
            invariant
                i <= state.queue@.len(),
                can_rewind(bag, state.queue@.take(i as int)),
                rewound(bag, state.queue@.take(i as int)) == rewound(state.bag, state.queue@),
            decreases i,
        {
            proof {
                let q = state.queue@.take(i as int);
                assert(q.last() == state.queue@[i - 1]);
                assert(q.drop_last() =~= state.queue@.take(i - 1));
            }
            i = i - 1;
            bag.put(state.queue[i]);
        }
        proof {
            assert(state.queue@.take(state.queue@.len() as int) =~= state.queue@);
        }
        State { board: state.board, bag, hold: state.hold, ren: state.ren, b2b: state.b2b }
    }

    /// The state of a game, if the pieces of its queue can be put back into
    /// its bag.
    pub fn try_new(state: &GameState<BitBoard>) -> (r: Option<State>)
        ensures
            r is Some <==> can_rewind(state.bag, state.queue@),
            r matches Some(s) ==> s == (State {
                board: state.board,
                bag: rewound(state.bag, state.queue@),
                hold: state.hold,
                ren: state.ren,
                b2b: state.b2b,
            }) && s.bag.well_formed(),
    {
        let mut bag = state.bag;
        let mut i: usize = state.queue.len();
        if bag.0 >= 0x7f {
            return None;
        }
        proof {
            assert(state.queue@.take(state.queue@.len() as int) =~= state.queue@);
        }
        while i > 0
            invariant
                i <= state.queue@.len(),
                bag.well_formed(),
                can_rewind(bag, state.queue@.take(i as int)) == can_rewind(
                    state.bag,
                    state.queue@,
                ),
                rewound(bag, state.queue@.take(i as int)) == rewound(state.bag, state.queue@),
            decreases i,
        {
            proof {
                let q = state.queue@.take(i as int);
                assert(q.last() == state.queue@[i - 1]);
                assert(q.drop_last() =~= state.queue@.take(i - 1));
            }
            i = i - 1;
            let piece = state.queue[i];
            if !bag.lacks(piece) {
                return None;
            }
            bag.put(piece);
        }
        proof {
            assert(state.queue@.take(state.queue@.len() as int) =~= state.queue@);
        }
        Some(State { board: state.board, bag, hold: state.hold, ren: state.ren, b2b: state.b2b })
    }

    /// Plays a move with `current` in hand.
    ///
    /// `Hold` puts the piece in hand into the empty hold slot. `Place` locks
    /// the given piece; if it is not of the kind in hand, it is the held
    /// piece, and the piece in hand takes its place. A move that cannot be
    /// played is refused, and the state stays as it is.
    pub fn advance(&mut self, mv: Move, current_piece: PieceKind) -> (r: Result<PlacementResult, ()>)
        ensures
            r is Ok <==> old(self).applies(mv, current_piece),
            r is Ok ==> *final(self) == old(self).moved(mv, current_piece),
            r matches Ok(p) ==> p == old(self).outcome(mv, current_piece),
            r matches Ok(p) ==> p.lines_cleared <= 64,
            r is Err ==> *final(self) == *old(self),
    {
        match mv {
            Move::Hold => {
                if self.hold.is_some() {
                    Err(())
                } else {
                    self.hold = Some(current_piece);
                    Ok(PlacementResult::default())
                }
            },
            Move::Place(piece) => {
                let fits = -100 <= piece.pos.x && piece.pos.x <= 100 && -100 <= piece.pos.y
                    && piece.pos.y <= 100;
                if !fits || self.ren == i32::MAX {
                    return Err(());
                }
                if self.board.collides(piece.pos) {
                    return Err(());
                }
                if piece.pos.kind != current_piece {
                    let held = match self.hold {
                        Some(k) => k == piece.pos.kind,
                        None => false,
                    };
                    if !held {
                        return Err(());
                    }
                    self.hold = Some(current_piece);
                }
                proof {
                    crate::tetris::board::lemma_full_rows_bounds(
                        old(self).board.blocks(),
                        piece.pos,
                        64,
                        64,
                    );
                }
                Ok(self.place_piece(piece))
            },
        }
    }

    /// Locks the piece: writes it to the board, clears the full rows and
    /// updates the combo counter and the back-to-back flag.
    pub fn place_piece(&mut self, piece: PieceState) -> (r: PlacementResult)
        requires
            !collides_at(old(self).board.blocks(), piece.pos),
            old(self).ren < i32::MAX,
        ensures
            final(self).board == old(self).board.locked(piece.pos),
            r == lock_outcome(
                piece,
                full_rows_below(old(self).board.blocks(), piece.pos, 64),
                board_empty(final(self).board.blocks()),
                old(self).b2b,
                old(self).ren as int,
            ),
            r.lines_cleared <= 64,
            final(self).ren == r.ren,
            final(self).b2b == b2b_after(r.lines_cleared as int, piece.spin, old(self).b2b),
            final(self).hold == old(self).hold,
            final(self).bag == old(self).bag,
    {
        proof {
            crate::tetris::board::lemma_free_is_near(self.board.blocks(), piece.pos);
        }
        let mut game = self.reconstruct_with_first_piece(piece.pos.kind);
        let ghost start = game;
        let r = game.place_piece(piece);
        proof {
            let want = old(self).board.locked(piece.pos);
            crate::tetris::board::lemma_cleared_unique(
                game.board.blocks(),
                want.blocks(),
                old(self).board.blocks(),
                piece.pos,
            );
            crate::tetris::bit_board::lemma_board_determined(game.board, want);
            crate::tetris::board::lemma_full_rows_bounds(
                old(self).board.blocks(),
                piece.pos,
                64,
                64,
            );
        }
        self.board = game.board;
        self.ren = game.ren;
        self.b2b = game.b2b;
        r
    }

    /// The game state that this state stands for when `current_piece` is
    /// the only piece queued.
    pub fn reconstruct_with_first_piece(&self, current_piece: PieceKind) -> (r: GameState<BitBoard>)
        ensures
            r.board == self.board,
            r.bag == self.bag,
            r.queue@ == seq![current_piece],
            r.hold == self.hold,
            r.ren == self.ren,
            r.b2b == self.b2b,
            situation_of(&r) == self.situation(seq![current_piece]),
    {
        let mut queue: VecDeque<PieceKind> = VecDeque::new();
        queue.push_back(current_piece);
        proof {
            assert(queue@ =~= seq![current_piece]);
        }
        GameState {
            board: self.board,
            bag: self.bag,
            queue,
            hold: self.hold,
            ren: self.ren,
            b2b: self.b2b,
        }
    }

    /// The game state that this state stands for when nothing is queued.
    pub fn to_game(&self) -> (r: GameState<BitBoard>)
        ensures
            r.board == self.board,
            r.bag == self.bag,
            r.queue@.len() == 0,
            r.hold == self.hold,
            r.ren == self.ren,
            r.b2b == self.b2b,
            situation_of(&r) == self.situation(Seq::empty()),
    {
        let r = GameState {
            board: self.board,
            bag: self.bag,
            queue: VecDeque::new(),
            hold: self.hold,
            ren: self.ren,
            b2b: self.b2b,
        };
        proof {
            assert(r.queue@ =~= Seq::empty());
        }
        r
    }

    /// The key of the state.
    pub fn key(&self) -> (r: [u64; 11])
        ensures
            r@ == self.key_seq(),
    {
        let hold: u64 = match self.hold {
            None => 0,
            Some(k) => k.ordinal() as u64 + 1,
        };
        let b2b: u64 = if self.b2b {
            1
        } else {
            0
        };
        let ren: u64 = (self.ren as i64 + 0x8000_0000) as u64;
        let meta: u64 = self.bag.0 as u64 + 256 * hold + 4096 * b2b + 65536 * ren;
        let c = &self.board.cols;
        let r = [c[0], c[1], c[2], c[3], c[4], c[5], c[6], c[7], c[8], c[9], meta];
        proof {
            assert(r@ =~= self.key_seq());
        }
        r
    }
}

/// Two states with one key are the same.
pub proof fn lemma_state_key_injective(a: State, b: State)
    requires
        a.key_seq() == b.key_seq(),
    ensures
        a == b,
{
    let ka = a.key_seq();
    let kb = b.key_seq();
    assert forall|i: int| 0 <= i < 10 implies a.board.cols@[i] == b.board.cols@[i] by {
        assert(ka[i] == a.board.cols@[i]);
        assert(kb[i] == b.board.cols@[i]);
    }
    assert(a.board.cols =~= b.board.cols);
    assert(ka[10] == meta_of(a) as u64);
    assert(kb[10] == meta_of(b) as u64);
    assert(0 <= meta_of(a) < 0x1_0000_0000_0000);
    assert(0 <= meta_of(b) < 0x1_0000_0000_0000);
    assert(meta_of(a) == meta_of(b));
    assert(a.ren == b.ren);
    assert(a.b2b == b.b2b);
    assert(hold_code(a.hold) == hold_code(b.hold));
    assert(a.bag.0 == b.bag.0);
}

} // verus!
