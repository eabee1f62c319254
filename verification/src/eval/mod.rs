//! Evaluation of states and moves.

pub mod metrics;
pub mod simple;
pub mod standard;

pub use simple::SimpleEvaluator;
pub use standard::{Reward, StandardEvaluator, Value, Weights};

use crate::tetris::bag::SevenBag;
use crate::tetris::bit_board::BitBoard;
use crate::tetris::piece::{Move, PieceKind};
use crate::tetris::placement::PlacementResult;
use crate::tetris::state::GameState;
use vstd::prelude::*;

verus! {

/// A score that gathers the rewards of the moves that lead to a state.
pub trait Accumulator: Sized {
    /// What a move adds to the score.
    type Reward;

    /// The score after a reward has been added.
    spec fn accumulated(&self, reward: Self::Reward) -> Self;

    /// The number by which scores are compared.
    spec fn score(&self) -> int;

    /// True if the reward can be added within the machine's numbers.
    spec fn takes(&self, reward: Self::Reward) -> bool;

    /// True if the score can be computed within the machine's numbers.
    spec fn scorable(&self) -> bool;

    /// The score that stands for nothing gathered yet.
    spec fn neutral() -> Self;

    /// The reward of a move that changes nothing.
    spec fn no_reward() -> Self::Reward;

    /// True if the score is that of a state by itself, before any reward.
    spec fn grounded(&self) -> bool;

    /// True if the reward is that of a single move.
    spec fn modest(reward: Self::Reward) -> bool;

    /// The score of a state can take the reward of a move, and both the score
    /// and the sum can be compared.
    proof fn lemma_grounded_takes(&self, reward: Self::Reward)
        requires
            self.grounded(),
            Self::modest(reward),
        ensures
            self.scorable(),
            self.takes(reward),
            self.accumulated(reward).scorable(),
    ;

    /// Adding the reward of a move that changes nothing leaves the score as
    /// it is, whatever the score.
    proof fn lemma_no_reward(&self)
        ensures
            self.takes(Self::no_reward()),
            self.accumulated(Self::no_reward()) == *self,
    ;

    /// The score that stands for nothing gathered yet.
    fn fresh() -> (r: Self)
        ensures
            r == Self::neutral(),
            r.scorable(),
    ;

    /// Adds a reward.
    fn accumulate(&self, other: Self::Reward) -> (r: Self)
        requires
            self.takes(other),
        ensures
            r == self.accumulated(other),
    ;

    /// The number by which scores are compared.
    fn select_score(&self) -> (s: i32)
        requires
            self.scorable(),
        ensures
            s as int == self.score(),
    ;
}

/// What an evaluator sees of a game.
pub struct Situation {
    pub board: BitBoard,
    pub hold: Option<PieceKind>,
    pub queue: Seq<PieceKind>,
    pub bag: SevenBag,
    pub b2b: bool,
    pub ren: i32,
}

/// What an evaluator sees of a game state.
pub open spec fn situation_of(state: &GameState<BitBoard>) -> Situation {
    Situation {
        board: state.board,
        hold: state.hold,
        queue: state.queue@,
        bag: state.bag,
        b2b: state.b2b,
        ren: state.ren,
    }
}

/// A heuristic that values states and moves.
pub trait Evaluator {
    /// What a move is worth by itself.
    type TransientReward: Copy;

    /// The score of a state, to which the rewards of moves are added.
    type Accumulator: Accumulator<Reward = Self::TransientReward> + Copy;

    /// True if the evaluator's parameters keep every score within the
    /// machine's numbers.
    spec fn well_formed(&self) -> bool;

    /// The score of a state.
    spec fn state_value(&self, state: Situation) -> Self::Accumulator;

    /// The reward of a move that brought about `placement` and led to `state`.
    spec fn move_reward(
        &self,
        mv: Move,
        placement: PlacementResult,
        state: Situation,
    ) -> Self::TransientReward;

    /// Scores a state.
    fn evaluate_state(&self, state: &GameState<BitBoard>) -> (r: Self::Accumulator)
        requires
            self.well_formed(),
        ensures
            r == self.state_value(situation_of(state)),
            r.grounded(),
    ;

    /// Scores a move that brought about `placement` and led to `state`.
    fn evaluate_move(&self, mv: Move, placement: PlacementResult, state: &GameState<BitBoard>) -> (r:
        Self::TransientReward)
        requires
            self.well_formed(),
            placement.lines_cleared <= 64,
        ensures
            r == self.move_reward(mv, placement, situation_of(state)),
            Self::Accumulator::modest(r),
    ;

    /// The score that stands for a lost game.
    spec fn death_value(&self) -> Self::Accumulator;

    /// The score of a lost game.
    fn death_state(&self) -> (r: Self::Accumulator)
        ensures
            r == self.death_value(),
            r.scorable(),
    ;
}

} // verus!
