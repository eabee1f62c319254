//! A small evaluator: stack height, holes and cleared lines.

use super::metrics::{column_heights, highest, holes_below, max_height_of};
use super::{Accumulator, Evaluator, Situation};
use crate::tetris::bit_board::BitBoard;
use crate::tetris::board::{column_height, Board};
use crate::tetris::piece::Move;
use crate::tetris::placement::PlacementResult;
use crate::tetris::state::GameState;
use vstd::prelude::*;

verus! {

/// An evaluator that scores a state by its highest column and its holes, and
/// a move by the lines it clears.
#[derive(Debug, Clone, Copy, Default)]
pub struct SimpleEvaluator;

impl Accumulator for i32 {
    type Reward = i32;

    open spec fn accumulated(&self, reward: i32) -> i32 {
        (*self + reward) as i32
    }

    open spec fn score(&self) -> int {
        *self as int
    }

    open spec fn takes(&self, reward: i32) -> bool {
        i32::MIN <= *self + reward <= i32::MAX
    }

    open spec fn scorable(&self) -> bool {
        true
    }

    open spec fn neutral() -> i32 {
        0
    }

    open spec fn no_reward() -> i32 {
        0
    }

    open spec fn grounded(&self) -> bool {
        -0x4000_0000 <= *self <= 0x4000_0000
    }

    open spec fn modest(reward: i32) -> bool {
        -0x3fff_ffff <= reward <= 0x3fff_ffff
    }

    proof fn lemma_grounded_takes(&self, reward: i32) {
    }

    proof fn lemma_no_reward(&self) {
    }

    fn fresh() -> (r: i32) {
        0
    }

    fn accumulate(&self, other: i32) -> (r: i32) {
        *self + other
    }

    fn select_score(&self) -> (s: i32) {
        *self
    }
}

/// The number of free cells of a column that lie under its second highest row.
pub open spec fn holes_of(b: Set<(int, int)>, x: int) -> int {
    holes_below(b, x, column_height(b, x) - 1)
}

/// The number of such free cells in the columns left of `n`.
pub open spec fn holes_left_of(b: Set<(int, int)>, n: int) -> int
    decreases n,
{
    if n <= 0 {
        0
    } else {
        holes_left_of(b, n - 1) + holes_of(b, n - 1)
    }
}

/// The score of a board: minus ten for each row of the highest column, minus
/// seven for each hole.
pub open spec fn simple_score(b: Set<(int, int)>) -> int {
    max_height_of(b, 10) * -10 + holes_left_of(b, 10) * -7
}

impl Evaluator for SimpleEvaluator {
    type TransientReward = i32;

    type Accumulator = i32;

    open spec fn well_formed(&self) -> bool {
        true
    }

    open spec fn state_value(&self, state: Situation) -> i32 {
        simple_score(state.board.blocks()) as i32
    }

    open spec fn move_reward(
        &self,
        mv: Move,
        placement: PlacementResult,
        state: Situation,
    ) -> i32 {
        (placement.lines_cleared * 20) as i32
    }

    open spec fn death_value(&self) -> i32 {
        -1000i32
    }

    fn death_state(&self) -> (r: i32) {
        -1000
    }

    fn evaluate_state(&self, state: &GameState<BitBoard>) -> (r: i32) {
        let heights = column_heights(&state.board);
        let max_height = highest(&state.board);
        let mut holes: i32 = 0;
        let mut x: usize = 0;
        while x < 10
            invariant
                x <= 10,
                holes as int == holes_left_of(state.board.blocks(), x as int),
                0 <= holes <= 64 * x,
                forall|k: int| 0 <= k < 10 ==> heights[k] as int == column_height(
                    state.board.blocks(),
                    k,
                ) && heights[k] <= 64,
            decreases 10 - x,
        {
            let top: i32 = heights[x] as i32 - 1;
            let mut y: i32 = 0;
            let mut found: i32 = 0;
            while y < top
                invariant
                    0 <= y,
                    y <= top || (top < 0 && y == 0),
                    top < 64,
                    x < 10,
                    found as int == holes_below(state.board.blocks(), x as int, y as int),
                    0 <= found <= y,
                decreases top - y,
            {
                if !state.board.occupied((x as i8, y as i8)) {
                    found = found + 1;
                }
                y = y + 1;
            }
            proof {
                if top < 0 {
                    assert(holes_below(state.board.blocks(), x as int, top as int) == 0);
                } else {
                    assert(y == top);
                }
                assert(found as int == holes_of(state.board.blocks(), x as int));
            }
            holes = holes + found;
            x = x + 1;
        }
        0 - (max_height as i32) * 10 - holes * 7
    }

    fn evaluate_move(&self, mv: Move, placement: PlacementResult, state: &GameState<BitBoard>) -> (r:
        i32) {
        (placement.lines_cleared * 20) as i32
    }
}

} // verus!
