//! The standard evaluator: a weighted sum of measures of the board, and
//! bonuses for what a move achieves.

use super::metrics::{
    bump_sq_upto, bump_upto, calc_bumpiness, calc_well_x_and_depth, cavities_and_overhangs,
    cavities_upto, covered_cells, covered_sq_upto, covered_upto, danger_height,
    highest, larger, lemma_product_bound, lemma_square_bound, max_danger_height, max_diff_upto,
    max_height_diff, max_height_of, overhangs_upto, row_transitions, square, transitions_upto,
    well_column, well_depth,
};
use super::{Accumulator, Evaluator, Situation};
use crate::tetris::bit_board::BitBoard;
use crate::tetris::board::Board;
use crate::tetris::piece::{Move, PieceKind, SpinKind};
use crate::tetris::placement::{attack_of, combo_bonus, ren_attack, PlacementResult};
use crate::tetris::state::GameState;
use vstd::prelude::*;

verus! {

/// The largest magnitude of a weight that multiplies a measure or stands for
/// a bonus.
pub const WEIGHT_MAX: i32 = 4000;

/// The largest magnitude of a weight that multiplies a sum of squares.
pub const SQUARE_WEIGHT_MAX: i32 = 16;

/// The weights of the standard evaluator.
#[derive(Debug, Clone)]
pub struct Weights {
    pub no_tspin: bool,
    pub bump_sum: i32,
    pub bump_sum_sq: i32,
    pub well_depth: i32,
    pub well_x: [i32; 10],
    pub max_height_diff: i32,
    pub max_height: i32,
    pub top_50: i32,
    pub top_75: i32,
    pub cavities: i32,
    pub cavities_sq: i32,
    pub overhangs: i32,
    pub overhangs_sq: i32,
    pub covered_cells: i32,
    pub covered_cells_sq: i32,
    pub row_transitions: i32,
    pub downstack: i32,
    pub move_time: i32,
    pub danger: i32,
    pub b2b_continue: i32,
    pub b2b_destroy: i32,
    pub placement_height: i32,
    pub perfect: i32,
    pub ren: i32,
    pub clear1: i32,
    pub clear2: i32,
    pub clear3: i32,
    pub clear4: i32,
    pub t_mini1: i32,
    pub t_mini2: i32,
    pub t_spin1: i32,
    pub t_spin2: i32,
    pub t_spin3: i32,
    pub wasted_t: i32,
    pub hold_t: i32,
}

/// True if a weight is at most `max` in magnitude.
pub open spec fn within(w: i32, max: i32) -> bool {
    -max <= w <= max
}

impl Weights {
    /// True if every weight is small enough for the scores to stay within the
    /// machine's numbers, and the weight of the downstack term is zero.
    pub open spec fn bounded(&self) -> bool {
        &&& within(self.bump_sum, WEIGHT_MAX)
        &&& within(self.bump_sum_sq, SQUARE_WEIGHT_MAX)
        &&& within(self.well_depth, WEIGHT_MAX)
        &&& forall|i: int| 0 <= i < 10 ==> within(#[trigger] self.well_x[i], WEIGHT_MAX)
        &&& within(self.max_height_diff, WEIGHT_MAX)
        &&& within(self.max_height, WEIGHT_MAX)
        &&& within(self.top_50, WEIGHT_MAX)
        &&& within(self.top_75, WEIGHT_MAX)
        &&& within(self.cavities, WEIGHT_MAX)
        &&& within(self.cavities_sq, SQUARE_WEIGHT_MAX)
        &&& within(self.overhangs, WEIGHT_MAX)
        &&& within(self.overhangs_sq, SQUARE_WEIGHT_MAX)
        &&& within(self.covered_cells, WEIGHT_MAX)
        &&& within(self.covered_cells_sq, SQUARE_WEIGHT_MAX)
        &&& within(self.row_transitions, WEIGHT_MAX)
        &&& self.downstack == 0
        &&& within(self.move_time, WEIGHT_MAX)
        &&& within(self.danger, WEIGHT_MAX)
        &&& within(self.b2b_continue, WEIGHT_MAX)
        &&& within(self.b2b_destroy, WEIGHT_MAX)
        &&& within(self.placement_height, WEIGHT_MAX)
        &&& within(self.perfect, WEIGHT_MAX)
        &&& within(self.ren, WEIGHT_MAX)
        &&& within(self.clear1, WEIGHT_MAX)
        &&& within(self.clear2, WEIGHT_MAX)
        &&& within(self.clear3, WEIGHT_MAX)
        &&& within(self.clear4, WEIGHT_MAX)
        &&& within(self.t_mini1, WEIGHT_MAX)
        &&& within(self.t_mini2, WEIGHT_MAX)
        &&& within(self.t_spin1, WEIGHT_MAX)
        &&& within(self.t_spin2, WEIGHT_MAX)
        &&& within(self.t_spin3, WEIGHT_MAX)
        &&& within(self.wasted_t, WEIGHT_MAX)
        &&& within(self.hold_t, WEIGHT_MAX)
    }

    /// True if the weights are those that the evaluator was tuned to.
    pub open spec fn tuned(&self) -> bool {
        &&& self.well_x@ == seq![
            150i32,
            -100i32,
            300i32,
            20i32,
            60i32,
            60i32,
            15i32,
            280i32,
            -110i32,
            140i32,
        ]
        &&& self.bump_sum == 20 && self.bump_sum_sq == -10 && self.well_depth == 100
        &&& self.max_height_diff == 0 && self.max_height == 20 && self.top_50 == -60
            && self.top_75 == -300
        &&& self.cavities == -400 && self.cavities_sq == -10 && self.overhangs == -170
            && self.overhangs_sq == -2
        &&& self.covered_cells == 0 && self.covered_cells_sq == 0 && self.row_transitions == -5
        &&& self.downstack == 0 && self.move_time == -6 && self.danger == -20
        &&& self.b2b_continue == 340 && self.b2b_destroy == -380
        &&& self.placement_height == 0 && self.perfect == 3800 && self.ren == 100
        &&& self.clear1 == -500 && self.clear2 == -375 && self.clear3 == -160 && self.clear4 == 800
        &&& self.t_mini1 == -880 && self.t_mini2 == -500
        &&& self.t_spin1 == 220 && self.t_spin2 == 1000 && self.t_spin3 == 1270
        &&& self.wasted_t == -300 && self.hold_t == 10 && !self.no_tspin
    }

    /// The bonus for a clear of `lines` rows by a piece with the given spin.
    pub open spec fn clear_bonus(&self, spin: SpinKind, lines: int) -> int {
        match spin {
            SpinKind::NoSpin => if lines == 1 {
                self.clear1 as int
            } else if lines == 2 {
                self.clear2 as int
            } else if lines == 3 {
                self.clear3 as int
            } else if lines == 4 {
                self.clear4 as int
            } else {
                0
            },
            SpinKind::Full => if lines == 1 {
                self.t_spin1 as int
            } else if lines == 2 {
                self.t_spin2 as int
            } else if lines == 3 {
                self.t_spin3 as int
            } else {
                0
            },
            SpinKind::Mini => if lines == 1 {
                self.t_mini1 as int
            } else if lines == 2 {
                self.t_mini2 as int
            } else {
                0
            },
        }
    }
}

impl Default for Weights {
    /// The weights that the evaluator was tuned to.
    fn default() -> (r: Weights)
        ensures
            r.bounded(),
            r.tuned(),
    {
        let r = Weights {
            clear1: -500,
            clear2: -375,
            clear3: -160,
            clear4: 800,
            t_spin1: 220,
            t_spin2: 1000,
            t_spin3: 1270,
            t_mini1: -880,
            t_mini2: -500,
            perfect: 3800,
            b2b_continue: 340,
            b2b_destroy: -380,
            ren: 100,
            wasted_t: -300,
            hold_t: 10,
            bump_sum: 20,
            bump_sum_sq: -10,
            max_height_diff: 0,
            well_depth: 100,
            max_height: 20,
            top_50: -60,
            top_75: -300,
            danger: -20,
            placement_height: 0,
            move_time: -6,
            cavities: -400,
            cavities_sq: -10,
            overhangs: -170,
            overhangs_sq: -2,
            covered_cells: 0,
            covered_cells_sq: 0,
            row_transitions: -5,
            well_x: [150, -100, 300, 20, 60, 60, 15, 280, -110, 140],
            no_tspin: false,
            downstack: 0,
        };
        assert(r.well_x@ =~= seq![150i32, -100i32, 300i32, 20i32, 60i32, 60i32, 15i32, 280i32, -110i32, 140i32]);
        r
    }
}

/// The standard evaluator.
#[derive(Debug, Clone)]
pub struct StandardEvaluator {
    pub weights: Weights,
}

impl Default for StandardEvaluator {
    /// The evaluator with the tuned weights.
    fn default() -> (r: StandardEvaluator)
        ensures
            r.weights.bounded(),
            r.weights.tuned(),
    {
        StandardEvaluator { weights: Weights::default() }
    }
}

/// The score of a state under the standard evaluator.
#[derive(Debug, Clone, Copy, PartialEq, Eq, Structural)]
pub struct Value {
    /// How safe the board is.
    pub safety: i32,
    /// How much attack the board prepares.
    pub power: i32,
    /// The reward of the move that led here.
    pub reward: i32,
    /// The number of attacking moves in a row.
    pub spike: i32,
}

/// The reward of a move under the standard evaluator.
#[derive(Debug, Clone, Copy, PartialEq, Eq, Structural)]
pub struct Reward {
    /// What the move is worth.
    pub eval: i32,
    /// The garbage lines it sends.
    pub attack: u32,
}

/// The largest magnitude of the safety of a state.
pub const SAFETY_MAX: i32 = 250_000_000;

/// The largest magnitude of the power of a state.
pub const POWER_MAX: i32 = 3_000_000;

/// The largest magnitude of the reward of a move.
pub const REWARD_MAX: i32 = 10_000_000;

impl Default for Value {
    fn default() -> (r: Value)
        ensures
            r == (Value { safety: 0, power: 0, reward: 0, spike: 0 }),
    {
        Value { safety: 0, power: 0, reward: 0, spike: 0 }
    }
}

impl Default for Reward {
    fn default() -> (r: Reward)
        ensures
            r == (Reward { eval: 0, attack: 0 }),
    {
        Reward { eval: 0, attack: 0 }
    }
}

impl Accumulator for Value {
    type Reward = Reward;

    open spec fn accumulated(&self, reward: Reward) -> Value {
        Value {
            safety: self.safety,
            power: self.power,
            reward: (self.reward + reward.eval) as i32,
            spike: if reward.attack > 0 {
                (self.spike + 1) as i32
            } else if reward.eval == 0 {
                self.spike
            } else {
                0
            },
        }
    }

    open spec fn score(&self) -> int {
        self.safety + self.power + self.reward
    }

    open spec fn takes(&self, reward: Reward) -> bool {
        &&& i32::MIN <= self.reward + reward.eval <= i32::MAX
        &&& reward.attack > 0 ==> self.spike < i32::MAX
    }

    open spec fn scorable(&self) -> bool {
        &&& i32::MIN <= self.safety + self.power <= i32::MAX
        &&& i32::MIN <= self.safety + self.power + self.reward <= i32::MAX
    }

    open spec fn neutral() -> Value {
        Value { safety: 0, power: 0, reward: 0, spike: 0 }
    }

    open spec fn no_reward() -> Reward {
        Reward { eval: 0, attack: 0 }
    }

    open spec fn grounded(&self) -> bool {
        &&& within(self.safety, SAFETY_MAX)
        &&& within(self.power, POWER_MAX)
        &&& self.reward == 0
        &&& self.spike == 0
    }

    open spec fn modest(reward: Reward) -> bool {
        within(reward.eval, REWARD_MAX)
    }

    proof fn lemma_grounded_takes(&self, reward: Reward) {
    }

    proof fn lemma_no_reward(&self) {
    }

    fn fresh() -> (r: Value) {
        Value { safety: 0, power: 0, reward: 0, spike: 0 }
    }

    fn accumulate(&self, next: Reward) -> (r: Value) {
        let spike = if next.attack > 0 {
            self.spike + 1
        } else if next.eval == 0 {
            self.spike
        } else {
            0
        };
        Value { safety: self.safety, power: self.power, reward: self.reward + next.eval, spike }
    }

    fn select_score(&self) -> (s: i32) {
        self.safety + self.power + self.reward
    }
}

/// The safety of a board: the weighted sum of its bumpiness, heights, holes,
/// covered cells and row transitions.
pub open spec fn safety_of(w: Weights, b: Set<(int, int)>) -> int {
    let well = well_column(b);
    let top = max_height_of(b, 10);
    let cav = cavities_upto(b, 10);
    let ovh = overhangs_upto(b, 10);
    bump_upto(b, well, 10) * w.bump_sum + bump_sq_upto(b, well, 10) * w.bump_sum_sq
        + max_diff_upto(b, well, 9) * w.max_height_diff + top * w.max_height + larger(top - 10, 0)
        * w.top_50 + larger(top - 15, 0) * w.top_75 + cav * w.cavities + square(cav)
        * w.cavities_sq + ovh * w.overhangs + square(ovh) * w.overhangs_sq + covered_upto(b, 10)
        * w.covered_cells + covered_sq_upto(b, 10) * w.covered_cells_sq + transitions_upto(b, 64)
        * w.row_transitions
}

/// The power of a board: the weighted depth of its well, and the weight of
/// the well column if the depth is at least two.
pub open spec fn power_of(w: Weights, b: Set<(int, int)>) -> int {
    let depth = well_depth(b);
    depth * w.well_depth + if depth >= 2 {
        w.well_x[well_column(b)] as int
    } else {
        0
    }
}

/// The time that a placement takes: forty for a clear that is not a perfect
/// clear, else nothing.
pub open spec fn lock_time(p: PlacementResult) -> int {
    if !p.is_pc && p.lines_cleared > 0 {
        40
    } else {
        0
    }
}

/// What the time and the danger of a placement are worth: the time by its
/// weight, and by the weight of danger for each row that the columns in
/// which a piece spawns stand above row 15.
pub open spec fn timing_score(w: Weights, p: PlacementResult, b: Set<(int, int)>) -> int {
    lock_time(p) * w.move_time + larger(danger_height(b) - 15, 0) * lock_time(p) * w.danger
}

/// What a placement is worth for the back-to-back chain: a bonus for a clear
/// that continues it, a penalty for a placement that does not while a chain
/// stands.
pub open spec fn chain_score(w: Weights, p: PlacementResult, b2b: bool) -> int {
    (if p.lines_cleared > 0 && p.is_b2b_clear {
        w.b2b_continue as int
    } else {
        0
    }) + (if b2b && !p.is_b2b_clear {
        w.b2b_destroy as int
    } else {
        0
    })
}

/// What the clear of a placement is worth: the perfect clear bonus, or else
/// the weighted square of the combo attack plus the bonus for the lines and
/// the spin.
pub open spec fn clear_score(w: Weights, p: PlacementResult, ren: int) -> int {
    if p.is_pc {
        w.perfect as int
    } else {
        square(combo_bonus(ren)) * w.ren + w.clear_bonus(p.spin, p.lines_cleared as int)
    }
}

/// True if a T piece locks without a full spin that clears.
pub open spec fn wastes_t(kind: PieceKind, spin: SpinKind, p: PlacementResult) -> bool {
    kind == PieceKind::T && !(spin == SpinKind::Full && p.lines_cleared > 0)
}

/// What a move is worth.
pub open spec fn move_score(
    w: Weights,
    mv: Move,
    p: PlacementResult,
    b: Set<(int, int)>,
    b2b: bool,
    ren: int,
    hold: Option<PieceKind>,
) -> int {
    (match mv {
        Move::Hold => 0,
        Move::Place(piece) => {
            timing_score(w, p, b) + chain_score(w, p, b2b) + piece.pos.y * w.placement_height
                + clear_score(w, p, ren) + (if wastes_t(piece.pos.kind, piece.spin, p) {
                w.wasted_t as int
            } else {
                0
            })
        },
    }) + (if hold == Some(PieceKind::T) {
        w.hold_t as int
    } else {
        0
    })
}

impl Evaluator for StandardEvaluator {
    type TransientReward = Reward;

    type Accumulator = Value;

    open spec fn well_formed(&self) -> bool {
        self.weights.bounded()
    }

    open spec fn state_value(&self, state: Situation) -> Value {
        Value {
            safety: safety_of(self.weights, state.board.blocks()) as i32,
            power: power_of(self.weights, state.board.blocks()) as i32,
            reward: 0,
            spike: 0,
        }
    }

    open spec fn move_reward(
        &self,
        mv: Move,
        placement: PlacementResult,
        state: Situation,
    ) -> Reward {
        Reward {
            eval: move_score(
                self.weights,
                mv,
                placement,
                state.board.blocks(),
                state.b2b,
                state.ren as int,
                state.hold,
            ) as i32,
            attack: attack_of(placement) as u32,
        }
    }

    open spec fn death_value(&self) -> Value {
        Value { safety: -1_000_000i32, power: 0, reward: 0, spike: 0 }
    }

    fn death_state(&self) -> (r: Value) {
        Value { safety: -1_000_000, power: 0, reward: 0, spike: 0 }
    }

    #[verifier::rlimit(50)]
    fn evaluate_state(&self, state: &GameState<BitBoard>) -> (r: Value) {
        let w = &self.weights;
        let ghost b = state.board.blocks();
        let (well, depth) = calc_well_x_and_depth(&state.board);
        let (bump, bump_sq) = calc_bumpiness(&state.board, well);
        let max_diff = max_height_diff(&state.board, well);
        let top: i32 = highest(&state.board) as i32;
        let (cav, ovh) = cavities_and_overhangs(&state.board);
        let (covered, covered_sq) = covered_cells(&state.board);
        let transitions = row_transitions(&state.board);
        let over_10: i32 = if top > 10 {
            top - 10
        } else {
            0
        };
        let over_15: i32 = if top > 15 {
            top - 15
        } else {
            0
        };
        proof {
            lemma_product_bound(bump as int, w.bump_sum as int, 640, 4000);
            lemma_product_bound(bump_sq as int, w.bump_sum_sq as int, 40960, 16);
            lemma_product_bound(max_diff as int, w.max_height_diff as int, 64, 4000);
            lemma_product_bound(top as int, w.max_height as int, 64, 4000);
            lemma_product_bound(over_10 as int, w.top_50 as int, 54, 4000);
            lemma_product_bound(over_15 as int, w.top_75 as int, 49, 4000);
            lemma_product_bound(cav as int, w.cavities as int, 640, 4000);
            lemma_square_bound(cav as int, 640);
            lemma_product_bound(cav * cav, w.cavities_sq as int, 409600, 16);
            lemma_product_bound(ovh as int, w.overhangs as int, 640, 4000);
            lemma_square_bound(ovh as int, 640);
            lemma_product_bound(ovh * ovh, w.overhangs_sq as int, 409600, 16);
            lemma_product_bound(covered as int, w.covered_cells as int, 40320, 4000);
            lemma_product_bound(covered_sq as int, w.covered_cells_sq as int, 2540160, 16);
            lemma_product_bound(transitions as int, w.row_transitions as int, 704, 4000);
            lemma_product_bound(depth as int, w.well_depth as int, 64, 4000);
        }
        let mut safety: i32 = 0;
        safety = safety + bump as i32 * w.bump_sum;
        safety = safety + bump_sq as i32 * w.bump_sum_sq;
        safety = safety + max_diff as i32 * w.max_height_diff;
        safety = safety + top * w.max_height;
        safety = safety + over_10 * w.top_50;
        safety = safety + over_15 * w.top_75;
        safety = safety + cav * w.cavities;
        safety = safety + cav * cav * w.cavities_sq;
        safety = safety + ovh * w.overhangs;
        safety = safety + ovh * ovh * w.overhangs_sq;
        safety = safety + covered as i32 * w.covered_cells;
        safety = safety + covered_sq as i32 * w.covered_cells_sq;
        safety = safety + transitions * w.row_transitions;
        let mut power: i32 = depth as i32 * w.well_depth;
        if depth >= 2 {
            power = power + w.well_x[well as usize];
        }
        Value { safety, power, reward: 0, spike: 0 }
    }

    fn evaluate_move(&self, mv: Move, placement: PlacementResult, state: &GameState<BitBoard>) -> (r:
        Reward) {
        let w = &self.weights;
        let mut score: i32 = 0;
        match mv {
            Move::Place(piece) => {
                score = score + timing(w, &placement, &state.board);
                score = score + chain(w, &placement, state.b2b);
                score = score + weigh(piece.pos.y as i32, w.placement_height, Ghost(128));
                score = score + clearing(w, &placement, state.ren);
                let is_t = match piece.pos.kind {
                    PieceKind::T => true,
                    _ => false,
                };
                let full_clear = match piece.spin {
                    SpinKind::Full => placement.lines_cleared > 0,
                    _ => false,
                };
                if is_t && !full_clear {
                    score = score + w.wasted_t;
                }
            },
            Move::Hold => {},
        }
        let holds_t = match state.hold {
            Some(PieceKind::T) => true,
            _ => false,
        };
        if holds_t {
            score = score + w.hold_t;
        }
        Reward { eval: score, attack: placement.attack() }
    }
}

/// What the time and the danger of a placement are worth.
fn timing(w: &Weights, placement: &PlacementResult, board: &BitBoard) -> (r: i32)
    requires
        w.bounded(),
    ensures
        r as int == timing_score(*w, *placement, board.blocks()),
        -8_000_000 <= r <= 8_000_000,
{
    let danger_top: i32 = max_danger_height(board) as i32;
    let over: i32 = if danger_top > 15 {
        danger_top - 15
    } else {
        0
    };
    if !placement.is_pc && placement.lines_cleared > 0 {
        let a = weigh(40, w.move_time, Ghost(40));
        let c = weigh(over * 40, w.danger, Ghost(1960));
        a + c
    } else {
        assert(lock_time(*placement) == 0);
        assert(larger(danger_height(board.blocks()) - 15, 0) * 0 * w.danger == 0);
        0
    }
}

/// What a placement is worth for the back-to-back chain.
fn chain(w: &Weights, placement: &PlacementResult, b2b: bool) -> (r: i32)
    requires
        w.bounded(),
    ensures
        r as int == chain_score(*w, *placement, b2b),
        -8000 <= r <= 8000,
{
    let mut r: i32 = 0;
    if placement.lines_cleared > 0 && placement.is_b2b_clear {
        r = r + w.b2b_continue;
    }
    if b2b && !placement.is_b2b_clear {
        r = r + w.b2b_destroy;
    }
    r
}

/// What the clear of a placement is worth.
fn clearing(w: &Weights, placement: &PlacementResult, ren: i32) -> (r: i32)
    requires
        w.bounded(),
    ensures
        r as int == clear_score(*w, *placement, ren as int),
        -104_000 <= r <= 104_000,
{
    if placement.is_pc {
        w.perfect
    } else {
        let combo: i32 = ren_attack(ren) as i32;
        let combo_sq: i32 = if combo == 0 {
            0
        } else if combo == 1 {
            1
        } else if combo == 2 {
            4
        } else if combo == 3 {
            9
        } else if combo == 4 {
            16
        } else {
            25
        };
        proof {
            lemma_small_square(combo as int);
        }
        weigh(combo_sq, w.ren, Ghost(25)) + clear_weight(w, placement.spin, placement.lines_cleared)
    }
}

/// The squares of the numbers up to five.
proof fn lemma_small_square(c: int)
    requires
        0 <= c <= 5,
    ensures
        c == 0 ==> square(c) == 0,
        c == 1 ==> square(c) == 1,
        c == 2 ==> square(c) == 4,
        c == 3 ==> square(c) == 9,
        c == 4 ==> square(c) == 16,
        c == 5 ==> square(c) == 25,
{
    assert((c == 0 ==> c * c == 0) && (c == 1 ==> c * c == 1) && (c == 2 ==> c * c == 4) && (c == 3
        ==> c * c == 9) && (c == 4 ==> c * c == 16) && (c == 5 ==> c * c == 25))
        by (nonlinear_arith);
}

/// A measure times its weight.
fn weigh(a: i32, w: i32, Ghost(amax): Ghost<int>) -> (r: i32)
    requires
        0 <= amax <= 2000,
        -amax <= a <= amax,
        within(w, WEIGHT_MAX),
    ensures
        r == a * w,
        -amax * 4000 <= r <= amax * 4000,
{
    proof {
        assert(-amax * 4000 <= a * w <= amax * 4000) by (nonlinear_arith)
            requires
                0 <= amax <= 2000,
                -amax <= a <= amax,
                -4000 <= w <= 4000,
        ;
    }
    a * w
}

/// The bonus for a clear of `lines` rows by a piece with the given spin.
fn clear_weight(w: &Weights, spin: SpinKind, lines: u32) -> (r: i32)
    requires
        w.bounded(),
    ensures
        r as int == w.clear_bonus(spin, lines as int),
        within(r, WEIGHT_MAX),
{
    match spin {
        SpinKind::NoSpin => if lines == 1 {
            w.clear1
        } else if lines == 2 {
            w.clear2
        } else if lines == 3 {
            w.clear3
        } else if lines == 4 {
            w.clear4
        } else {
            0
        },
        SpinKind::Full => if lines == 1 {
            w.t_spin1
        } else if lines == 2 {
            w.t_spin2
        } else if lines == 3 {
            w.t_spin3
        } else {
            0
        },
        SpinKind::Mini => if lines == 1 {
            w.t_mini1
        } else if lines == 2 {
            w.t_mini2
        } else {
            0
        },
    }
}

} // verus!
