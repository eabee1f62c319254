use firefly::eval::metrics::{
    calc_bumpiness, calc_well_x_and_depth, cavities_and_overhangs, covered_cells,
    max_danger_height, max_height_diff, row_transitions,
};
use firefly::eval::{Accumulator, Evaluator, Reward, SimpleEvaluator, StandardEvaluator, Value};
use firefly::tetris::{
    BitBoard, GameState, Move, PieceKind, PieceState, PlacementResult, Rotation, SpinKind,
};

fn game(board: BitBoard) -> GameState<BitBoard> {
    let mut state: GameState<BitBoard> = GameState::new();
    state.board = board;
    state
}

fn well_board(column: usize) -> BitBoard {
    let mut board = BitBoard::default();
    for x in 0..10 {
        if x != column {
            board.cols[x] = 0b1111;
        }
    }
    board
}

#[test]
fn the_empty_board_scores_its_row_transitions() {
    let evaluator = StandardEvaluator::default();
    let value = evaluator.evaluate_state(&game(BitBoard::default()));
    assert_eq!(value, Value { safety: -640, power: 0, reward: 0, spike: 0 });
    assert_eq!(value.select_score(), -640);
}

#[test]
fn a_well_on_the_right_beats_a_well_on_the_left() {
    let evaluator = StandardEvaluator::default();
    let right = evaluator.evaluate_state(&game(well_board(9)));
    let left = evaluator.evaluate_state(&game(well_board(0)));
    assert_eq!(right, Value { safety: -640, power: 4 * 100 + 140, reward: 0, spike: 0 });
    assert_eq!(left, Value { safety: -640, power: 0, reward: 0, spike: 0 });
    assert!(right.select_score() > left.select_score());
}

#[test]
fn measures_of_a_rough_board() {
    let board = BitBoard::from_rows(&[
        "x_________",
        "x__x______",
        "xx_xx_____",
        "x_xx_____x",
    ]);
    assert_eq!(calc_well_x_and_depth(&board), (5, 0));
    // Heights 4 2 1 3 2 0 0 0 0 1, without the well in column 5.
    assert_eq!(calc_bumpiness(&board, 5), (4 + 2 + 1 + 2 + 1 + 2 + 0 + 0 + 1, 16 + 4 + 1 + 4 + 1 + 4 + 1));
    assert_eq!(max_height_diff(&board, 5), 2);
    assert_eq!(max_danger_height(&board), 3);
    // Free cells under the tops: (1, 0) and (4, 0), both enclosed.
    assert_eq!(cavities_and_overhangs(&board), (2, 0));
    // Column 0 is four high and solid; nothing with two cells above it is free.
    assert_eq!(covered_cells(&board), (0, 0));
    // Four changes in each of the rows 0 to 2, two in row 3 and in each free row.
    assert_eq!(row_transitions(&board), 4 + 4 + 4 + 2 + 60 * 2);
}

#[test]
fn covered_cells_count_what_lies_above() {
    let mut board = BitBoard::default();
    board.cols[2] = 0b110100;
    // Height 6; the free cells at rows 0 and 1 count, row 3 is too near the top.
    assert_eq!(covered_cells(&board), (5 + 4, 25 + 16));
    // The free cell on the floor is enclosed; those above it lie open to the side.
    assert_eq!(cavities_and_overhangs(&board), (1, 2));
}

#[test]
fn the_reward_of_a_quad() {
    let evaluator = StandardEvaluator::default();
    let mut state = game(BitBoard::default());
    state.ren = 0;
    state.b2b = true;
    let piece = PieceState::new(PieceKind::I, (9, 2), Rotation::East);
    let placement = PlacementResult {
        lines_cleared: 4,
        ren: 0,
        spin: SpinKind::NoSpin,
        is_b2b_clear: false,
        is_pc: false,
        death: false,
    };
    let reward = evaluator.evaluate_move(Move::Place(piece), placement, &state);
    // Forty ticks of lock delay at -6, a broken chain at -380 and a quad at 800.
    assert_eq!(reward, Reward { eval: -240 - 380 + 800, attack: 4 });
    let held = evaluator.evaluate_move(Move::Hold, PlacementResult::default(), &state);
    assert_eq!(held, Reward { eval: 0, attack: 0 });
    state.hold = Some(PieceKind::T);
    let holding = evaluator.evaluate_move(Move::Hold, PlacementResult::default(), &state);
    assert_eq!(holding, Reward { eval: 10, attack: 0 });
}

#[test]
fn the_reward_of_spins_and_perfect_clears() {
    let evaluator = StandardEvaluator::default();
    let mut state = game(BitBoard::default());
    state.ren = 2;
    state.b2b = true;
    let piece = PieceState {
        pos: firefly::tetris::PiecePosition { kind: PieceKind::T, x: 4, y: 1, rot: Rotation::South },
        spin: SpinKind::Full,
    };
    let double = PlacementResult {
        lines_cleared: 2,
        ren: 2,
        spin: SpinKind::Full,
        is_b2b_clear: true,
        is_pc: false,
        death: false,
    };
    let reward = evaluator.evaluate_move(Move::Place(piece), double, &state);
    // Lock delay -240, chain kept +340, combo attack one squared at 100, spin double 1000.
    assert_eq!(reward, Reward { eval: -240 + 340 + 100 + 1000, attack: 4 + 1 + 1 });
    let wasted = PieceState { spin: SpinKind::NoSpin, ..piece };
    let nothing = PlacementResult { lines_cleared: 0, ren: -1, spin: SpinKind::NoSpin, is_b2b_clear: false, ..double };
    state.ren = -1;
    let reward = evaluator.evaluate_move(Move::Place(wasted), nothing, &state);
    assert_eq!(reward, Reward { eval: -380 - 300, attack: 0 });
    let perfect = PlacementResult { lines_cleared: 1, is_pc: true, spin: SpinKind::NoSpin, is_b2b_clear: false, ..double };
    let flat = PieceState::new(PieceKind::I, (4, 0), Rotation::North);
    let reward = evaluator.evaluate_move(Move::Place(flat), perfect, &state);
    assert_eq!(reward, Reward { eval: -380 + 3800, attack: 10 });
}

#[test]
fn danger_grows_with_the_spawn_columns() {
    let evaluator = StandardEvaluator::default();
    let mut board = BitBoard::default();
    board.cols[4] = (1 << 18) - 1;
    let state = game(board);
    let piece = PieceState::new(PieceKind::O, (0, 0), Rotation::North);
    let single = PlacementResult {
        lines_cleared: 1,
        ren: 0,
        spin: SpinKind::NoSpin,
        is_b2b_clear: false,
        is_pc: false,
        death: false,
    };
    let reward = evaluator.evaluate_move(Move::Place(piece), single, &state);
    // Three rows above row 15, forty ticks, at -20; lock delay -240; a single at -500.
    assert_eq!(reward.eval, 3 * 40 * -20 - 240 - 500);
}

#[test]
fn accumulating_adds_the_reward_and_counts_spikes() {
    let value = Value { safety: -640, power: 540, reward: 0, spike: 0 };
    let first = value.accumulate(Reward { eval: 560, attack: 4 });
    assert_eq!(first, Value { safety: -640, power: 540, reward: 560, spike: 1 });
    assert_eq!(first.select_score(), 460);
    let second = first.accumulate(Reward { eval: -10, attack: 0 });
    assert_eq!(second, Value { safety: -640, power: 540, reward: 550, spike: 0 });
    assert_eq!(value.accumulate(Reward::default()), value);
    assert_eq!(first.accumulate(Reward::default()).select_score(), first.select_score());
    assert_eq!(Value::fresh(), Value::default());
    assert_eq!(Value::fresh().select_score(), 0);
    assert_eq!(7i32.accumulate(0), 7);
    assert_eq!(7i32.accumulate(-9).select_score(), -2);
}

#[test]
fn the_simple_evaluator_counts_height_and_holes() {
    let evaluator = SimpleEvaluator;
    let board = BitBoard::from_rows(&[
        "x_________",
        "x__x______",
        "xx_xx_____",
        "x_xx_____x",
    ]);
    // Highest column 4; holes below the second highest row: (1, 0) and (4, 0).
    assert_eq!(evaluator.evaluate_state(&game(board)), -40 - 14);
    let placement = PlacementResult { lines_cleared: 3, ..PlacementResult::default() };
    assert_eq!(evaluator.evaluate_move(Move::Hold, placement, &game(board)), 60);
    assert_eq!(evaluator.death_state(), -1000);
}

#[test]
fn a_lost_game_scores_far_below_an_empty_board() {
    let evaluator = StandardEvaluator::default();
    let lost = evaluator.death_state();
    assert_eq!(lost, Value { safety: -1_000_000, power: 0, reward: 0, spike: 0 });
    assert_eq!(lost.select_score(), -1_000_000);
    assert_eq!(Value::fresh(), Value { safety: 0, power: 0, reward: 0, spike: 0 });
}

#[test]
fn the_default_reward_leaves_every_score_as_it_is() {
    let running = Value { safety: -640, power: 540, reward: 560, spike: 3 };
    assert_eq!(running.accumulate(Reward::default()), running);
    assert_eq!(running.accumulate(Reward::default()).select_score(), running.select_score());
    let still = Value::fresh();
    assert_eq!(still.accumulate(Reward::default()), still);
    assert_eq!(17i32.accumulate(0), 17);
}
