use firefly::bot::{BotConfig, HikariFireflyBot, WorkerStep};
use firefly::eval::{Accumulator, Evaluator, StandardEvaluator};
use firefly::protocol::{BotMessage, FrontendMessage, Randomizer, Session, Start};
use firefly::search::generation::selection_weights;
use firefly::search::{Action, Graph, Index, State};
use firefly::tetris::{BitBoard, GameState, Move, PieceKind, PieceState, Rotation, SevenBag};

fn opening() -> GameState<BitBoard> {
    let mut state: GameState<BitBoard> = GameState::new();
    for kind in [
        PieceKind::I,
        PieceKind::T,
        PieceKind::O,
        PieceKind::L,
        PieceKind::J,
        PieceKind::S,
        PieceKind::Z,
    ] {
        state.add_piece(kind);
    }
    state
}

fn graph_of(state: &GameState<BitBoard>) -> Graph<StandardEvaluator> {
    Graph::new(state, Box::new(StandardEvaluator::default()))
}

fn check_children(graph: &Graph<StandardEvaluator>) {
    let actions = graph.root_actions();
    for pair in actions.windows(2) {
        assert!(pair[0].acc.select_score() >= pair[1].acc.select_score());
    }
    for action in &actions {
        assert!(action.visits >= 1);
        assert_eq!(action.current_piece, PieceKind::I);
    }
}

#[test]
fn thousand_iterations_from_the_opening() {
    let state = opening();
    let mut graph = graph_of(&state);
    assert_eq!(graph.count_nodes(), 1);
    assert_eq!(graph.root_state(), State::new(&state));
    assert_eq!(graph.root_state().bag, SevenBag(0));
    for _ in 0..1000 {
        graph.work();
    }
    let sizes = graph.generation_sizes();
    assert_eq!(sizes[0], 1);
    assert_eq!(sizes.iter().sum::<usize>(), graph.count_nodes());
    let landings = state.legal_moves(true).unwrap();
    assert_eq!(landings.len(), 17 + 1);
    let actions = graph.root_actions();
    assert_eq!(actions.len(), landings.len());
    check_children(&graph);
    // The scores come back through the parents: the root was refreshed often.
    assert!(actions.iter().any(|a| a.visits > 100));
    let plan = graph.best_plan();
    assert!(!plan.moves.is_empty());
    assert!(landings.contains(&plan.moves[0]));
    assert_eq!(plan.moves[0], actions[0].mv);
    assert!(plan.moves.len() >= 2);
    assert_eq!(plan.score, 0);
    assert!(graph.count_nodes() > 1000);
}

#[test]
fn transpositions_share_a_node() {
    // Two O pieces side by side can be placed in either order.
    let mut state: GameState<BitBoard> = GameState::new();
    state.add_piece(PieceKind::O);
    state.add_piece(PieceKind::O);
    let mut graph = graph_of(&state);
    for _ in 0..400 {
        graph.work();
    }
    let sizes = graph.generation_sizes();
    assert_eq!(sizes[0], 1);
    // Nine placements and the hold.
    assert_eq!(sizes[1], 10);
    // Fewer states than paths: 9 * 10 + 9 paths lead into the third generation.
    assert!(sizes[2] < 99);
    assert!(sizes[2] >= 36);
}

#[test]
fn committing_the_plan_moves_the_root() {
    let state = opening();
    let mut graph = graph_of(&state);
    for _ in 0..200 {
        graph.work();
    }
    let before = graph.count_nodes();
    let sizes = graph.generation_sizes();
    let queued = graph.queue_len();
    let first = graph.best_plan().moves[0];
    let mut expected = graph.root_state();
    expected.advance(first, PieceKind::I).unwrap();
    assert_eq!(graph.advance(first), Ok(()));
    graph.add_piece(PieceKind::I);
    assert_eq!(graph.root_state(), expected);
    assert_eq!(graph.queue_len(), queued);
    assert_eq!(graph.count_nodes(), before - sizes[0]);
    assert_eq!(graph.generation_sizes(), sizes[1..].to_vec());
    for _ in 0..50 {
        graph.work();
    }
    assert!(graph.count_nodes() >= before - sizes[0]);
}

#[test]
fn a_move_that_the_root_lacks_is_refused() {
    let state = opening();
    let mut graph = graph_of(&state);
    let stray = Move::Place(PieceState::new(PieceKind::I, (4, 0), Rotation::North));
    assert_eq!(graph.advance(stray), Err(()));
    graph.work();
    let floating = Move::Place(PieceState::new(PieceKind::I, (4, 7), Rotation::North));
    let before = graph.count_nodes();
    assert_eq!(graph.advance(floating), Err(()));
    assert_eq!(graph.count_nodes(), before);
    assert_eq!(graph.queue_len(), 7);
    assert_eq!(graph.advance(stray), Ok(()));
    assert_eq!(graph.queue_len(), 6);
}

#[test]
fn an_empty_queue_leaves_the_graph_as_it_is() {
    let state: GameState<BitBoard> = GameState::new();
    let mut graph = graph_of(&state);
    for _ in 0..10 {
        graph.work();
    }
    assert_eq!(graph.count_nodes(), 1);
    assert_eq!(graph.generation_sizes(), vec![1]);
    assert!(graph.best_plan().moves.is_empty());
    assert!(graph.root_actions().is_empty());
    graph.add_piece(PieceKind::O);
    graph.work();
    assert_eq!(graph.root_actions().len(), 9 + 1);
    let grown = graph.count_nodes();
    assert_eq!(grown, 1 + 9 + 1);
    graph.work();
    assert_eq!(graph.count_nodes(), grown);
}

#[test]
fn a_state_without_a_spawn_is_marked_dead() {
    let mut state: GameState<BitBoard> = GameState::new();
    for x in 3..7 {
        state.board.cols[x] = (1 << 22) - 1;
    }
    state.add_piece(PieceKind::I);
    let mut graph = graph_of(&state);
    for _ in 0..5 {
        graph.work();
    }
    assert_eq!(graph.count_nodes(), 1);
    assert!(graph.root_actions().is_empty());
    assert!(graph.best_plan().moves.is_empty());
}

#[test]
fn weights_shift_the_least_score_to_one() {
    let action = |score: i32| -> Action<StandardEvaluator> {
        Action {
            node: Index { shelf: 0, slot: 0 },
            mv: Move::Hold,
            current_piece: PieceKind::I,
            reward: firefly::eval::Reward::default(),
            acc: firefly::eval::Value { safety: score, power: 0, reward: 0, spike: 0 },
            visits: 0,
        }
    };
    let actions = vec![action(-640), action(-100), action(-900), action(-900)];
    assert_eq!(selection_weights(&actions), vec![261, 801, 1, 1]);
    assert_eq!(selection_weights(&[action(5)]), vec![1]);
    assert_eq!(
        selection_weights(&[action(i32::MAX), action(i32::MIN + 1)]),
        vec![(1u64 << 32) - 1, 1]
    );
}

#[test]
fn the_bot_follows_the_host() {
    let mut bot = HikariFireflyBot::new(BotConfig { num_workers: 3 });
    assert_eq!(bot.stats(), 0);
    assert_eq!(bot.suggest(), None);
    assert_eq!(bot.work_once(), WorkerStep::Exit);
    assert_eq!(bot.start(), 3);
    assert_eq!(bot.work_once(), WorkerStep::Idle);
    bot.reset(Some(opening()));
    assert_eq!(bot.stats(), 1);
    assert_eq!(bot.suggest(), Some(vec![]));
    for _ in 0..100 {
        assert_eq!(bot.work_once(), WorkerStep::Worked);
    }
    let nodes = bot.stats();
    assert!(nodes > 100);
    bot.stop();
    assert_eq!(bot.work_once(), WorkerStep::Exit);
    assert_eq!(bot.stats(), nodes);
    let plan = bot.suggest().unwrap();
    assert!(!plan.is_empty());
    bot.pick_move(Move::Place(PieceState::new(PieceKind::I, (4, 9), Rotation::North)));
    assert_eq!(bot.stats(), nodes);
    bot.pick_move(plan[0]);
    assert_eq!(bot.stats(), nodes - 1);
    bot.add_piece(PieceKind::T);
    bot.reset(None);
    assert_eq!(bot.stats(), 0);
    let mut clash: GameState<BitBoard> = GameState::new();
    clash.queue.push_back(PieceKind::T);
    clash.bag = SevenBag(1 << 4);
    bot.reset(Some(clash));
    assert_eq!(bot.suggest(), None);
}

#[test]
fn a_session_answers_the_host() {
    let mut session = Session::new(BotConfig { num_workers: 1 });
    assert!(matches!(Session::greeting(), BotMessage::Info { name, .. } if name == "Hikari"));
    let early = session.handle(FrontendMessage::Suggest);
    assert!(early.reply.is_none());
    let ready = session.handle(FrontendMessage::Rules);
    assert!(matches!(ready.reply, Some(BotMessage::Ready)));
    assert!(!ready.quit);
    let start = Start {
        board: BitBoard::default(),
        queue: vec![PieceKind::I, PieceKind::T, PieceKind::O],
        hold: None,
        combo: 0,
        back_to_back: false,
        randomizer: Randomizer::SevenBag {
            bag_state: vec![PieceKind::S, PieceKind::Z, PieceKind::J, PieceKind::L],
        },
    };
    let started = session.handle(FrontendMessage::Start(start));
    assert_eq!(started.workers, 1);
    assert!(started.reply.is_none());
    // Nothing was searched yet: there is no plan to suggest.
    assert!(session.handle(FrontendMessage::Suggest).reply.is_none());
    let piece = PieceState::new(PieceKind::I, (4, 0), Rotation::North);
    assert!(session.handle(FrontendMessage::Play { mv: piece }).reply.is_none());
    assert!(session.handle(FrontendMessage::NewPiece { piece: PieceKind::S }).reply.is_none());
    assert!(session.handle(FrontendMessage::Unknown).reply.is_none());
    assert!(session.handle(FrontendMessage::Stop).reply.is_none());
    assert!(session.handle(FrontendMessage::Quit).quit);
}

#[test]
fn a_suggestion_names_the_placement_to_play() {
    let place = Move::Place(PieceState::new(PieceKind::I, (4, 0), Rotation::North));
    assert_eq!(Session::commit(&vec![place, Move::Hold]), Some(vec![place]));
    assert_eq!(Session::commit(&vec![Move::Hold, place, place]), Some(vec![Move::Hold, place]));
    assert_eq!(Session::commit(&vec![Move::Hold]), None);
    assert_eq!(Session::commit(&vec![Move::Hold, Move::Hold]), None);
    assert_eq!(Session::commit(&vec![]), None);
    let unknown = Start {
        board: BitBoard::default(),
        queue: vec![],
        hold: Some(PieceKind::T),
        combo: 3,
        back_to_back: true,
        randomizer: Randomizer::Unknown,
    };
    assert!(firefly::protocol::game_of(&unknown).is_none());
    let known = Start { randomizer: Randomizer::SevenBag { bag_state: vec![] }, ..unknown };
    let game = firefly::protocol::game_of(&known).unwrap();
    assert_eq!(game.ren, 2);
    assert!(game.b2b);
    assert_eq!(game.hold, Some(PieceKind::T));
    assert_eq!(game.bag, SevenBag(0));
}

#[test]
fn keys_tell_states_apart() {
    let state = State::new(&opening());
    let key = state.key();
    assert_eq!(key[..10], [0u64; 10]);
    assert_eq!(key[10], 65536 * ((-1i64 + 0x8000_0000) as u64));
    let mut other = state;
    other.hold = Some(PieceKind::S);
    assert_eq!(other.key()[10], key[10] + 256);
    other.b2b = true;
    other.ren = 0;
    other.bag = SevenBag(3);
    assert_eq!(other.key()[10], key[10] + 256 + 4096 + 65536 + 3);
    other.board.cols[7] = 5;
    assert_eq!(other.key()[7], 5);
}

#[test]
fn the_first_iteration_gives_the_root_its_moves() {
    let state = opening();
    let mut graph = graph_of(&state);
    assert!(graph.root_actions().is_empty());
    graph.work();
    let actions = graph.root_actions();
    let landings = state.legal_moves(true).unwrap();
    assert_eq!(actions.len(), landings.len());
    for mv in &landings {
        assert!(actions.iter().any(|a| a.mv == *mv));
    }
    // Each child carries the reward of its move and the score of the state
    // behind it.
    let judge = StandardEvaluator::default();
    let root = graph.root_state();
    for action in &actions {
        let mut child = root;
        let placement = child.advance(action.mv, PieceKind::I).unwrap();
        let game = child.to_game();
        assert_eq!(action.reward, judge.evaluate_move(action.mv, placement, &game));
        assert_eq!(action.acc, judge.evaluate_state(&game).accumulate(action.reward));
    }
    assert_eq!(graph.generation_sizes().len(), 2);
}

#[test]
fn a_session_starts_as_many_workers_as_it_was_set_up_with() {
    let mut session = Session::new(BotConfig { num_workers: 5 });
    let ready = session.handle(FrontendMessage::Rules);
    assert!(matches!(ready.reply, Some(BotMessage::Ready)));
    assert_eq!(ready.workers, 0);
    let started = session.handle(FrontendMessage::Start(Start {
        board: BitBoard::default(),
        queue: vec![PieceKind::I, PieceKind::T],
        hold: None,
        combo: 0,
        back_to_back: false,
        randomizer: Randomizer::SevenBag {
            bag_state: vec![
                PieceKind::S,
                PieceKind::Z,
                PieceKind::J,
                PieceKind::L,
                PieceKind::O,
            ],
        },
    }));
    assert_eq!(started.workers, 5);
    assert!(started.reply.is_none());
}

#[test]
fn a_state_without_a_spawn_adds_nothing() {
    let mut rows: Vec<&str> = Vec::new();
    for _ in 0..22 {
        rows.push("xxxx_xxxxx");
    }
    let mut state: GameState<BitBoard> = GameState::new();
    state.board = BitBoard::from_rows(&rows);
    state.add_piece(PieceKind::T);
    let mut graph = graph_of(&state);
    let before = graph.count_nodes();
    graph.work();
    assert_eq!(graph.count_nodes(), before);
    assert!(graph.root_actions().is_empty());
    let sizes = graph.generation_sizes();
    assert_eq!(sizes[0], 1);
    assert!(sizes.iter().skip(1).all(|n| *n == 0));
    graph.work();
    assert_eq!(graph.count_nodes(), before);
}

#[test]
fn the_way_back_keeps_the_children_and_counts_the_visits() {
    let state = opening();
    let mut graph = graph_of(&state);
    graph.work();
    let first = graph.root_actions();
    assert!(first.iter().all(|a| a.visits == 1));
    for _ in 0..200 {
        graph.work();
    }
    let later = graph.root_actions();
    assert_eq!(later.len(), first.len());
    for a in &first {
        let same: Vec<&Action<StandardEvaluator>> = later
            .iter()
            .filter(|b| b.mv == a.mv && b.node == a.node && b.reward == a.reward)
            .collect();
        assert_eq!(same.len(), 1);
        assert_eq!(same[0].current_piece, a.current_piece);
        assert!(same[0].visits > a.visits);
    }
    check_children(&graph);
}
