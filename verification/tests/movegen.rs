use firefly::tetris::{
    BitBoard, Board, GameState, Instruction, Move, MoveGenerator, Path, PieceKind, PieceState,
    Placement, Rotation, SpinKind,
};

fn state_with(board: BitBoard, queue: &[PieceKind], hold: Option<PieceKind>) -> GameState<BitBoard> {
    let mut state: GameState<BitBoard> = GameState::new();
    state.board = board;
    state.hold = hold;
    for kind in queue {
        state.queue.push_back(*kind);
    }
    state
}

fn keys(moves: &[Move]) -> Vec<Option<u64>> {
    let mut keys: Vec<Option<u64>> = moves
        .iter()
        .map(|m| match m {
            Move::Hold => None,
            Move::Place(piece) => Some(Placement::of(piece).key()),
        })
        .collect();
    keys.sort();
    keys
}

#[test]
fn landings_of_the_i_piece_on_an_empty_board() {
    let state = state_with(BitBoard::default(), &[PieceKind::I], None);
    let generator = MoveGenerator::generate_for(&state, true).ok().unwrap();
    let moves = generator.moves_with_cost();
    assert_eq!(moves.len(), 17 + 1);
    assert_eq!(moves.last(), Some(&(Move::Hold, 0)));
    let plain = generator.moves();
    assert_eq!(plain.len(), moves.len());
    for (i, (mv, _)) in moves.iter().enumerate() {
        assert_eq!(plain[i], *mv);
    }
    let mut seen = keys(&plain);
    seen.dedup();
    assert_eq!(seen.len(), moves.len());
    for (mv, _) in &moves {
        if let Move::Place(piece) = mv {
            assert!(!state.board.collides(piece.pos));
            assert!(state.is_grounded(piece));
            assert_eq!(piece.spin, SpinKind::NoSpin);
        }
    }
}

#[test]
fn the_drop_below_the_spawn_costs_nothing_to_reach() {
    let state = state_with(BitBoard::default(), &[PieceKind::O], None);
    let generator = MoveGenerator::generate_for(&state, false).ok().unwrap();
    let moves = generator.moves_with_cost();
    assert_eq!(moves.len(), 9);
    let below = Move::Place(PieceState::new(PieceKind::O, (4, 0), Rotation::North));
    assert_eq!(moves[0], (below, 0));
}

#[test]
fn the_same_state_gives_the_same_moves() {
    let board = BitBoard::from_rows(&["x________x", "xx_____xxx", "xxx_xxxxxx"]);
    let state = state_with(board, &[PieceKind::T, PieceKind::S], Some(PieceKind::L));
    let first = state.legal_moves(true).unwrap();
    let second = state.legal_moves(true).unwrap();
    assert_eq!(keys(&first), keys(&second));
    assert!(!first.contains(&Move::Hold));
    assert!(first.iter().any(|m| matches!(m, Move::Place(p) if p.pos.kind == PieceKind::L)));
    assert!(first.iter().any(|m| matches!(m, Move::Place(p) if p.pos.kind == PieceKind::T)));
    let alone = state.legal_moves(false).unwrap();
    assert!(alone.iter().all(|m| matches!(m, Move::Place(p) if p.pos.kind == PieceKind::T)));
}

#[test]
fn a_blocked_spawn_gives_no_generator() {
    let mut board = BitBoard::default();
    for x in 3..7 {
        board.cols[x] = (1 << 19) | (1 << 20) | (1 << 21);
    }
    let state = state_with(board, &[PieceKind::I], None);
    assert!(MoveGenerator::generate_for(&state, true).is_err());
    assert_eq!(state.legal_moves(true), Err(()));
}

#[test]
fn paths_lead_from_the_spawn_to_the_placement() {
    let board = BitBoard::from_rows(&["x________x", "xx_____xxx", "xxx_xxxxxx"]);
    let state = state_with(board, &[PieceKind::T], Some(PieceKind::J));
    let generator = MoveGenerator::generate_for(&state, true).ok().unwrap();
    assert!(matches!(generator.rebuild_path(Move::Hold), Path::HoldOnly));
    for (mv, cost) in generator.moves_with_cost() {
        let Move::Place(target) = mv else { continue };
        let Path::Normal { hold, cost: path_cost, instructions, piece } = generator.rebuild_path(mv)
        else {
            panic!("a placement has a path")
        };
        assert_eq!(piece, target);
        assert_eq!(hold, target.pos.kind != PieceKind::T);
        assert_eq!(path_cost, cost);
        let mut at = state.spawn(target.pos.kind).unwrap();
        for instruction in instructions {
            at = match instruction {
                Instruction::Left => state.strafe(at, (-1, 0)).unwrap(),
                Instruction::Right => state.strafe(at, (1, 0)).unwrap(),
                Instruction::Down => state.strafe(at, (0, -1)).unwrap(),
                Instruction::Up => state.strafe(at, (0, 1)).unwrap(),
                Instruction::Cw => state.rotate(at, true).unwrap(),
                Instruction::Ccw => state.rotate(at, false).unwrap(),
                Instruction::SonicDrop => state.sonic_drop(&at).unwrap(),
                Instruction::Idle => panic!("a path holds no idle input"),
            };
        }
        assert_eq!(at, target);
    }
}

#[test]
fn placements_are_named_by_their_cells() {
    let flat = PieceState::new(PieceKind::I, (4, 0), Rotation::North);
    let mirrored = PieceState::new(PieceKind::I, (5, 0), Rotation::South);
    assert_eq!(flat.pos.cells(), [(3, 0), (4, 0), (5, 0), (6, 0)]);
    assert_eq!(mirrored.pos.cells(), [(6, 0), (5, 0), (4, 0), (3, 0)]);
    assert_eq!(Placement::of(&flat), Placement::of(&mirrored));
    assert_eq!(Placement::of(&flat).0, [(3, 0), (4, 0), (5, 0), (6, 0)]);
    assert_eq!(Placement::of(&flat).key(), Placement::of(&mirrored).key());
    let spun = PieceState { spin: SpinKind::Mini, ..flat };
    assert_ne!(Placement::of(&flat).key(), Placement::of(&spun).key());
    let expected = (3 * 64) + 1024 * (4 * 64) + 1024 * 1024 * (5 * 64)
        + 1024u64 * 1024 * 1024 * (6 * 64);
    assert_eq!(Placement::of(&flat).key(), expected);
}
