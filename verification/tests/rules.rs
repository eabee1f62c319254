use firefly::tetris::{
    ren_attack, BitBoard, Board, CellKind, GameState, Move, PieceKind, PiecePosition, PieceState,
    PlacementResult, Rotation, SevenBag, SpinKind,
};

fn place(kind: PieceKind, x: i8, y: i8, rot: Rotation) -> PieceState {
    PieceState::new(kind, (x, y), rot)
}

#[test]
fn combo_table_values() {
    assert_eq!(ren_attack(-1), 0);
    assert_eq!(ren_attack(0), 0);
    assert_eq!(ren_attack(1), 0);
    assert_eq!(ren_attack(2), 1);
    assert_eq!(ren_attack(5), 2);
    assert_eq!(ren_attack(7), 3);
    assert_eq!(ren_attack(10), 4);
    assert_eq!(ren_attack(11), 5);
    assert_eq!(ren_attack(40), 5);
}

#[test]
fn footprint_of_t() {
    assert_eq!(PieceKind::T.cells(), [(-1, 0), (0, 0), (0, 1), (1, 0)]);
    assert_eq!(PieceKind::I.cells(), [(-1, 0), (0, 0), (1, 0), (2, 0)]);
    assert_eq!(Rotation::North.rotate_cell((1, 2)), (1, 2));
    assert_eq!(Rotation::East.rotate_cell((1, 2)), (2, -1));
    assert_eq!(Rotation::South.rotate_cell((1, 2)), (-1, 2));
    assert_eq!(Rotation::West.rotate_cell((1, 2)), (-2, 1));
}

#[test]
fn kick_tables() {
    assert_eq!(
        PieceKind::I.rotation_offsets(Rotation::South),
        [(-1, 1), (1, 1), (-2, 1), (1, 0), (-2, 0)]
    );
    assert_eq!(
        PieceKind::T.rotation_offsets(Rotation::East),
        [(0, 0), (1, 0), (1, -1), (0, 2), (1, 2)]
    );
    assert_eq!(PieceKind::O.rotation_offsets(Rotation::West), [(-1, 0); 5]);
}

#[test]
fn cells_of_a_position() {
    let pos = PiecePosition { kind: PieceKind::T, x: 4, y: 19, rot: Rotation::East };
    assert_eq!(pos.cells(), [(4, 20), (4, 19), (5, 19), (4, 18)]);
    assert_eq!(pos.translate((-1, 2)).cells(), [(3, 22), (3, 21), (4, 21), (3, 20)]);
    assert_eq!(CellKind::from_piece(PieceKind::O), CellKind::O);
}

#[test]
fn translating_keeps_the_spin_and_strafing_clears_it() {
    let piece = PieceState {
        pos: PiecePosition { kind: PieceKind::T, x: 4, y: 2, rot: Rotation::South },
        spin: SpinKind::Full,
    };
    let moved = piece.translate((1, 0));
    assert_eq!(moved.pos, piece.pos.translate((1, 0)));
    assert_eq!(moved.pos.x, 5);
    assert_eq!(moved.spin, SpinKind::Full);
    let state: GameState<BitBoard> = GameState::new();
    let strafed = state.strafe(piece, (1, 0)).unwrap();
    assert_eq!(strafed.pos, moved.pos);
    assert_eq!(strafed.spin, SpinKind::NoSpin);
}

#[test]
fn attack_of_placements() {
    let quad = PlacementResult {
        lines_cleared: 4,
        ren: 0,
        spin: SpinKind::NoSpin,
        is_b2b_clear: false,
        is_pc: false,
        death: false,
    };
    assert_eq!(quad.attack(), 4);
    let spin_double = PlacementResult {
        lines_cleared: 2,
        ren: 3,
        spin: SpinKind::Full,
        is_b2b_clear: true,
        is_pc: false,
        death: false,
    };
    assert_eq!(spin_double.attack(), 4 + 1 + 1);
    let perfect = PlacementResult { is_pc: true, ..quad };
    assert_eq!(perfect.attack(), 10);
    assert_eq!(PlacementResult::default().attack(), 0);
    let single = PlacementResult { lines_cleared: 1, ..quad };
    assert_eq!(single.attack(), 0);
    let mini = PlacementResult { lines_cleared: 2, spin: SpinKind::Mini, ..quad };
    assert_eq!(mini.attack(), 1);
}

#[test]
fn spawn_strafe_and_drop_on_an_empty_board() {
    let state: GameState<BitBoard> = GameState::new();
    let spawned = state.spawn(PieceKind::I).unwrap();
    assert_eq!(spawned, place(PieceKind::I, 4, 19, Rotation::North));
    let left = state.strafe(spawned, (-1, 0)).unwrap();
    assert_eq!(left, place(PieceKind::I, 3, 19, Rotation::North));
    assert_eq!(state.strafe(place(PieceKind::I, 1, 19, Rotation::North), (-1, 0)), None);
    let dropped = state.sonic_drop(&spawned).unwrap();
    assert_eq!(dropped, place(PieceKind::I, 4, 0, Rotation::North));
    assert!(state.is_grounded(&dropped));
    assert!(!state.is_grounded(&spawned));
}

#[test]
fn spawn_moves_up_or_fails_when_blocked() {
    let mut state: GameState<BitBoard> = GameState::new();
    state.board.cols[4] = 1 << 19;
    assert_eq!(state.spawn(PieceKind::T), Some(place(PieceKind::T, 4, 20, Rotation::North)));
    state.board.cols[4] = (1 << 19) | (1 << 20);
    assert_eq!(state.spawn(PieceKind::T), None);
}

#[test]
fn rotation_takes_the_first_free_kick() {
    let state: GameState<BitBoard> = GameState::new();
    let piece = place(PieceKind::T, 4, 19, Rotation::North);
    let turned = state.rotate(piece, true).unwrap();
    assert_eq!(turned, place(PieceKind::T, 4, 19, Rotation::East));
    let back = state.rotate(turned, false).unwrap();
    assert_eq!(back, piece);
    // At the left wall the first kick of a turn to the west collides.
    let wall = place(PieceKind::T, 0, 5, Rotation::East);
    let kicked = state.rotate(wall, true).unwrap();
    assert_eq!(kicked.pos.rot, Rotation::South);
    assert_eq!((kicked.pos.x, kicked.pos.y), (1, 5));
}

#[test]
fn a_turn_into_a_slot_is_a_full_spin() {
    // A slot under two overhangs, at (3, 2) and (5, 2).
    let board = BitBoard::from_rows(&[
        "___x_x____",
        "xxx___xxxx",
        "xxxx_xxxxx",
    ]);
    let mut state: GameState<BitBoard> = GameState::new();
    state.board = board;
    let above = place(PieceKind::T, 4, 1, Rotation::East);
    assert!(!state.board.collides(above.pos));
    let turned = state.rotate(above, true);
    let turned = turned.unwrap();
    assert_eq!(turned.pos.rot, Rotation::South);
    assert_eq!((turned.pos.x, turned.pos.y), (4, 1));
    assert_eq!(turned.spin, SpinKind::Full);
    // With one overhang only three corners are taken, one of them in front.
    state.board = BitBoard::from_rows(&["___x______", "xxx___xxxx", "xxxx_xxxxx"]);
    assert_eq!(state.rotate(above, true).unwrap().spin, SpinKind::Mini);
    // With two corners taken there is no spin.
    state.board = BitBoard::from_rows(&["xxx___xxxx", "xxxx_xxxxx"]);
    assert_eq!(state.rotate(above, true).unwrap().spin, SpinKind::NoSpin);
}

#[test]
fn placing_clears_rows_and_counts_chains() {
    let mut state: GameState<BitBoard> = GameState::new();
    state.board = BitBoard::from_rows(&["xxx____xxx"]);
    state.add_piece(PieceKind::I);
    let result = state.advance(Move::Place(place(PieceKind::I, 4, 0, Rotation::North)));
    assert_eq!(
        result,
        PlacementResult {
            lines_cleared: 1,
            ren: 0,
            spin: SpinKind::NoSpin,
            is_b2b_clear: false,
            is_pc: true,
            death: false,
        }
    );
    assert!(state.board.is_empty());
    assert_eq!(state.ren, 0);
    assert!(!state.b2b);
    assert!(state.queue.is_empty());
    state.add_piece(PieceKind::O);
    let second = state.advance(Move::Place(place(PieceKind::O, 0, 0, Rotation::North)));
    assert_eq!(second.lines_cleared, 0);
    assert_eq!(second.ren, -1);
    assert_eq!(state.ren, -1);
    assert_eq!(state.board.cols[0], 0b11);
    assert_eq!(state.board.cols[1], 0b11);
}

#[test]
fn rows_above_a_cleared_row_fall() {
    let mut board = BitBoard::from_rows(&[
        "x_________",
        "xxx____xxx",
        "_x________",
    ]);
    let cleared = board.add_piece_and_clear(place(PieceKind::I, 4, 1, Rotation::North));
    assert_eq!(cleared, 1);
    assert_eq!(board, BitBoard::from_rows(&["x_________", "_x________"]));
}

#[test]
fn a_piece_above_the_field_is_a_death() {
    let mut state: GameState<BitBoard> = GameState::new();
    state.add_piece(PieceKind::O);
    let result = state.place_piece(place(PieceKind::O, 4, 20, Rotation::North));
    assert!(result.death);
    let mut other: GameState<BitBoard> = GameState::new();
    let low = other.place_piece(place(PieceKind::O, 4, 19, Rotation::North));
    assert!(!low.death);
}

#[test]
fn hold_is_offered_for_an_empty_slot() {
    let mut state: GameState<BitBoard> = GameState::new();
    state.add_piece(PieceKind::L);
    let moves = state.legal_moves(true).unwrap();
    assert_eq!(moves.last(), Some(&Move::Hold));
    assert_eq!(moves.iter().filter(|m| **m == Move::Hold).count(), 1);
    let without = state.legal_moves(false).unwrap();
    assert!(!without.contains(&Move::Hold));
    let board = state.board;
    let result = state.advance(Move::Hold);
    assert_eq!(result, PlacementResult::default());
    assert_eq!(state.hold, Some(PieceKind::L));
    assert_eq!(state.board, board);
    assert!(state.queue.is_empty());
}

#[test]
fn an_empty_bag_refills_before_a_draw() {
    let mut bag = SevenBag::default();
    assert!(bag.has(PieceKind::T));
    bag.take(PieceKind::T);
    assert_eq!(bag, SevenBag(0x7f & !(1 << 4)));
    assert!(!bag.has(PieceKind::T));
    assert!(bag.has(PieceKind::I));
    for kind in [PieceKind::S, PieceKind::Z, PieceKind::J, PieceKind::L, PieceKind::O] {
        bag.take(kind);
    }
    assert_eq!(bag, SevenBag(1 << 6));
    bag.take(PieceKind::I);
    assert_eq!(bag, SevenBag(0));
    assert!(bag.has(PieceKind::T));
}

#[test]
fn putting_a_piece_back_undoes_a_draw() {
    let mut bag = SevenBag::default();
    bag.take(PieceKind::J);
    bag.put(PieceKind::J);
    assert_eq!(bag, SevenBag::default());
    let mut low = SevenBag(1);
    assert!(low.lacks(PieceKind::Z));
    low.put(PieceKind::Z);
    assert_eq!(low, SevenBag(3));
    assert_eq!(SevenBag::nth_kind(0b0101_0000, 1), PieceKind::I);
    assert_eq!(SevenBag::nth_kind(0b0101_0000, 0), PieceKind::T);
    assert_eq!(
        SevenBag::from_kinds(&vec![PieceKind::S, PieceKind::I, PieceKind::S]),
        SevenBag(0b100_0001)
    );
    assert_eq!(
        SevenBag::from_kinds(&vec![
            PieceKind::S,
            PieceKind::Z,
            PieceKind::J,
            PieceKind::L,
            PieceKind::T,
            PieceKind::O,
            PieceKind::I
        ]),
        SevenBag(0)
    );
}

#[test]
fn random_draws_empty_the_bag_in_seven() {
    let mut state: GameState<BitBoard> = GameState::new();
    let mut seen = Vec::new();
    for _ in 0..7 {
        let piece = state.fulfill_queue();
        assert!(!seen.contains(&piece));
        seen.push(piece);
    }
    assert_eq!(state.bag, SevenBag(0));
    assert_eq!(state.queue.len(), 7);
    let next = state.fulfill_queue();
    assert!(!state.bag.has(next));
}

#[test]
fn a_piece_far_from_the_field_neither_moves_nor_turns() {
    let state: GameState<BitBoard> = GameState::new();
    let far = place(PieceKind::T, 120, 120, Rotation::North);
    assert_eq!(state.strafe(far, (5, 0)), None);
    assert_eq!(state.strafe(far, (0, 7)), None);
    assert_eq!(state.rotate(far, true), None);
    assert_eq!(state.rotate(place(PieceKind::I, -124, 123, Rotation::East), false), None);
}

#[test]
fn a_piece_at_the_edge_of_the_numbers_has_cells_and_collides() {
    let far = PiecePosition { kind: PieceKind::I, x: 125, y: -126, rot: Rotation::North };
    assert_eq!(far.cells(), [(124, -126), (125, -126), (126, -126), (127, -126)]);
    let state: GameState<BitBoard> = GameState::new();
    assert!(state.board.collides(far));
    assert!(!state.board.collides(PiecePosition { kind: PieceKind::I, x: 4, y: 0, rot: Rotation::North }));
}
