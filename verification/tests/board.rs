use firefly::tetris::{
    BitBoard, Board, CellKind, ColoredBoard, PieceKind, PieceState, Rotation,
};

#[test]
fn test_bit_board_macro() {
    let expected = BitBoard {
        cols: [
            0b1111, 0b1111, 0b1111, 0b1011, 0b0001, 0b0000, 0b0000, 0b1111, 0b1111, 0b1111,
        ],
    };
    let actual = BitBoard::from_rows(&["xxxx___xxx", "xxx____xxx", "xxxx___xxx", "xxxxx__xxx"]);

    assert_eq!(expected, actual);
}

#[test]
fn heights_follow_the_highest_block() {
    let board = BitBoard::from_rows(&["xxxx___xxx", "xxx____xxx", "xxxx___xxx", "xxxxx__xxx"]);
    assert_eq!(board.height_of(0), 4);
    assert_eq!(board.height_of(4), 1);
    assert_eq!(board.height_of(5), 0);
    assert!(board.occupied((3, 0)));
    assert!(!board.occupied((3, 2)));
    assert!(board.occupied((-1, 0)));
    assert!(board.occupied((10, 0)));
    assert!(board.occupied((0, -1)));
    assert!(board.occupied((0, 64)));
    assert_eq!(board.distance_to_ground((3, 3)), 1);
    assert_eq!(board.distance_to_ground((3, 2)), 0);
    assert_eq!(board.distance_to_ground((5, 10)), 10);
    assert_eq!(board.distance_to_ground((4, 10)), 9);
    assert_eq!(board.distance_to_ground((5, 0)), 0);
    assert_eq!(board.get_row(0), 0b11_1001_1111);
    assert_eq!(board.get_row(2), 0b11_1000_0111);
    assert_eq!(board.get_row(4), 0);
    assert!(!board.is_empty());
    assert!(BitBoard::default().is_empty());
    assert!(BitBoard::empty().is_empty());
}

#[test]
fn a_column_can_be_full_to_the_top() {
    let mut board = BitBoard::default();
    board.cols[2] = u64::MAX;
    assert_eq!(board.height_of(2), 64);
    assert_eq!(board.distance_to_ground((3, 63)), 63);
    assert!(board.occupied((2, 63)));
}

#[test]
fn grids_of_the_host_become_boards() {
    let mut grid = vec![[None; 10]; 40];
    grid[0][0] = Some('I');
    grid[0][9] = Some('G');
    grid[3][4] = Some('T');
    let bits = BitBoard::from_grid(&grid);
    assert_eq!(bits.cols[0], 1);
    assert_eq!(bits.cols[9], 1);
    assert_eq!(bits.cols[4], 1 << 3);
    assert_eq!(bits.cols[5], 0);
    let colours = ColoredBoard::from_grid(&grid);
    assert_eq!(colours.cols[0][0], CellKind::I);
    assert_eq!(colours.cols[9][0], CellKind::Gbg);
    assert_eq!(colours.cols[4][3], CellKind::T);
    assert_eq!(colours.cols[4][4], CellKind::Empty);
    assert_eq!(colours.height_of(4), 4);
    assert_eq!(colours.distance_to_ground((4, 10)), 6);
}

#[test]
fn a_coloured_board_clears_rows_like_a_bitmap() {
    let mut grid = vec![[None; 10]; 40];
    for x in 0..10 {
        if !(3..7).contains(&x) {
            grid[1][x] = Some('G');
        }
    }
    grid[0][1] = Some('L');
    grid[2][0] = Some('J');
    let mut colours = ColoredBoard::from_grid(&grid);
    let mut bits = BitBoard::from_grid(&grid);
    let piece = PieceState::new(PieceKind::I, (4, 1), Rotation::North);
    assert!(!colours.collides(piece.pos));
    assert_eq!(colours.add_piece_and_clear(piece), 1);
    assert_eq!(bits.add_piece_and_clear(piece), 1);
    assert_eq!(colours.cols[1][0], CellKind::L);
    assert_eq!(colours.cols[0][1], CellKind::J);
    assert_eq!(colours.cols[0][2], CellKind::Empty);
    assert_eq!(colours.cols[4][1], CellKind::Empty);
    for x in 0..10i8 {
        for y in 0..64i8 {
            assert_eq!(colours.occupied((x, y)), bits.occupied((x, y)));
        }
    }
    assert!(!colours.is_empty());
    assert!(ColoredBoard::default().is_empty());
}
