//! Rules of the game: pieces, boards, the seven-bag and game states.

pub mod bag;
pub mod bit_board;
pub mod bits;
pub mod board;
pub mod colored_board;
pub mod movegen;
pub mod piece;
pub mod placement;
pub mod reach;
pub mod state;

pub use bag::SevenBag;
pub use bit_board::BitBoard;
pub use board::Board;
pub use colored_board::ColoredBoard;
pub use state::GameState;
pub use movegen::{MoveGenerator, Path, Placement, Step};
pub use placement::{ren_attack, PlacementResult};
pub use piece::{
    CellKind, Instruction, Move, PieceKind, PiecePosition, PieceState, Rotation, SpinKind,
};
