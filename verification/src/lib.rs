//! A search engine that recommends piece placements for a falling-block
//! stacking game: game rules, move generation, state evaluation and a
//! generation-layered search graph with transposition lookup.

pub mod bot;
mod chance;
pub mod eval;
pub mod protocol;
pub mod search;
pub mod tetris;
