//! The search: a graph of states layered by the number of pieces placed.

pub mod carry;
pub mod edges;
pub mod generation;
pub mod graph;
pub mod maps;
pub mod node;
pub mod offer;
pub mod state;
pub mod storage;
pub mod tree;

pub use generation::Generation;
pub use graph::Graph;
pub use node::{Action, ChildData, Node, Plan, SelectResult};
pub use state::State;
pub use storage::{Index, IndexRange, Rack, Shelf, ShelfRef};
