//! Nodes and actions: the states of the search and the moves between them.

use super::storage::{Index, IndexRange};
use crate::eval::{Accumulator, Evaluator};
use crate::tetris::piece::{Move, PieceKind};
use vstd::prelude::*;

verus! {

/// The run of actions that lead away from a node.
#[derive(Debug, Clone, Copy)]
pub struct ChildData(pub IndexRange);

/// A state of the search.
pub struct Node<E: Evaluator> {
    /// The actions that lead away from the node, once it has been expanded.
    pub children: Option<ChildData>,
    /// The score of the state by itself.
    pub value: E::Accumulator,
    /// True if no piece can spawn in the state.
    pub dead: bool,
}

/// A move from a node of one generation to a node of the next.
pub struct Action<E: Evaluator> {
    /// The place of the target in the next generation.
    pub node: Index,
    pub mv: Move,
    /// The piece that was in hand when the move was made.
    pub current_piece: PieceKind,
    /// What the move is worth by itself.
    pub reward: E::TransientReward,
    /// The score of the target with the reward of the move added.
    pub acc: E::Accumulator,
    /// The number of times that a search passed the action.
    pub visits: u32,
}

impl<E: Evaluator> Node<E> {
    /// The run of the children of an expanded node.
    pub open spec fn run(self) -> IndexRange {
        match self.children {
            Some(c) => c.0,
            None => IndexRange { shelf: 0, start: 0, end: 0 },
        }
    }
}

impl<E: Evaluator> Clone for Node<E> {
    fn clone(&self) -> (r: Self)
        ensures
            r == *self,
    {
        Node { children: self.children, value: self.value, dead: self.dead }
    }
}

impl<E: Evaluator> Copy for Node<E> {

}

impl<E: Evaluator> Clone for Action<E> {
    fn clone(&self) -> (r: Self)
        ensures
            r == *self,
    {
        Action {
            node: self.node,
            mv: self.mv,
            current_piece: self.current_piece,
            reward: self.reward,
            acc: self.acc,
            visits: self.visits,
        }
    }
}

impl<E: Evaluator> Copy for Action<E> {

}

impl<E: Evaluator> Action<E> {
    /// The number by which the action is compared with its siblings.
    pub open spec fn score(self) -> int {
        self.acc.score()
    }

    /// The action after a search passed it and found `acc` behind it.
    pub open spec fn passed(self, acc: E::Accumulator) -> Action<E> {
        Action {
            node: self.node,
            mv: self.mv,
            current_piece: self.current_piece,
            reward: self.reward,
            acc,
            visits: if self.visits < u32::MAX {
                (self.visits + 1) as u32
            } else {
                self.visits
            },
        }
    }
}

/// What the choice of a child of a node came to.
pub enum SelectResult<E: Evaluator> {
    /// The node has children; this one was chosen.
    Chosen(Action<E>),
    /// The node is a leaf and can be expanded.
    Expand,
    /// The choice failed.
    Failed,
}

/// A line of play.
#[derive(Debug, Clone)]
pub struct Plan {
    pub moves: Vec<Move>,
    pub score: i32,
}

/// True if the scores of a sequence of actions do not rise.
pub open spec fn best_first<E: Evaluator>(actions: Seq<Action<E>>) -> bool {
    forall|i: int, j: int|
        0 <= i <= j < actions.len() ==> (#[trigger] actions[i]).score() >= (
        #[trigger] actions[j]).score()
}

/// The least score of the first `n` actions, or the largest number of the
/// machine if there is none.
pub open spec fn least_score<E: Evaluator>(actions: Seq<Action<E>>, n: int) -> int
    decreases n,
{
    if n <= 0 {
        i32::MAX as int
    } else {
        let rest = least_score(actions, n - 1);
        if actions[n - 1].score() < rest {
            actions[n - 1].score()
        } else {
            rest
        }
    }
}

/// The weight of an action in the choice among its siblings: its score,
/// shifted so that the least score weighs one.
pub open spec fn weight_of<E: Evaluator>(actions: Seq<Action<E>>, i: int) -> int {
    actions[i].score() - least_score(actions, actions.len() as int) + 1
}

} // verus!
