//! The search graph: the generations from the root on, the state of the
//! root and the pieces to come.

use super::carry::{
    carries, gen_carries, lemma_carries_chain, lemma_carries_children, lemma_carries_node,
    lemma_carries_prefix, lemma_carries_rest, lemma_carries_run, lemma_carries_update,
    lemma_raised_then_same, lemma_refreshed_raised, lemma_same_then_raised, lemma_way_back_same,
    lemma_way_back_start, lemma_way_back_step, raised, way_back,
};
use super::edges::{lemma_parent_stored, registered, registered_at};
use super::generation::{index_of, slot_of, GenView, Generation};
use super::maps::Slot;
use super::node::{best_first, Action, Node, Plan, SelectResult};
use super::offer::{lemma_moves_push, moves_of, playable, spread, unfolded};
use super::state::{can_rewind, rewound, State};
use super::storage::{holds, items_total, spans, Index, IndexRange};
use super::tree::{
    fit_children, fresh_at, gen_keeps, gen_ok, greedy, keeps, lemma_add_children, lemma_add_node,
    lemma_add_parent, lemma_child_leads, lemma_drop_head, lemma_empty_gen_ok, lemma_fit_grows,
    lemma_gen_facts, lemma_keeps_chain, lemma_keeps_node, lemma_keeps_rest, lemma_keeps_update,
    lemma_link_facts, lemma_mark_dead, lemma_push_gen, lemma_queue_push, lemma_refresh,
    lemma_state_of_key, nodes_total, nodes_upto, refreshed, score_behind, tree_ok,
};
use crate::eval::{situation_of, Accumulator, Evaluator};
use crate::tetris::bit_board::BitBoard;
use crate::tetris::board::Board;
use crate::tetris::movegen::{key_space, MoveGenerator};
use crate::tetris::reach::lemma_a_placement_is_found;
use crate::tetris::piece::{Move, PieceKind};
use crate::tetris::state::{spawn_of, GameState};
use std::collections::VecDeque;
use vstd::prelude::*;

verus! {

/// The search graph.
pub struct Graph<E: Evaluator> {
    /// The generations, the head first.
    gens: Vec<Generation<E>>,
    root_state: State,
    /// The pieces to come, the piece in hand at the root first.
    queue: VecDeque<PieceKind>,
    evaluator: Box<E>,
    /// The number of nodes of all generations.
    node_total: usize,
}

/// Replacing a generation changes the number of nodes by the difference of
/// its own.
pub proof fn lemma_nodes_upto_update<E: Evaluator>(
    gens: Seq<GenView<E>>,
    d: int,
    g: GenView<E>,
    n: int,
)
    requires
        0 <= d < gens.len(),
        0 <= n <= gens.len(),
    ensures
        nodes_upto(gens.update(d, g), n) == nodes_upto(gens, n) + if d < n {
            items_total(g.nodes) - items_total(gens[d].nodes)
        } else {
            0
        },
    decreases n,
{
    if n > 0 {
        lemma_nodes_upto_update(gens, d, g, n - 1);
    }
}

/// The first generations hold no more nodes than all.
pub proof fn lemma_nodes_upto_grows<E: Evaluator>(gens: Seq<GenView<E>>, m: int, n: int)
    requires
        0 <= m <= n <= gens.len(),
    ensures
        0 <= nodes_upto(gens, m) <= nodes_upto(gens, n),
        m < n ==> nodes_upto(gens, m) + items_total(gens[m].nodes) <= nodes_upto(gens, n),
    decreases n,
{
    if m < n {
        lemma_nodes_upto_grows(gens, m, n - 1);
        super::storage::lemma_items_upto_bounds(
            gens[n - 1].nodes,
            0,
            gens[n - 1].nodes.len() as int,
        );
    } else if m > 0 {
        lemma_nodes_upto_grows(gens, m - 1, m - 1);
        super::storage::lemma_items_upto_bounds(
            gens[m - 1].nodes,
            0,
            gens[m - 1].nodes.len() as int,
        );
    }
}

/// The number of nodes of a longer sequence of generations, below the length
/// of a prefix, is that of the prefix.
pub proof fn lemma_nodes_upto_prefix<E: Evaluator>(
    gens: Seq<GenView<E>>,
    more: Seq<GenView<E>>,
    n: int,
)
    requires
        0 <= n <= gens.len() <= more.len(),
        forall|d: int| 0 <= d < gens.len() ==> more[d] == gens[d],
    ensures
        nodes_upto(more, n) == nodes_upto(gens, n),
    decreases n,
{
    if n > 0 {
        lemma_nodes_upto_prefix(gens, more, n - 1);
    }
}

/// Without the head, the generations hold the nodes of all but the head.
pub proof fn lemma_nodes_upto_skip<E: Evaluator>(gens: Seq<GenView<E>>, n: int)
    requires
        1 <= gens.len(),
        0 <= n <= gens.len() - 1,
    ensures
        nodes_upto(gens.skip(1), n) == nodes_upto(gens, n + 1) - items_total(gens[0].nodes),
    decreases n,
{
    if n > 0 {
        lemma_nodes_upto_skip(gens, n - 1);
    } else {
        assert(nodes_upto(gens, 1) == nodes_upto(gens, 0) + items_total(gens[0].nodes));
    }
}

/// What a graph holds: its generations, the pieces to come, the state of
/// its root and its evaluator.
pub struct GraphView<E: Evaluator> {
    pub views: Seq<GenView<E>>,
    pub pieces: Seq<PieceKind>,
    pub root: State,
    pub judge: E,
}

impl<E: Evaluator> GraphView<E> {
    /// True if the root has a child with the given move.
    pub open spec fn offers(self, mv: Move) -> bool {
        let head = self.views[0];
        let at = index_of(head.keys[self.root.key_seq()]);
        head.node(at).children is Some && exists|j: int|
            0 <= j < head.children(at).len() && (#[trigger] head.children(at)[j]).mv == mv
    }

    /// The graph after a move was committed, or the graph as it is if the
    /// root does not offer the move.
    pub open spec fn committed(self, mv: Move) -> GraphView<E> {
        if self.offers(mv) {
            GraphView {
                views: self.views.skip(1),
                pieces: self.pieces.skip(1),
                root: self.root.moved(mv, self.pieces[0]),
                judge: self.judge,
            }
        } else {
            self
        }
    }

    /// The graph after a sequence of moves was committed, one after another.
    pub open spec fn committed_all(self, moves: Seq<Move>) -> GraphView<E>
        decreases moves.len(),
    {
        if moves.len() == 0 {
            self
        } else {
            self.committed_all(moves.drop_last()).committed(moves.last())
        }
    }

    /// The state after the moves were played from the root, each with the
    /// piece queued at its depth.
    pub open spec fn state_after(self, moves: Seq<Move>) -> State
        decreases moves.len(),
    {
        if moves.len() == 0 {
            self.root
        } else {
            self.state_after(moves.drop_last()).moved(moves.last(), self.pieces[moves.len() - 1])
        }
    }

    /// True if the moves are a line of play through the graph from the root
    /// on: each is the move of a child of the node of the state in which it
    /// is played.
    pub open spec fn walks(self, moves: Seq<Move>) -> bool
        decreases moves.len(),
    {
        if moves.len() == 0 {
            true
        } else {
            let d = moves.len() - 1;
            let s = self.state_after(moves.drop_last());
            let at = index_of(self.views[d].keys[s.key_seq()]);
            &&& self.walks(moves.drop_last())
            &&& d < self.views.len()
            &&& d < self.pieces.len()
            &&& self.views[d].keys.contains_key(s.key_seq())
            &&& self.views[d].node(at).children is Some
            &&& exists|j: int|
                0 <= j < self.views[d].children(at).len() && (#[trigger] self.views[d].children(
                    at,
                )[j]).mv == moves.last()
        }
    }

    /// The best line of play.
    pub open spec fn plan(self) -> Seq<Move> {
        greedy(self.views, self.pieces, 0, self.root)
    }
}

impl<E: Evaluator> Graph<E> {
    /// What the graph holds.
    pub open spec fn model(&self) -> GraphView<E> {
        GraphView {
            views: self.views(),
            pieces: self.pieces(),
            root: self.root(),
            judge: self.judge(),
        }
    }

    /// What the generations hold, the head first.
    pub closed spec fn views(&self) -> Seq<GenView<E>> {
        Seq::new(self.gens@.len(), |d: int| self.gens@[d]@)
    }

    /// The state of the root.
    pub closed spec fn root(&self) -> State {
        self.root_state
    }

    /// The pieces to come, the piece in hand at the root first.
    pub closed spec fn pieces(&self) -> Seq<PieceKind> {
        self.queue@
    }

    /// The evaluator.
    pub closed spec fn judge(&self) -> E {
        *self.evaluator
    }

    /// True if the racks of every generation have counted their items right,
    /// and the graph has counted its nodes right.
    pub closed spec fn counted(&self) -> bool {
        &&& forall|d: int| 0 <= d < self.gens@.len() ==> (#[trigger] self.gens@[d]).racks_sound()
        &&& self.node_total as int == nodes_total(self.views())
    }

    /// The invariant of the graph. `fresh` is the node that has just been
    /// expanded and whose children await their first scores, if any.
    pub open spec fn inv(&self, fresh: Option<(int, Index)>) -> bool {
        &&& self.counted()
        &&& tree_ok(self.judge(), self.views(), self.pieces(), fresh)
        &&& self.views()[0].keys.contains_key(self.root().key_seq())
        &&& self.judge().well_formed()
    }

    /// True if the graph is sound.
    pub open spec fn well_formed(&self) -> bool {
        self.inv(None)
    }

    /// A graph with one node, for the state of a game.
    #[verifier::rlimit(50)]
    pub fn new(state: &GameState<BitBoard>, evaluator: Box<E>) -> (r: Self)
        requires
            evaluator.well_formed(),
            can_rewind(state.bag, state.queue@),
        ensures
            r.well_formed(),
            r.root() == (State {
                board: state.board,
                bag: rewound(state.bag, state.queue@),
                hold: state.hold,
                ren: state.ren,
                b2b: state.b2b,
            }),
            r.pieces() == state.queue@,
            r.judge() == *evaluator,
            r.views().len() == 1,
            nodes_total(r.views()) == 1,
            r.views()[0].keys.contains_key(r.root().key_seq()),
            r.views()[0].node(index_of(r.views()[0].keys[r.root().key_seq()])) == (Node::<E> {
                children: None,
                value: evaluator.state_value(situation_of(state)),
                dead: false,
            }),
            r.views()[0].parents.contains_key(r.views()[0].keys[r.root().key_seq()]),
            r.views()[0].parents[r.views()[0].keys[r.root().key_seq()]].len() == 0,
    {
        let root_state = State::new(state);
        let mut head: Generation<E> = Generation::new();
        let ghost empty = head@;
        let value = evaluator.evaluate_state(state);
        let node = Node { children: None, value, dead: false };
        let at = head.add_node(&root_state, node);
        let mut queue: VecDeque<PieceKind> = VecDeque::new();
        let mut i: usize = 0;
        while i < state.queue.len()
            invariant
                i <= state.queue@.len(),
                queue@ == state.queue@.take(i as int),
            decreases state.queue@.len() - i,
        {
            queue.push_back(state.queue[i]);
            proof {
                assert(state.queue@.take(i + 1) =~= state.queue@.take(i as int).push(
                    state.queue@[i as int],
                ));
            }
            i = i + 1;
        }
        let mut gens: Vec<Generation<E>> = Vec::new();
        gens.push(head);
        let r = Graph { gens, root_state, queue, evaluator, node_total: 1 };
        proof {
            assert(state.queue@.take(state.queue@.len() as int) =~= state.queue@);
            let before = seq![empty];
            lemma_empty_gen_ok(empty);
            assert(tree_ok(r.judge(), before, r.pieces(), None)) by {
                assert forall|e: int| 0 <= e < before.len() implies #[trigger] gen_ok(
                    before[e],
                    fresh_at(None, e),
                ) by {}
            }
            lemma_add_node(r.judge(), before, r.pieces(), None, 0, at, root_state.key_seq(), node);
            assert(r.views() =~= before.update(0, empty.with_node(at, root_state.key_seq(), node)));
            lemma_nodes_upto_update(before, 0, r.views()[0], 1);
            assert(nodes_upto(before, 1) == nodes_upto(before, 0) + items_total(empty.nodes));
            super::storage::lemma_items_upto_grow(
                empty.nodes,
                r.views()[0].nodes,
                at.shelf as int,
                1,
                empty.nodes.len() as int,
            );
        }
        r
    }

    /// The number of nodes of all generations.
    pub fn count_nodes(&self) -> (count: usize)
        requires
            self.well_formed(),
        ensures
            count as int == nodes_total(self.views()),
    {
        let mut count: usize = 0;
        let mut d: usize = 0;
        while d < self.gens.len()
            invariant
                d <= self.gens@.len(),
                self.counted(),
                count as int == nodes_upto(self.views(), d as int),
            decreases self.gens@.len() - d,
        {
            proof {
                lemma_nodes_upto_grows(self.views(), d as int, self.views().len() as int);
            }
            let c = self.gens[d].node_count();
            count = count + c;
            d = d + 1;
        }
        count
    }

    /// Appends a revealed piece to the queue. The graph stays as it is; a
    /// search can now reach one generation deeper.
    pub fn add_piece(&mut self, piece: PieceKind)
        requires
            old(self).well_formed(),
        ensures
            final(self).well_formed(),
            final(self).pieces() == old(self).pieces().push(piece),
            final(self).views() == old(self).views(),
            final(self).root() == old(self).root(),
            final(self).judge() == old(self).judge(),
    {
        self.queue.push_back(piece);
        proof {
            lemma_queue_push(old(self).judge(), old(self).views(), old(self).pieces(), piece);
        }
    }
}

impl<E: Evaluator> Graph<E> {
    /// True if the other graph has the same root, queue and evaluator.
    pub open spec fn same_frame(&self, other: &Graph<E>) -> bool {
        &&& self.root() == other.root()
        &&& self.pieces() == other.pieces()
        &&& self.judge() == other.judge()
    }

    /// Adds a node to a generation.
    fn gen_add_node(&mut self, d: usize, state: &State, node: Node<E>) -> (at: Index)
        requires
            old(self).counted(),
            d < old(self).views().len(),
            !old(self).views()[d as int].keys.contains_key(state.key_seq()),
            nodes_total(old(self).views()) < usize::MAX,
        ensures
            final(self).counted(),
            final(self).same_frame(old(self)),
            at.shelf < old(self).views()[d as int].nodes.len(),
            at.slot == old(self).views()[d as int].nodes[at.shelf as int].len(),
            final(self).views() == old(self).views().update(
                d as int,
                old(self).views()[d as int].with_node(at, state.key_seq(), node),
            ),
            nodes_total(final(self).views()) == nodes_total(old(self).views()) + 1,
            keeps(final(self).views(), old(self).views()),
            carries(final(self).views(), old(self).views()),
    {
        proof {
            lemma_nodes_upto_grows(old(self).views(), d as int, old(self).views().len() as int);
            lemma_nodes_upto_grows(old(self).views(), 0, d as int);
        }
        let at = self.gens[d].add_node(state, node);
        self.node_total = self.node_total + 1;
        proof {
            let before = old(self).views();
            let after = before.update(d as int, before[d as int].with_node(at, state.key_seq(), node));
            assert(final(self).views() =~= after);
            lemma_keeps_node(before[d as int], at, state.key_seq(), node);
            lemma_keeps_update(before, d as int, after[d as int]);
            lemma_carries_node(before[d as int], at, state.key_seq(), node);
            lemma_carries_update(before, d as int, after[d as int]);
            lemma_nodes_upto_update(before, d as int, after[d as int], before.len() as int);
            super::storage::lemma_items_upto_grow(
                before[d as int].nodes,
                after[d as int].nodes,
                at.shelf as int,
                1,
                before[d as int].nodes.len() as int,
            );
        }
        at
    }

    /// Adds a parent to a node of a generation.
    fn gen_add_parent(&mut self, d: usize, child: Index, parent: Index)
        requires
            old(self).counted(),
            d < old(self).views().len(),
            old(self).views()[d as int].parents.contains_key(slot_of(child)),
        ensures
            final(self).counted(),
            final(self).same_frame(old(self)),
            final(self).views() == old(self).views().update(
                d as int,
                old(self).views()[d as int].with_parent(child, parent),
            ),
            keeps(final(self).views(), old(self).views()),
            carries(final(self).views(), old(self).views()),
    {
        self.gens[d].add_parent(child, parent);
        proof {
            let before = old(self).views();
            let after = before.update(d as int, before[d as int].with_parent(child, parent));
            assert(final(self).views() =~= after);
            lemma_keeps_rest(before[d as int], child, parent, IndexRange { shelf: 0, start: 0, end: 0 }, Seq::empty());
            lemma_keeps_update(before, d as int, after[d as int]);
            lemma_carries_rest(before[d as int], child, parent);
            lemma_carries_update(before, d as int, after[d as int]);
            lemma_nodes_upto_update(before, d as int, after[d as int], before.len() as int);
        }
    }

    /// Gives a leaf of a generation its children.
    fn gen_add_actions(&mut self, d: usize, at: Index, actions: Vec<Action<E>>) -> (range:
        IndexRange)
        requires
            old(self).counted(),
            d < old(self).views().len(),
            holds(old(self).views()[d as int].nodes, at),
            old(self).views()[d as int].node(at).children is None,
            items_total(old(self).views()[d as int].actions) + actions@.len() <= usize::MAX,
        ensures
            keeps(final(self).views(), old(self).views()),
            final(self).counted(),
            final(self).same_frame(old(self)),
            range.shelf < old(self).views()[d as int].actions.len(),
            range.start == old(self).views()[d as int].actions[range.shelf as int].len(),
            range.end == range.start + actions@.len(),
            final(self).views() == old(self).views().update(
                d as int,
                old(self).views()[d as int].with_children(at, range, actions@),
            ),
    {
        let ghost items = actions@;
        let range = self.gens[d].add_actions(at, actions);
        proof {
            let before = old(self).views();
            let after = before.update(d as int, before[d as int].with_children(at, range, items));
            assert(final(self).views() =~= after);
            lemma_keeps_rest(before[d as int], at, at, range, items);
            lemma_keeps_update(before, d as int, after[d as int]);
            lemma_nodes_upto_update(before, d as int, after[d as int], before.len() as int);
            super::storage::lemma_items_upto_same(
                before[d as int].nodes,
                after[d as int].nodes,
                before[d as int].nodes.len() as int,
            );
        }
        range
    }

    /// Marks a node of a generation as dead.
    fn gen_mark_dead(&mut self, d: usize, at: Index)
        requires
            old(self).counted(),
            d < old(self).views().len(),
            holds(old(self).views()[d as int].nodes, at),
        ensures
            final(self).counted(),
            final(self).same_frame(old(self)),
            final(self).views() == old(self).views().update(
                d as int,
                old(self).views()[d as int].with_dead(at),
            ),
            keeps(final(self).views(), old(self).views()),
            carries(final(self).views(), old(self).views()),
    {
        self.gens[d].mark_dead(at);
        proof {
            let before = old(self).views();
            let after = before.update(d as int, before[d as int].with_dead(at));
            assert(final(self).views() =~= after);
            lemma_keeps_rest(before[d as int], at, at, IndexRange { shelf: 0, start: 0, end: 0 }, Seq::empty());
            lemma_keeps_update(before, d as int, after[d as int]);
            lemma_carries_rest(before[d as int], at, at);
            lemma_carries_update(before, d as int, after[d as int]);
            lemma_nodes_upto_update(before, d as int, after[d as int], before.len() as int);
            super::storage::lemma_items_upto_same(
                before[d as int].nodes,
                after[d as int].nodes,
                before[d as int].nodes.len() as int,
            );
        }
    }

    /// Replaces the actions of a run of a generation.
    fn gen_put_run(&mut self, d: usize, range: IndexRange, items: &Vec<Action<E>>)
        requires
            old(self).counted(),
            d < old(self).views().len(),
            spans(old(self).views()[d as int].actions, range),
            items@.len() == range.end - range.start,
        ensures
            final(self).counted(),
            final(self).same_frame(old(self)),
            final(self).views() == old(self).views().update(
                d as int,
                old(self).views()[d as int].with_run(range, items@),
            ),
            keeps(final(self).views(), old(self).views()),
    {
        self.gens[d].put_run(range, items);
        proof {
            let before = old(self).views();
            let after = before.update(d as int, before[d as int].with_run(range, items@));
            assert(final(self).views() =~= after);
            lemma_keeps_rest(before[d as int], Index { shelf: 0, slot: 0 }, Index { shelf: 0, slot: 0 }, range, items@);
            lemma_keeps_update(before, d as int, after[d as int]);
            super::tree::lemma_run_frame(before[d as int], range, items@);
            lemma_nodes_upto_update(before, d as int, after[d as int], before.len() as int);
        }
    }

    /// Adds an empty generation at the end.
    fn push_gen(&mut self)
        requires
            old(self).inv(None),
            old(self).views().len() <= old(self).pieces().len(),
        ensures
            final(self).inv(None),
            final(self).same_frame(old(self)),
            final(self).views().len() == old(self).views().len() + 1,
            final(self).views()[old(self).views().len() as int].vacant(),
            forall|d: int|
                0 <= d < old(self).views().len() ==> final(self).views()[d] == old(self).views()[d],
            nodes_total(final(self).views()) == nodes_total(old(self).views()),
            keeps(final(self).views(), old(self).views()),
            carries(final(self).views(), old(self).views()),
    {
        let born: Generation<E> = Generation::new();
        let ghost empty = born@;
        self.gens.push(born);
        proof {
            let before = old(self).views();
            assert(final(self).views() =~= before.push(empty));
            lemma_push_gen(old(self).judge(), before, old(self).pieces(), empty);
            lemma_nodes_upto_prefix(before, final(self).views(), before.len() as int);
            assert forall|e: int| 0 <= e < before.len() implies #[trigger] gen_keeps(
                final(self).views()[e],
                before[e],
            ) by {}
            lemma_carries_prefix(final(self).views(), before);
        }
    }
}

impl<E: Evaluator> Graph<E> {
    /// Finds or makes, in the generation after `d`, the node of each state
    /// that a move leads to from `state`, and returns the actions that lead
    /// there. A move that cannot be played is left out.
    #[verifier::rlimit(50)]
    fn gather(&mut self, d: usize, state: &State, moves: &Vec<Move>) -> (actions: Vec<Action<E>>)
        requires
            old(self).inv(None),
            d + 1 < old(self).views().len(),
            nodes_total(old(self).views()) + moves@.len() <= usize::MAX,
        ensures
            final(self).inv(None),
            final(self).same_frame(old(self)),
            final(self).views().len() == old(self).views().len(),
            forall|e: int|
                0 <= e < old(self).views().len() && e != d + 1 ==> final(self).views()[e] == old(self).views()[e],
            fit_children(old(self).judge(), final(self).views()[d + 1],
                old(self).pieces()[d as int],
                state.key_seq(),
                actions@,
            ),
            actions@.len() <= moves@.len(),
            nodes_total(old(self).views()) <= nodes_total(final(self).views()),
            keeps(final(self).views(), old(self).views()),
            carries(final(self).views(), old(self).views()),
            forall|j: int|
                0 <= j < actions@.len() ==> (#[trigger] actions@[j]).acc == E::Accumulator::neutral()
                    && actions@[j].visits == 0,
            moves_of(actions@) == playable(moves@, *state, old(self).pieces()[d as int]),
    {
        proof {
            lemma_link_facts(old(self).judge(), old(self).views(), old(self).pieces(), None, d as int);
            lemma_carries_prefix(self.views(), self.views());
        }
        let piece = self.queue[d];
        let count = self.gens.len();
        assert(self.views().len() == count);
        let nd: usize = d + 1;
        let mut actions: Vec<Action<E>> = Vec::new();
        let mut i: usize = 0;
        while i < moves.len()
            invariant
                i <= moves@.len(),
                nd == d + 1,
                self.inv(None),
                self.same_frame(old(self)),
                self.views().len() == old(self).views().len(),
                d + 1 < self.views().len(),
                d < self.pieces().len(),
                piece == self.pieces()[d as int],
                forall|e: int|
                    0 <= e < old(self).views().len() && e != d + 1 ==> self.views()[e] == old(self).views()[e],
                fit_children(self.judge(), self.views()[d + 1], piece, state.key_seq(), actions@),
                actions@.len() <= i,
                forall|j: int|
                    0 <= j < actions@.len() ==> playable(moves@, *state, piece).contains(
                        (#[trigger] actions@[j]).mv,
                    ),
                forall|t: int|
                    0 <= t < i && state.applies(#[trigger] moves@[t], piece) ==> moves_of(
                        actions@,
                    ).contains(moves@[t]),
                nodes_total(self.views()) + moves@.len() - i <= usize::MAX,
                nodes_total(old(self).views()) <= nodes_total(self.views()),
                keeps(self.views(), old(self).views()),
                carries(self.views(), old(self).views()),
                forall|j: int|
                    0 <= j < actions@.len() ==> (#[trigger] actions@[j]).acc
                        == E::Accumulator::neutral() && actions@[j].visits == 0,
            decreases moves@.len() - i,
        {
            let mv = moves[i];
            let mut child = *state;
            match child.advance(mv, piece) {
                Ok(placement) => {
                    let game = child.to_game();
                    let ghost before = self.views();
                    let ghost items = actions@;
                    proof {
                        lemma_gen_facts(self.judge(), before, self.pieces(), None, d + 1);
                    }
                    let target = match self.gens[nd].find_node_index(&child) {
                        Some(found) => found,
                        None => {
                            let value = self.evaluator.evaluate_state(&game);
                            let node = Node { children: None, value, dead: false };
                            let at = self.gen_add_node(nd, &child, node);
                            proof {
                                lemma_state_of_key(child);
                                lemma_add_node(self.judge(), before,
                                    self.pieces(),
                                    None,
                                    d + 1,
                                    at,
                                    child.key_seq(),
                                    node,
                                );
                                lemma_fit_grows(self.judge(), before[d + 1],
                                    piece,
                                    state.key_seq(),
                                    items,
                                    at,
                                    child.key_seq(),
                                    node,
                                );
                                lemma_keeps_chain(self.views(), before, old(self).views());
                                lemma_carries_chain(self.views(), before, old(self).views());
                            }
                            at
                        },
                    };
                    let reward = self.evaluator.evaluate_move(mv, placement, &game);
                    let action = Action {
                        node: target,
                        mv,
                        current_piece: piece,
                        reward,
                        acc: E::Accumulator::fresh(),
                        visits: 0,
                    };
                    actions.push(action);
                    proof {
                        lemma_moves_push(items, action);
                        assert(moves@[i as int] == mv);
                        assert forall|j: int| 0 <= j < actions@.len() implies playable(
                            moves@,
                            *state,
                            piece,
                        ).contains((#[trigger] actions@[j]).mv) by {
                            if j < items.len() {
                                assert(actions@[j] == items[j]);
                            }
                        }
                        lemma_state_of_key(*state);
                        let next = self.views()[d + 1];
                        assert(GenView::<E>::move_leads(self.judge(), next, piece, state.key_seq(), action));
                        assert forall|j: int| 0 <= j < actions@.len() implies {
                            &&& holds(next.nodes, (#[trigger] actions@[j]).node)
                            &&& actions@[j].current_piece == piece
                            &&& E::Accumulator::modest(actions@[j].reward)
                            &&& actions@[j].acc.scorable()
                            &&& GenView::<E>::move_leads(self.judge(), next, piece, state.key_seq(), actions@[j])
                        } by {
                            if j < items.len() {
                                assert(actions@[j] == items[j]);
                            }
                        }
                    }
                },
                Err(_) => {},
            }
            i = i + 1;
        }
        proof {
            assert forall|m: Move| moves_of(actions@).contains(m) implies playable(
                moves@,
                *state,
                piece,
            ).contains(m) by {
                let j = choose|j: int| 0 <= j < actions@.len() && (#[trigger] actions@[j]).mv == m;
                assert(playable(moves@, *state, piece).contains(actions@[j].mv));
            }
            assert forall|m: Move| playable(moves@, *state, piece).contains(m) implies moves_of(
                actions@,
            ).contains(m) by {
                let t = choose|t: int| 0 <= t < moves@.len() && #[trigger] moves@[t] == m;
                assert(state.applies(moves@[t], piece));
            }
            assert(moves_of(actions@) =~= playable(moves@, *state, piece));
        }
        actions
    }
}

impl<E: Evaluator> Graph<E> {
    /// Gives a leaf the actions as children and stores the leaf as a parent of
    /// each of their targets.
    #[verifier::rlimit(50)]
    fn attach(&mut self, d: usize, state: &State, at: Index, actions: Vec<Action<E>>)
        requires
            old(self).inv(None),
            d + 1 < old(self).views().len(),
            holds(old(self).views()[d as int].nodes, at),
            old(self).views()[d as int].node(at).children is None,
            !old(self).views()[d as int].node(at).dead,
            old(self).views()[d as int].keys.contains_key(state.key_seq()),
            old(self).views()[d as int].keys[state.key_seq()] == slot_of(at),
            fit_children(old(self).judge(), old(self).views()[d + 1],
                old(self).pieces()[d as int],
                state.key_seq(),
                actions@,
            ),
            spread(actions@, *state, old(self).pieces()[d as int]),
            items_total(old(self).views()[d as int].actions) + actions@.len() <= usize::MAX,
        ensures
            final(self).inv(Some((d as int, at))),
            final(self).same_frame(old(self)),
            final(self).views().len() == old(self).views().len(),
            holds(final(self).views()[d as int].nodes, at),
            final(self).views()[d as int].node(at).children is Some,
            final(self).views()[d as int].children(at) == actions@,
            final(self).views()[d as int].parents == old(self).views()[d as int].parents,
            registered_at(final(self).views()[d as int], final(self).views()[d + 1], at),
            nodes_total(final(self).views()) == nodes_total(old(self).views()),
            keeps(final(self).views(), old(self).views()),
            carries(final(self).views(), old(self).views()),
            forall|e: int|
                0 <= e < old(self).views().len() && e != d && e != d + 1 ==> final(self).views()[e]
                    == old(self).views()[e],
    {
        let ghost start = self.views();
        let ghost items = actions@;
        let ghost fresh = Some((d as int, at));
        let count = self.gens.len();
        assert(self.views().len() == count);
        let nd: usize = d + 1;
        let range = self.gen_add_actions(d, at, actions);
        proof {
            lemma_state_of_key(*state);
            assert(gen_ok(start[d as int], fresh_at(None, d as int)));
            lemma_carries_children(start[d as int], at, range, items);
            lemma_carries_update(start, d as int, self.views()[d as int]);
            lemma_add_children(self.judge(), start, self.pieces(), d as int, at, state.key_seq(), range, items);
            lemma_nodes_upto_update(
                start,
                d as int,
                self.views()[d as int],
                start.len() as int,
            );
            super::storage::lemma_items_upto_same(
                start[d as int].nodes,
                self.views()[d as int].nodes,
                start[d as int].nodes.len() as int,
            );
            assert(self.views()[0].keys == start[0].keys);
        }
        let ghost grown = self.views()[d as int];
        proof {
            assert(grown.node(at).run() == range);
            assert(grown.children(at) =~= items);
        }
        let mut j: usize = 0;
        while j < range.end - range.start
            invariant
                j <= range.end - range.start,
                nd == d + 1,
                nd < self.views().len(),
                self.inv(fresh),
                fresh == Some((d as int, at)),
                self.same_frame(old(self)),
                self.views().len() == start.len(),
                self.views()[d as int] == grown,
                holds(grown.nodes, at),
                grown.node(at).children is Some,
                grown.node(at).run() == range,
                spans(grown.actions, range),
                grown.children(at) == items,
                forall|t: int|
                    0 <= t < items.len() ==> holds(
                        self.views()[d + 1].nodes,
                        (#[trigger] items[t]).node,
                    ),
                forall|t: int|
                    0 <= t < j ==> self.views()[d + 1].parents.contains_key(
                        slot_of((#[trigger] items[t]).node),
                    ) && self.views()[d + 1].parents[slot_of(items[t].node)].contains(slot_of(at)),
                nodes_total(self.views()) == nodes_total(start),
                keeps(self.views(), start),
                carries(self.views(), start),
                forall|e: int|
                    0 <= e < start.len() && e != d && e != d + 1 ==> self.views()[e] == start[e],
            decreases range.end - range.start - j,
        {
            let ghost before = self.views();
            proof {
                lemma_link_facts(self.judge(), before, self.pieces(), fresh, d as int);
                lemma_gen_facts(self.judge(), before, self.pieces(), fresh, d + 1);
            }
            let place = Index { shelf: range.shelf, slot: range.start + j };
            let action = self.gens[d].action(place);
            proof {
                assert(holds(grown.actions, place));
                assert(grown.children(at)[j as int] == grown.action(place));
                assert(holds(before[d + 1].nodes, action.node));
                assert(grown.leads_to(at, slot_of(action.node)));
            }
            self.gen_add_parent(nd, action.node, at);
            proof {
                assert(action == items[j as int]);
                lemma_parent_stored(before[d + 1], action.node, at);
                assert forall|t: int| 0 <= t < j + 1 implies self.views()[d + 1].parents.contains_key(
                    slot_of((#[trigger] items[t]).node),
                ) && self.views()[d + 1].parents[slot_of(items[t].node)].contains(slot_of(at)) by {
                    if t < j {
                        assert(before[d + 1].parents[slot_of(items[t].node)].contains(slot_of(at)));
                    }
                }
                lemma_add_parent(self.judge(), before, self.pieces(), fresh, d + 1, action.node, at);
                lemma_nodes_upto_update(
                    before,
                    d + 1,
                    self.views()[d + 1],
                    before.len() as int,
                );
                lemma_keeps_chain(self.views(), before, start);
                lemma_carries_chain(self.views(), before, start);
            }
            j = j + 1;
        }
    }

    /// True if the generations `after` are the generations `before`, but
    /// perhaps for one generation behind them that holds nothing.
    pub open spec fn nothing_added(after: Seq<GenView<E>>, before: Seq<GenView<E>>) -> bool {
        &&& before.len() <= after.len() <= before.len() + 1
        &&& forall|e: int| 0 <= e < before.len() ==> #[trigger] after[e] == before[e]
        &&& after.len() > before.len() ==> after[before.len() as int].vacant()
    }

    /// True if the generations `after` are the generations `before` with the
    /// node at `at` of generation `d` marked as dead and nothing added, but
    /// perhaps one generation behind them that holds nothing.
    pub open spec fn marked_dead(
        after: Seq<GenView<E>>,
        before: Seq<GenView<E>>,
        d: int,
        at: Index,
    ) -> bool {
        &&& before.len() <= after.len() <= before.len() + 1
        &&& forall|e: int|
            0 <= e < before.len() ==> #[trigger] after[e] == (if e == d {
                before[d].with_dead(at)
            } else {
                before[e]
            })
        &&& after.len() > before.len() ==> after[before.len() as int].vacant()
    }

    /// True if the graph can count the nodes and the actions that an
    /// expansion at depth `d` may add.
    pub open spec fn roomy(&self, d: int) -> bool {
        &&& nodes_total(self.views()) + key_space() + 1 <= usize::MAX
        &&& items_total(self.views()[d].actions) + key_space() + 1 <= usize::MAX
    }

    /// Expands the leaf of a state at depth `d`: gives it one child for each
    /// move that the piece queued at that depth can make.
    ///
    /// Returns true if the leaf has children afterwards. The leaf stays
    /// without children if it is dead, if no piece can spawn in its state, in
    /// which case it is marked as dead, or if the graph cannot count more
    /// nodes or actions.
    #[verifier::rlimit(50)]
    fn expand(&mut self, d: usize, state: &State, at: Index) -> (grown: bool)
        requires
            old(self).inv(None),
            d < old(self).views().len(),
            d < old(self).pieces().len(),
            holds(old(self).views()[d as int].nodes, at),
            old(self).views()[d as int].node(at).children is None,
            old(self).views()[d as int].keys.contains_key(state.key_seq()),
            old(self).views()[d as int].keys[state.key_seq()] == slot_of(at),
        ensures
            final(self).same_frame(old(self)),
            old(self).views().len() <= final(self).views().len() <= old(self).views().len() + 1,
            grown ==> {
                &&& final(self).inv(Some((d as int, at)))
                &&& d + 1 < final(self).views().len()
                &&& holds(final(self).views()[d as int].nodes, at)
                &&& final(self).views()[d as int].node(at).children is Some
                &&& forall|j: int|
                    0 <= j < final(self).views()[d as int].children(at).len() ==> (
                    #[trigger] final(self).views()[d as int].children(at)[j]).visits == 0
                &&& registered_at(final(self).views()[d as int], final(self).views()[d + 1], at)
                &&& final(self).views()[d as int].parents == old(self).views()[d as int].parents
                &&& forall|e: int| 0 <= e < d ==> final(self).views()[e] == old(self).views()[e]
            },
            !grown ==> final(self).inv(None),
            nodes_total(old(self).views()) <= nodes_total(final(self).views()),
            keeps(final(self).views(), old(self).views()),
            carries(final(self).views(), old(self).views()),
            old(self).views()[d as int].node(at).dead ==> !grown && final(self).views() == old(self).views(),
            !old(self).views()[d as int].node(at).dead && spawn_of(
                state.board.blocks(),
                old(self).pieces()[d as int],
            ) is None ==> !grown && final(self).views()[d as int].node(at).dead && final(self).views()[d as int].node(at).children is None
                && nodes_total(final(self).views()) == nodes_total(old(self).views())
                && Self::marked_dead(final(self).views(), old(self).views(), d as int, at),
            !old(self).views()[d as int].node(at).dead && spawn_of(
                state.board.blocks(),
                old(self).pieces()[d as int],
            ) is Some && old(self).roomy(d as int) ==> grown,
            !old(self).views()[d as int].node(at).dead && spawn_of(
                state.board.blocks(),
                old(self).pieces()[d as int],
            ) is Some && !grown ==> nodes_total(final(self).views()) == nodes_total(old(self).views())
                && Self::nothing_added(final(self).views(), old(self).views()),
    {
        let node = self.gens[d].node(at);
        if node.dead {
            proof {
                assert forall|e: int| 0 <= e < self.views().len() implies #[trigger] gen_keeps(
                    self.views()[e],
                    self.views()[e],
                ) by {}
                lemma_carries_prefix(self.views(), self.views());
            }
            return false;
        }
        let count = self.gens.len();
        assert(self.views().len() == count);
        if d + 1 == count {
            self.push_gen();
        }
        proof {
            assert forall|e: int| 0 <= e < old(self).views().len() implies #[trigger] gen_keeps(
                self.views()[e],
                old(self).views()[e],
            ) by {}
            lemma_carries_prefix(self.views(), old(self).views());
        }
        let ghost ready = self.views();
        let piece = self.queue[d];
        let game = state.reconstruct_with_first_piece(piece);
        let moves = match game.legal_moves(true) {
            Ok(moves) => {
                proof {
                    let g = choose|g: MoveGenerator|
                        g.searches(game.board.blocks(), game.queue@[0], game.hold, true)
                            && #[trigger] g.move_seq() == moves@;
                    assert(g.move_seq() == moves@);
                }
                moves
            },
            Err(_) => {
                self.gen_mark_dead(d, at);
                proof {
                    lemma_mark_dead(self.judge(), ready, self.pieces(), d as int, at);
                    lemma_nodes_upto_update(
                        ready,
                        d as int,
                        self.views()[d as int],
                        ready.len() as int,
                    );
                    super::storage::lemma_items_upto_same(
                        ready[d as int].nodes,
                        self.views()[d as int].nodes,
                        ready[d as int].nodes.len() as int,
                    );
                    assert(self.views()[0].keys == ready[0].keys);
                    lemma_keeps_chain(self.views(), ready, old(self).views());
                    lemma_carries_chain(self.views(), ready, old(self).views());
                }
                return false;
            },
        };
        if moves.len() > usize::MAX - self.node_total {
            return false;
        }
        if moves.len() > usize::MAX - self.gens[d].action_count() {
            return false;
        }
        let actions = self.gather(d, state, &moves);
        let ghost gathered = self.views();
        proof {
            lemma_keeps_chain(gathered, ready, old(self).views());
            lemma_carries_chain(gathered, ready, old(self).views());
            assert(gen_keeps(gathered[d as int], ready[d as int]));
        }
        assert(spread(actions@, *state, piece));
        self.attach(d, state, at, actions);
        proof {
            lemma_keeps_chain(self.views(), gathered, old(self).views());
            lemma_carries_chain(self.views(), gathered, old(self).views());
        }
        true
    }
}

impl<E: Evaluator> Graph<E> {
    /// True if the children of the node at `at` at depth `d` are those that
    /// the node had in the graph `before`, each passed once by a search that
    /// found the score of its target behind it, the best first.
    pub open spec fn refreshed_at(&self, before: &Graph<E>, d: int, at: Index) -> bool {
        let next = before.views()[d + 1];
        exists|from: Seq<int>, to: Seq<int>| #[trigger]
            refreshed(before.views()[d].children(at), next, self.views()[d].children(at), from, to)
    }

    /// True if a search has passed, once more at least, the children of every
    /// node that lies on the way back from the node at `at` of generation `d`
    /// in the graph `before`, in the generations from `low` on.
    pub open spec fn passed_back(&self, before: &Graph<E>, d: int, at: Index, low: int) -> bool {
        forall|e: int, p: Index|
            low <= e <= d && #[trigger] way_back(before.views(), d, at, e, p) ==> raised(
                before.views()[e].children(p),
                self.views()[e].children(p),
            )
    }

    /// True if the other graph has the same nodes, keys and parents in every
    /// generation, so that only actions can differ.
    pub open spec fn same_nodes(&self, other: &Graph<E>) -> bool {
        &&& self.views().len() == other.views().len()
        &&& forall|e: int|
            0 <= e < self.views().len() ==> (#[trigger] self.views()[e]).nodes
                == other.views()[e].nodes && self.views()[e].keys == other.views()[e].keys
                && self.views()[e].parents == other.views()[e].parents
    }

    /// Refreshes the children of a node after a search passed them: counts
    /// the visit, sets the score of each child to the score of its target
    /// with its reward added, and puts the children in order, the best first.
    #[verifier::rlimit(50)]
    fn refresh_node(&mut self, d: usize, at: Index, Ghost(fresh): Ghost<Option<(int, Index)>>)
        requires
            old(self).inv(fresh),
            fresh is None || fresh == Some((d as int, at)),
            d + 1 < old(self).views().len(),
            holds(old(self).views()[d as int].nodes, at),
            old(self).views()[d as int].node(at).children is Some,
            fresh is Some ==> registered_at(
                old(self).views()[d as int],
                old(self).views()[d + 1],
                at,
            ),
        ensures
            final(self).inv(None),
            final(self).same_frame(old(self)),
            final(self).same_nodes(old(self)),
            keeps(final(self).views(), old(self).views()),
            carries(final(self).views(), old(self).views()),
            nodes_total(final(self).views()) == nodes_total(old(self).views()),
            final(self).refreshed_at(old(self), d as int, at),
            forall|e: int|
                0 <= e < old(self).views().len() && e != d ==> final(self).views()[e] == old(
                    self,
                ).views()[e],
    {
        let ghost start = self.views();
        let ghost g = start[d as int];
        let ghost next = start[d + 1];
        let ghost before = g.children(at);
        proof {
            lemma_gen_facts(self.judge(), start, self.pieces(), fresh, d as int);
            lemma_gen_facts(self.judge(), start, self.pieces(), fresh, d + 1);
            lemma_link_facts(self.judge(), start, self.pieces(), fresh, d as int);
        }
        let count = self.gens.len();
        assert(self.views().len() == count);
        let nd: usize = d + 1;
        let node = self.gens[d].node(at);
        let range = match node.children {
            Some(c) => c.0,
            None => {
                return ;
            },
        };
        assert(range == g.node(at).run());
        let n = range.end - range.start;
        let mut sorted: Vec<Action<E>> = Vec::new();
        let ghost mut from: Seq<int> = Seq::empty();
        let ghost mut to: Seq<int> = Seq::empty();
        let mut i: usize = 0;
        while i < n
            invariant
                i <= n,
                n == range.end - range.start,
                nd == d + 1,
                nd < self.views().len(),
                self.views() == start,
                g == start[d as int],
                next == start[d + 1],
                before == g.children(at),
                before.len() == n,
                range == g.node(at).run(),
                spans(g.actions, range),
                g.targets_sound(next, self.pieces()[d as int]),
                next.nodes_sound(),
                sorted@.len() == i,
                from.len() == i,
                to.len() == i,
                forall|j: int|
                    0 <= j < i ==> 0 <= #[trigger] from[j] < i && sorted@[j]
                        == before[from[j]].passed(score_behind(next, before[from[j]])),
                forall|x: int| 0 <= x < i ==> 0 <= #[trigger] to[x] < i && from[to[x]] == x,
                best_first(sorted@),
                forall|j: int| 0 <= j < i ==> (#[trigger] sorted@[j]).acc.scorable(),
            decreases n - i,
        {
            let place = Index { shelf: range.shelf, slot: range.start + i };
            let a = self.gens[d].action(place);
            proof {
                assert(holds(g.actions, place));
                assert(before[i as int] == g.action(place));
                assert(holds(next.nodes, a.node));
            }
            let child = self.gens[nd].node(a.node);
            proof {
                child.value.lemma_grounded_takes(a.reward);
            }
            let acc = child.value.accumulate(a.reward);
            let visits = if a.visits < u32::MAX {
                a.visits + 1
            } else {
                a.visits
            };
            let passed = Action {
                node: a.node,
                mv: a.mv,
                current_piece: a.current_piece,
                reward: a.reward,
                acc,
                visits,
            };
            assert(passed == before[i as int].passed(score_behind(next, before[i as int])));
            let score = acc.select_score();
            let mut pos: usize = 0;
            loop
                invariant
                    pos <= sorted@.len(),
                    sorted@.len() == i,
                    forall|j: int| 0 <= j < pos ==> (#[trigger] sorted@[j]).score() >= score,
                    forall|j: int| 0 <= j < i ==> (#[trigger] sorted@[j]).acc.scorable(),
                ensures
                    pos <= sorted@.len(),
                    forall|j: int| 0 <= j < pos ==> (#[trigger] sorted@[j]).score() >= score,
                    pos < sorted@.len() ==> sorted@[pos as int].score() < score,
                decreases sorted@.len() - pos,
            {
                if pos >= sorted.len() {
                    break ;
                }
                let other = sorted[pos].acc.select_score();
                if other < score {
                    break ;
                }
                pos = pos + 1;
            }
            let ghost was = sorted@;
            let ghost was_from = from;
            let ghost was_to = to;
            sorted.insert(pos, passed);
            proof {
                from = was_from.insert(pos as int, i as int);
                to = Seq::new(
                    (i + 1) as nat,
                    |x: int|
                        if x == i {
                            pos as int
                        } else if was_to[x] >= pos {
                            was_to[x] + 1
                        } else {
                            was_to[x]
                        },
                );
                assert(sorted@ == was.insert(pos as int, passed));
                assert forall|j: int| 0 <= j < i + 1 implies 0 <= #[trigger] from[j] < i + 1
                    && sorted@[j] == before[from[j]].passed(
                    score_behind(next, before[from[j]]),
                ) by {
                    if j < pos {
                        assert(from[j] == was_from[j]);
                        assert(sorted@[j] == was[j]);
                    } else if j > pos {
                        assert(from[j] == was_from[j - 1]);
                        assert(sorted@[j] == was[j - 1]);
                    }
                }
                assert forall|x: int| 0 <= x < i + 1 implies 0 <= #[trigger] to[x] < i + 1
                    && from[to[x]] == x by {
                    if x < i {
                        if was_to[x] >= pos {
                            assert(from[was_to[x] + 1] == was_from[was_to[x]]);
                        } else {
                            assert(from[was_to[x]] == was_from[was_to[x]]);
                        }
                    }
                }
                assert forall|p: int, q: int| 0 <= p <= q < sorted@.len() implies (
                #[trigger] sorted@[p]).score() >= (#[trigger] sorted@[q]).score() by {
                    let sp = if p < pos {
                        was[p]
                    } else if p == pos {
                        passed
                    } else {
                        was[p - 1]
                    };
                    let sq = if q < pos {
                        was[q]
                    } else if q == pos {
                        passed
                    } else {
                        was[q - 1]
                    };
                    assert(sorted@[p] == sp && sorted@[q] == sq);
                    if pos < was.len() && q > pos {
                        assert(was[pos as int].score() >= was[q - 1].score());
                    }
                }
                assert forall|j: int| 0 <= j < i + 1 implies (#[trigger] sorted@[j]).acc.scorable() by {
                    if j < pos {
                        assert(sorted@[j] == was[j]);
                    } else if j > pos {
                        assert(sorted@[j] == was[j - 1]);
                    }
                }
            }
            i = i + 1;
        }
        self.gen_put_run(d, range, &sorted);
        proof {
            assert(refreshed(before, next, sorted@, from, to));
            assert(gen_ok(g, fresh_at(fresh, d as int)));
            lemma_carries_run(g, next, fresh_at(fresh, d as int), at, sorted@, from, to);
            lemma_carries_update(start, d as int, self.views()[d as int]);
            lemma_refresh(self.judge(), start, self.pieces(), fresh, d as int, at, sorted@, from, to);
            super::tree::lemma_run_frame(g, range, sorted@);
            lemma_nodes_upto_update(start, d as int, self.views()[d as int], start.len() as int);
            assert(self.views()[0].keys == start[0].keys);
            assert(self.views()[d as int].children(at) == sorted@);
        }
    }
}

impl<E: Evaluator> Graph<E> {
    /// True if each place is that of a node with children at depth `d`.
    pub open spec fn all_expanded(&self, d: int, places: Seq<Slot>) -> bool {
        forall|i: int|
            0 <= i < places.len() ==> holds(self.views()[d].nodes, index_of(#[trigger] places[i]))
                && self.views()[d].node(index_of(places[i])).children is Some
    }

    /// The parents of a node at depth `d`; each is a node with children at
    /// the depth before, unless `d` is the head.
    fn parents_at(&self, d: usize, at: Index) -> (r: Vec<Slot>)
        requires
            self.inv(None),
            d < self.views().len(),
        ensures
            r@ == (if self.views()[d as int].parents.contains_key(slot_of(at)) {
                self.views()[d as int].parents[slot_of(at)]
            } else {
                Seq::empty()
            }),
            d > 0 ==> self.all_expanded(d - 1, r@),
    {
        let r = self.gens[d].parents(at);
        proof {
            if d > 0 {
                lemma_link_facts(self.judge(), self.views(), self.pieces(), None, d - 1);
                let g = self.views()[d - 1];
                let n = self.views()[d as int];
                assert forall|i: int| 0 <= i < r@.len() implies holds(
                    g.nodes,
                    index_of(#[trigger] r@[i]),
                ) && g.node(index_of(r@[i])).children is Some by {
                    assert(g.leads_to(index_of(n.parents[slot_of(at)][i]), slot_of(at)));
                }
            }
        }
        r
    }

    /// Carries the scores back from a node that was just expanded: refreshes
    /// its children, then the children of its parents, and so on up to the
    /// head.
    #[verifier::rlimit(50)]
    fn backprop(&mut self, d: usize, at: Index)
        requires
            old(self).inv(Some((d as int, at))),
            d + 1 < old(self).views().len(),
            holds(old(self).views()[d as int].nodes, at),
            old(self).views()[d as int].node(at).children is Some,
            registered_at(old(self).views()[d as int], old(self).views()[d + 1], at),
        ensures
            final(self).inv(None),
            final(self).same_frame(old(self)),
            final(self).same_nodes(old(self)),
            keeps(final(self).views(), old(self).views()),
            carries(final(self).views(), old(self).views()),
            nodes_total(final(self).views()) == nodes_total(old(self).views()),
            final(self).refreshed_at(old(self), d as int, at),
            final(self).passed_back(old(self), d as int, at, 0),
    {
        self.refresh_node(d, at, Ghost(Some((d as int, at))));
        let ghost first = self.views()[d as int];
        let mut due: Vec<Slot> = self.parents_at(d, at);
        let mut level: usize = d;
        proof {
            let start = old(self).views();
            let (from, to) = choose|from: Seq<int>, to: Seq<int>| #[trigger]
                refreshed(start[d as int].children(at), start[d + 1], first.children(at), from, to);
            lemma_refreshed_raised(start[d as int].children(at), start[d + 1], first.children(at), from, to);
            assert forall|e: int, p: Index|
                d <= e <= d && #[trigger] way_back(start, d as int, at, e, p) implies raised(
                start[e].children(p),
                self.views()[e].children(p),
            ) by {
                lemma_way_back_start(start, d as int, at, p);
            }
            if d > 0 {
                assert forall|p: Index| #[trigger] way_back(start, d as int, at, d - 1, p) implies due@.contains(
                    slot_of(p),
                ) by {
                    let c = lemma_way_back_step(start, d as int, at, d - 1, p);
                    lemma_way_back_start(start, d as int, at, c);
                }
            }
        }
        while level > 0
            invariant
                level <= d,
                d + 1 < self.views().len(),
                self.views()[d as int] == first,
                self.passed_back(old(self), d as int, at, level as int),
                level > 0 ==> forall|p: Index| #[trigger]
                    way_back(old(self).views(), d as int, at, level - 1, p) ==> due@.contains(slot_of(p)),
                self.inv(None),
                self.same_frame(old(self)),
                self.same_nodes(old(self)),
                keeps(self.views(), old(self).views()),
                carries(self.views(), old(self).views()),
                nodes_total(self.views()) == nodes_total(old(self).views()),
                level > 0 ==> self.all_expanded(level - 1, due@),
            decreases level,
        {
            level = level - 1;
            let mut further: Vec<Slot> = Vec::new();
            let mut i: usize = 0;
            while i < due.len()
                invariant
                    i <= due@.len(),
                    level < d,
                    d + 1 < self.views().len(),
                    self.views()[d as int] == first,
                    self.passed_back(old(self), d as int, at, level + 1),
                    forall|p: Index| #[trigger]
                        way_back(old(self).views(), d as int, at, level as int, p) ==> due@.contains(
                            slot_of(p),
                        ),
                    forall|k: int|
                        0 <= k < i ==> raised(
                            old(self).views()[level as int].children(index_of(#[trigger] due@[k])),
                            self.views()[level as int].children(index_of(due@[k])),
                        ),
                    level > 0 ==> forall|k: int, q: Slot|
                        0 <= k < i && old(self).views()[level as int].parents.contains_key(due@[k])
                            && #[trigger] old(self).views()[level as int].parents[due@[k]].contains(q)
                            ==> further@.contains(q),
                    self.inv(None),
                    self.same_frame(old(self)),
                    self.same_nodes(old(self)),
                    keeps(self.views(), old(self).views()),
                    carries(self.views(), old(self).views()),
                    nodes_total(self.views()) == nodes_total(old(self).views()),
                    self.all_expanded(level as int, due@),
                    level > 0 ==> self.all_expanded(level - 1, further@),
                decreases due@.len() - i,
            {
                let place = Index { shelf: due[i].0, slot: due[i].1 };
                assert(place == index_of(due@[i as int]));
                let ghost before = *self;
                self.refresh_node(level, place, Ghost(None));
                proof {
                    let start = old(self).views();
                    assert(gen_carries(self.views()[level as int], before.views()[level as int]));
                    assert(gen_carries(before.views()[level as int], start[level as int]));
                    assert(start[level as int].nodes == before.views()[level as int].nodes);
                    assert forall|e: int, p: Index|
                        level + 1 <= e <= d && #[trigger] way_back(start, d as int, at, e, p) implies raised(
                        start[e].children(p),
                        self.views()[e].children(p),
                    ) by {
                        assert(self.views()[e] == before.views()[e]);
                    }
                    assert forall|k: int| 0 <= k < i + 1 implies raised(
                        start[level as int].children(index_of(#[trigger] due@[k])),
                        self.views()[level as int].children(index_of(due@[k])),
                    ) by {
                        let q = index_of(due@[k]);
                        assert(holds(before.views()[level as int].nodes, q));
                        assert(before.views()[level as int].node(q).children is Some);
                        if k < i {
                            lemma_raised_then_same(
                                start[level as int].children(q),
                                before.views()[level as int].children(q),
                                self.views()[level as int].children(q),
                            );
                        } else {
                            let (from, to) = choose|from: Seq<int>, to: Seq<int>| #[trigger]
                                refreshed(
                                    before.views()[level as int].children(place),
                                    before.views()[level + 1],
                                    self.views()[level as int].children(place),
                                    from,
                                    to,
                                );
                            lemma_refreshed_raised(
                                before.views()[level as int].children(place),
                                before.views()[level + 1],
                                self.views()[level as int].children(place),
                                from,
                                to,
                            );
                            lemma_same_then_raised(
                                start[level as int].children(q),
                                before.views()[level as int].children(q),
                                self.views()[level as int].children(q),
                            );
                        }
                    }
                    lemma_keeps_chain(self.views(), before.views(), old(self).views());
                    lemma_carries_chain(self.views(), before.views(), old(self).views());
                    assert forall|e: int| 0 <= e < self.views().len() implies (
                    #[trigger] self.views()[e]).nodes == old(self).views()[e].nodes
                        && self.views()[e].keys == old(self).views()[e].keys
                        && self.views()[e].parents == old(self).views()[e].parents by {
                        assert(before.views()[e].nodes == old(self).views()[e].nodes);
                    }
                    assert(self.all_expanded(level as int, due@)) by {
                        assert forall|k: int| 0 <= k < due@.len() implies holds(
                            self.views()[level as int].nodes,
                            index_of(#[trigger] due@[k]),
                        ) && self.views()[level as int].node(index_of(due@[k])).children is Some by {
                            assert(self.views()[level as int].nodes
                                == before.views()[level as int].nodes);
                        }
                    }
                    if level > 0 {
                        assert forall|k: int| 0 <= k < further@.len() implies holds(
                            self.views()[level - 1].nodes,
                            index_of(#[trigger] further@[k]),
                        ) && self.views()[level - 1].node(index_of(further@[k])).children is Some by {
                            assert(self.views()[level - 1].nodes == before.views()[level - 1].nodes);
                        }
                    }
                }
                if level > 0 {
                    let mut found = self.parents_at(level, place);
                    let ghost head = further@;
                    let ghost tail = found@;
                    further.append(&mut found);
                    proof {
                        let start = old(self).views();
                        assert(self.views()[level as int].parents == start[level as int].parents);
                        assert(slot_of(place) == due@[i as int]);
                        assert forall|k: int, q: Slot|
                            0 <= k < i + 1 && start[level as int].parents.contains_key(due@[k])
                                && #[trigger] start[level as int].parents[due@[k]].contains(
                                q,
                            ) implies further@.contains(q) by {
                            if k < i {
                                assert(head.contains(q));
                                let t = choose|t: int| 0 <= t < head.len() && head[t] == q;
                                assert(further@[t] == q);
                            } else {
                                assert(tail.contains(q));
                                let t = choose|t: int| 0 <= t < tail.len() && tail[t] == q;
                                assert(further@[head.len() + t] == q);
                            }
                        }
                        assert forall|k: int| 0 <= k < further@.len() implies holds(
                            self.views()[level - 1].nodes,
                            index_of(#[trigger] further@[k]),
                        ) && self.views()[level - 1].node(index_of(further@[k])).children is Some by {
                            if k < head.len() {
                                assert(further@[k] == head[k]);
                            } else {
                                assert(further@[k] == tail[k - head.len()]);
                            }
                        }
                    }
                }
                i = i + 1;
            }
            proof {
                let start = old(self).views();
                assert forall|e: int, p: Index|
                    level <= e <= d && #[trigger] way_back(start, d as int, at, e, p) implies raised(
                    start[e].children(p),
                    self.views()[e].children(p),
                ) by {
                    if e == level {
                        assert(due@.contains(slot_of(p)));
                        let k = choose|k: int| 0 <= k < due@.len() && due@[k] == slot_of(p);
                        assert(index_of(due@[k]) == p);
                    }
                }
                if level > 0 {
                    assert forall|p: Index| #[trigger] way_back(start, d as int, at, level - 1, p) implies further@.contains(
                        slot_of(p),
                    ) by {
                        let c = lemma_way_back_step(start, d as int, at, level - 1, p);
                        assert(due@.contains(slot_of(c)));
                        let k = choose|k: int| 0 <= k < due@.len() && due@[k] == slot_of(c);
                        assert(start[level as int].parents[due@[k]].contains(slot_of(p)));
                    }
                }
            }
            due = further;
        }
    }
}

impl<E: Evaluator> Graph<E> {
    /// True if the state has a node at depth `d`, and the node is a leaf.
    pub open spec fn leaf_at(&self, d: int, state: State) -> bool {
        &&& 0 <= d < self.views().len()
        &&& self.views()[d].keys.contains_key(state.key_seq())
        &&& self.views()[d].node(index_of(self.views()[d].keys[state.key_seq()])).children is None
    }

    /// True if some node has an empty run of children, or more children than
    /// a choice is made among, so that no choice can be made at it.
    pub open spec fn stuck(&self) -> bool {
        exists|d: int, at: Index|
            0 <= d < self.views().len() && #[trigger] holds(self.views()[d].nodes, at)
                && self.views()[d].node(at).children is Some && (self.views()[d].node(at).run().end
                - self.views()[d].node(at).run().start == 0 || self.views()[d].node(at).run().end
                - self.views()[d].node(at).run().start > super::generation::MAX_CHILDREN)
    }

    /// True if a line of play through the graph leads from the root to the
    /// state in `d` moves.
    pub open spec fn on_line(&self, d: int, state: State) -> bool {
        exists|moves: Seq<Move>|
            moves.len() == d && #[trigger] self.model().walks(moves) && self.model().state_after(
                moves,
            ) == state
    }

    /// Walks down from the root, choosing a child at each node, until it
    /// stands on a leaf, and returns the depth and the state of the leaf: the
    /// root if it is a leaf, and else a leaf at the end of a line of play.
    /// Returns nothing if a choice fails on the way, which happens only at
    /// a node that is stuck.
    #[verifier::rlimit(50)]
    pub fn descend(&self) -> (r: Option<(usize, State)>)
        requires
            self.well_formed(),
        ensures
            r matches Some((d, state)) ==> self.leaf_at(d as int, state) && self.on_line(
                d as int,
                state,
            ),
            r is None ==> self.stuck(),
            self.leaf_at(0, self.root()) ==> r == Some((0usize, self.root())),
    {
        let mut d: usize = 0;
        let mut state = self.root_state;
        let count = self.gens.len();
        assert(self.views().len() == count);
        let ghost mut path: Seq<Move> = Seq::empty();
        loop
            invariant
                self.well_formed(),
                count == self.views().len(),
                d < count,
                self.views()[d as int].keys.contains_key(state.key_seq()),
                path.len() == d,
                self.model().walks(path),
                self.model().state_after(path) == state,
                d > 0 ==> !self.leaf_at(0, self.root()),
            decreases count - d,
        {
            proof {
                lemma_gen_facts(self.judge(), self.views(), self.pieces(), None, d as int);
            }
            match self.gens[d].select(&state) {
                SelectResult::Chosen(action) => {
                    proof {
                        let g = self.views()[d as int];
                        let at = index_of(g.keys[state.key_seq()]);
                        let j = choose|j: int|
                            0 <= j < g.children(at).len() && (#[trigger] g.children(at)[j])
                                == action;
                        lemma_child_leads(self.judge(), self.views(), self.pieces(), d as int, state, j);
                    }
                    let ghost above = state;
                    match state.advance(action.mv, action.current_piece) {
                        Ok(_) => {},
                        Err(_) => {
                            return None;
                        },
                    }
                    proof {
                        let longer = path.push(action.mv);
                        assert(longer.drop_last() =~= path);
                        assert(self.model().state_after(longer) == state);
                        assert(self.model().walks(longer));
                        path = longer;
                    }
                    d = d + 1;
                },
                SelectResult::Expand => {
                    return Some((d, state));
                },
                SelectResult::Failed => {
                    proof {
                        let at = index_of(self.views()[d as int].keys[state.key_seq()]);
                        assert(holds(self.views()[d as int].nodes, at));
                    }
                    return None;
                },
            }
        }
    }

    /// True if this graph is what the graph `before` becomes when the leaf of
    /// `state` at depth `d` is expanded and the scores are carried back: the
    /// graph as it was if the queue has no piece for that depth or the leaf
    /// is dead; the leaf marked as dead, and nothing added, if no piece can
    /// spawn in its state;
    /// and else the leaf with the moves of its state as children, each passed
    /// once, and the children of every node on the way back from the leaf
    /// passed once more, which is owed if the graph can count what is added,
    /// or the graph with nothing added. What the
    /// graph held is kept, with the actions of a node perhaps in another
    /// order and new parents behind the old, and at most one generation is
    /// added.
    pub open spec fn grown_from(&self, before: &Graph<E>, d: int, state: State) -> bool {
        &&& self.same_frame(before)
        &&& d >= before.pieces().len() ==> self.views() == before.views()
        &&& before.views().len() <= self.views().len() <= before.views().len() + 1
        &&& nodes_total(before.views()) <= nodes_total(self.views())
        &&& keeps(self.views(), before.views())
        &&& carries(self.views(), before.views())
        &&& d < before.pieces().len() ==> ({
            let at = index_of(before.views()[d].keys[state.key_seq()]);
            let leaf = before.views()[d].node(at);
            let after = self.views()[d].node(at);
            let spawn = spawn_of(state.board.blocks(), before.pieces()[d]);
            &&& leaf.dead ==> self.views() == before.views()
            &&& !leaf.dead && spawn is None ==> after.dead && after.children is None
                && nodes_total(self.views()) == nodes_total(before.views()) && Self::marked_dead(
                self.views(),
                before.views(),
                d,
                at,
            )
            &&& !leaf.dead && spawn is Some && before.roomy(d) ==> after.children is Some
            &&& !leaf.dead && spawn is Some && after.children is Some ==> {
                &&& spread(self.views()[d].children(at), state, before.pieces()[d])
                &&& forall|j: int|
                    0 <= j < self.views()[d].children(at).len() ==> (#[trigger] self.views()[d].children(
                        at,
                    )[j]).visits == 1
                &&& forall|e: int, p: Index|
                    0 <= e < d && #[trigger] way_back(before.views(), d, at, e, p) ==> raised(
                        before.views()[e].children(p),
                        self.views()[e].children(p),
                    )
            }
            &&& !leaf.dead && spawn is Some && after.children is None ==> nodes_total(self.views())
                == nodes_total(before.views()) && Self::nothing_added(self.views(), before.views())
        })
    }

    /// Expands the leaf of a state at depth `d` and carries the scores back
    /// to the head. If the queue has no piece for that depth, the graph stays
    /// as it is.
    pub fn grow(&mut self, d: usize, state: &State)
        requires
            old(self).well_formed(),
            old(self).leaf_at(d as int, *state),
        ensures
            final(self).well_formed(),
            final(self).grown_from(old(self), d as int, *state),
    {
        proof {
            assert forall|e: int| 0 <= e < self.views().len() implies #[trigger] gen_keeps(
                self.views()[e],
                self.views()[e],
            ) by {}
            lemma_carries_prefix(self.views(), self.views());
        }
        if d >= self.queue.len() {
            return ;
        }
        proof {
            lemma_gen_facts(self.judge(), self.views(), self.pieces(), None, d as int);
        }
        let at = match self.gens[d].find_node_index(state) {
            Some(at) => at,
            None => {
                return ;
            },
        };
        if self.expand(d, state, at) {
            let ghost grown = self.views();
            let ghost mid = *self;
            self.backprop(d, at);
            proof {
                assert(self.refreshed_at(&mid, d as int, at));
                assert forall|e: int, p: Index|
                    0 <= e < d && #[trigger] way_back(old(self).views(), d as int, at, e, p) implies raised(
                    old(self).views()[e].children(p),
                    self.views()[e].children(p),
                ) by {
                    lemma_way_back_same(old(self).views(), grown, d as int, at, e, p);
                    assert(grown[e] == old(self).views()[e]);
                }
                let fed = grown[d as int].children(at);
                let items = self.views()[d as int].children(at);
                let (from, to) = choose|from: Seq<int>, to: Seq<int>| #[trigger]
                    refreshed(fed, grown[d + 1], items, from, to);
                assert forall|j: int| 0 <= j < items.len() implies (#[trigger] items[j]).visits
                    == 1 by {
                    assert(fed[from[j]].visits == 0);
                }
                lemma_keeps_chain(self.views(), grown, old(self).views());
                lemma_carries_chain(self.views(), grown, old(self).views());
                assert(self.views()[d as int].nodes == grown[d as int].nodes);
                assert(gen_keeps(self.views()[d as int], old(self).views()[d as int]));
                assert(self.views()[d as int].keys.contains_key(state.key_seq()));
                self.lemma_children_are_the_moves(d as int, *state);
            }
        }
    }

    /// True if this graph is what the graph `before` becomes in one
    /// iteration of the search: the graph as it was if the queue is empty, or
    /// if a choice failed at a node that is stuck; and else the graph grown
    /// at a leaf, which is the root as long as the root is one, and else a
    /// leaf at the end of a line of play.
    pub open spec fn worked_from(&self, before: &Graph<E>) -> bool {
        &&& self.same_frame(before)
        &&& before.pieces().len() == 0 ==> self.views() == before.views()
        &&& before.views().len() <= self.views().len() <= before.views().len() + 1
        &&& nodes_total(before.views()) <= nodes_total(self.views())
        &&& keeps(self.views(), before.views())
        &&& carries(self.views(), before.views())
        &&& before.stuck() && self.views() == before.views() || exists|d: int, state: State|
            before.leaf_at(d, state) && before.on_line(d, state) && #[trigger] self.grown_from(
                before,
                d,
                state,
            )
        &&& before.leaf_at(0, before.root()) ==> self.grown_from(before, 0, before.root())
    }

    /// One iteration of the search: walks down from the root to a leaf,
    /// expands it with the piece queued at its depth, and carries the scores
    /// back. The leaf is the root as long as the root is one, and else a leaf
    /// at the end of a line of play. With an empty queue nothing changes, nor
    /// if a choice fails on the way down, at a node that is stuck.
    pub fn work(&mut self)
        requires
            old(self).well_formed(),
        ensures
            final(self).well_formed(),
            final(self).worked_from(old(self)),
    {
        proof {
            assert forall|e: int| 0 <= e < self.views().len() implies #[trigger] gen_keeps(
                self.views()[e],
                self.views()[e],
            ) by {}
            lemma_carries_prefix(self.views(), self.views());
        }
        match self.descend() {
            Some((d, state)) => {
                self.grow(d, &state);
                assert(self.grown_from(old(self), d as int, state));
            },
            None => {},
        }
    }

    /// True if the root has children, the queue holds a piece, and the combo
    /// counter of the root can still grow or its hold slot is empty, so that
    /// there is a move to plan with.
    pub open spec fn can_plan(&self) -> bool {
        &&& self.pieces().len() > 0
        &&& self.views()[0].node(index_of(self.views()[0].keys[self.root().key_seq()])).children is Some
        &&& self.root().ren < i32::MAX || self.root().hold is None
    }

    /// The line of play that follows the best child of each node from the
    /// root on, as far as the nodes have children and the queue has pieces.
    /// It is not empty once the root has children and the queue a piece.
    #[verifier::rlimit(50)]
    pub fn best_plan(&self) -> (plan: Plan)
        requires
            self.well_formed(),
        ensures
            plan.moves@ == greedy(self.views(), self.pieces(), 0, self.root()),
            plan.score == 0,
            self.can_plan() ==> plan.moves@.len() > 0,
    {
        proof {
            if self.can_plan() {
                self.lemma_plan_not_empty();
            }
        }
        let mut moves: Vec<Move> = Vec::new();
        let mut d: usize = 0;
        let mut state = self.root_state;
        let count = self.gens.len();
        assert(self.views().len() == count);
        loop
            invariant
                self.well_formed(),
                count == self.views().len(),
                d < count,
                self.views()[d as int].keys.contains_key(state.key_seq()),
                greedy(self.views(), self.pieces(), 0, self.root()) == moves@ + greedy(
                    self.views(),
                    self.pieces(),
                    d as int,
                    state,
                ),
            ensures
                greedy(self.views(), self.pieces(), 0, self.root()) == moves@,
            decreases count - d,
        {
            proof {
                lemma_gen_facts(self.judge(), self.views(), self.pieces(), None, d as int);
            }
            if d >= self.queue.len() {
                assert(moves@ + Seq::<Move>::empty() =~= moves@);
                break ;
            }
            let at = match self.gens[d].find_node_index(&state) {
                Some(at) => at,
                None => {
                    assert(moves@ + Seq::<Move>::empty() =~= moves@);
                    break ;
                },
            };
            let node = self.gens[d].node(at);
            let range = match node.children {
                Some(c) => c.0,
                None => {
                    assert(moves@ + Seq::<Move>::empty() =~= moves@);
                    break ;
                },
            };
            if range.start >= range.end {
                assert(self.views()[d as int].children(at).len() == 0);
                assert(moves@ + Seq::<Move>::empty() =~= moves@);
                break ;
            }
            let best = self.gens[d].action(Index { shelf: range.shelf, slot: range.start });
            proof {
                assert(self.views()[d as int].children(at)[0] == best);
                lemma_child_leads(self.judge(), self.views(), self.pieces(), d as int, state, 0);
                let rest = greedy(
                    self.views(),
                    self.pieces(),
                    d + 1,
                    state.moved(best.mv, self.pieces()[d as int]),
                );
                assert(moves@ + (seq![best.mv] + rest) =~= moves@.push(best.mv) + rest);
            }
            moves.push(best.mv);
            match state.advance(best.mv, best.current_piece) {
                Ok(_) => {},
                Err(_) => {},
            }
            d = d + 1;
        }
        Plan { moves, score: 0 }
    }

    /// True if the root has a child with the given move.
    pub open spec fn offers(&self, mv: Move) -> bool {
        self.model().offers(mv)
    }

    /// Commits a move: the root becomes the state that the move leads to,
    /// the head of the queue is consumed, and the generation after the head
    /// becomes the head. Fails, and changes nothing, if the root has no
    /// child with the move.
    #[verifier::rlimit(50)]
    pub fn advance(&mut self, mv: Move) -> (r: Result<(), ()>)
        requires
            old(self).well_formed(),
        ensures
            final(self).well_formed(),
            final(self).judge() == old(self).judge(),
            r is Ok <==> old(self).offers(mv),
            final(self).model() == old(self).model().committed(mv),
            r is Ok ==> {
                &&& final(self).root() == old(self).root().moved(mv, old(self).pieces()[0])
                &&& final(self).pieces() == old(self).pieces().skip(1)
                &&& final(self).views() == old(self).views().skip(1)
                &&& nodes_total(final(self).views()) == nodes_total(old(self).views())
                    - items_total(old(self).views()[0].nodes)
            },
            r is Err ==> final(self).same_frame(old(self)) && final(self).views() == old(self).views(),
    {
        let ghost start = self.views();
        proof {
            lemma_gen_facts(self.judge(), start, self.pieces(), None, 0);
        }
        let count = self.gens.len();
        assert(self.views().len() == count);
        let at = match self.gens[0].find_node_index(&self.root_state) {
            Some(at) => at,
            None => {
                return Err(());
            },
        };
        let node = self.gens[0].node(at);
        let range = match node.children {
            Some(c) => c.0,
            None => {
                return Err(());
            },
        };
        let mut found = false;
        let mut j: usize = range.start;
        while j < range.end
            invariant_except_break
                !found,
                forall|i: int| 0 <= i < j - range.start ==> (#[trigger] start[0].children(at)[i]).mv != mv,
            invariant
                range.start <= j <= range.end,
                self.views() == start,
                count == start.len(),
                count >= 1,
                spans(start[0].actions, range),
                range == start[0].node(at).run(),
            ensures
                found ==> range.start <= j < range.end && start[0].children(at)[j - range.start].mv
                    == mv,
                !found ==> forall|i: int|
                    0 <= i < start[0].children(at).len() ==> (#[trigger] start[0].children(at)[i]).mv
                        != mv,
            decreases range.end - j,
        {
            let action = self.gens[0].action(Index { shelf: range.shelf, slot: j });
            assert(start[0].children(at)[j - range.start] == action);
            if action.mv == mv {
                found = true;
                break ;
            }
            j = j + 1;
        }
        if !found {
            return Err(());
        }
        proof {
            lemma_child_leads(self.judge(), start, self.pieces(), 0, self.root(), j - range.start);
            lemma_drop_head(self.judge(), start, self.pieces());
            lemma_nodes_upto_skip(start, start.len() - 1);
            lemma_nodes_upto_grows(start, 0, start.len() as int);
        }
        let piece = self.queue[0];
        match self.root_state.advance(mv, piece) {
            Ok(_) => {},
            Err(_) => {},
        }
        self.queue.pop_front();
        let head_count = self.gens[0].node_count();
        let dropped = self.gens.remove(0);
        self.node_total = self.node_total - head_count;
        proof {
            assert(self.views() =~= start.skip(1));
        }
        Ok(())
    }
}

impl<E: Evaluator> Graph<E> {
    /// Every node of a sound graph is the node of exactly one state key of its
    /// generation.
    pub proof fn lemma_node_has_one_key(&self, d: int, at: Index)
        requires
            self.well_formed(),
            0 <= d < self.views().len(),
            holds(self.views()[d].nodes, at),
        ensures
            exists|k: Seq<u64>|
                self.views()[d].keys.contains_key(k) && #[trigger] self.views()[d].keys[k]
                    == slot_of(at),
            forall|k1: Seq<u64>, k2: Seq<u64>|
                #![trigger self.views()[d].keys[k1], self.views()[d].keys[k2]]
                self.views()[d].keys.contains_key(k1) && self.views()[d].keys.contains_key(k2)
                    && self.views()[d].keys[k1] == slot_of(at) && self.views()[d].keys[k2]
                    == slot_of(at) ==> k1 == k2,
    {
        lemma_gen_facts(self.judge(), self.views(), self.pieces(), None, d);
    }

    /// In a sound graph, the score of every action is the score of its target
    /// with the reward of the action added.
    pub proof fn lemma_score_is_current(&self, d: int, a: Index)
        requires
            self.well_formed(),
            0 <= d < self.views().len(),
            holds(self.views()[d].actions, a),
        ensures
            d + 1 < self.views().len(),
            holds(self.views()[d + 1].nodes, self.views()[d].action(a).node),
            self.views()[d].action(a).acc == self.views()[d + 1].node(
                self.views()[d].action(a).node,
            ).value.accumulated(self.views()[d].action(a).reward),
    {
        lemma_gen_facts(self.judge(), self.views(), self.pieces(), None, d);
        if d < self.views().len() - 1 {
            lemma_link_facts(self.judge(), self.views(), self.pieces(), None, d);
            assert(!self.views()[d].in_run_of(None, a));
        }
    }

    /// In a sound graph, the children of every node stand best first: their
    /// scores do not rise.
    pub proof fn lemma_children_best_first(&self, d: int, at: Index)
        requires
            self.well_formed(),
            0 <= d < self.views().len(),
            holds(self.views()[d].nodes, at),
            self.views()[d].node(at).children is Some,
        ensures
            best_first(self.views()[d].children(at)),
    {
        lemma_gen_facts(self.judge(), self.views(), self.pieces(), None, d);
    }

    /// In a sound graph, every parent stored for a node of a generation after
    /// the head is a node of the generation before with a child that leads
    /// to that node.
    pub proof fn lemma_parent_has_child(&self, d: int, child: Slot, i: int)
        requires
            self.well_formed(),
            0 <= d < self.views().len() - 1,
            self.views()[d + 1].parents.contains_key(child),
            0 <= i < self.views()[d + 1].parents[child].len(),
        ensures
            self.views()[d].leads_to(index_of(self.views()[d + 1].parents[child][i]), child),
    {
        lemma_link_facts(self.judge(), self.views(), self.pieces(), None, d);
    }

    /// In a sound graph, every node behind the head generation holds the
    /// score that the evaluator gives its state with nothing queued.
    pub proof fn lemma_node_is_valued(&self, d: int, state: State)
        requires
            self.well_formed(),
            1 <= d < self.views().len(),
            self.views()[d].keys.contains_key(state.key_seq()),
        ensures
            self.views()[d].node(index_of(self.views()[d].keys[state.key_seq()])).value
                == self.judge().state_value(state.situation(Seq::empty())),
    {
        lemma_gen_facts(self.judge(), self.views(), self.pieces(), None, d);
        lemma_state_of_key(state);
    }

    /// In a sound graph, every child of the node of a state holds a move
    /// that can be played there with the piece queued at that depth, leads
    /// to the node of the state that the move brings about, and carries the
    /// reward that the evaluator gives the move.
    pub proof fn lemma_child_is_rewarded(&self, d: int, state: State, j: int)
        requires
            self.well_formed(),
            0 <= d < self.views().len(),
            self.views()[d].keys.contains_key(state.key_seq()),
            self.views()[d].node(
                index_of(self.views()[d].keys[state.key_seq()]),
            ).children is Some,
            0 <= j < self.views()[d].children(
                index_of(self.views()[d].keys[state.key_seq()]),
            ).len(),
        ensures
            d + 1 < self.views().len(),
            d < self.pieces().len(),
            ({
                let a = self.views()[d].children(
                    index_of(self.views()[d].keys[state.key_seq()]),
                )[j];
                let next = state.moved(a.mv, self.pieces()[d]);
                &&& state.applies(a.mv, self.pieces()[d])
                &&& self.views()[d + 1].keys.contains_key(next.key_seq())
                &&& self.views()[d + 1].keys[next.key_seq()] == slot_of(a.node)
                &&& a.reward == self.judge().move_reward(
                    a.mv,
                    state.outcome(a.mv, self.pieces()[d]),
                    next.situation(Seq::empty()),
                )
            }),
    {
        lemma_child_leads(self.judge(), self.views(), self.pieces(), d, state, j);
    }

    /// In a sound graph, every node with children is stored as a parent of
    /// the target of each of its children, so that the way back from a node
    /// leads to every node that has a child for it.
    pub proof fn lemma_child_knows_parent(&self, d: int, at: Index, j: int)
        requires
            self.well_formed(),
            0 <= d < self.views().len(),
            holds(self.views()[d].nodes, at),
            self.views()[d].node(at).children is Some,
            0 <= j < self.views()[d].children(at).len(),
        ensures
            d + 1 < self.views().len(),
            holds(self.views()[d + 1].nodes, self.views()[d].children(at)[j].node),
            self.views()[d + 1].parents.contains_key(slot_of(self.views()[d].children(at)[j].node)),
            self.views()[d + 1].parents[slot_of(self.views()[d].children(at)[j].node)].contains(
                slot_of(at),
            ),
    {
        lemma_gen_facts(self.judge(), self.views(), self.pieces(), None, d);
        lemma_link_facts(self.judge(), self.views(), self.pieces(), None, d);
        reveal(registered);
        assert(registered_at(self.views()[d], self.views()[d + 1], at));
    }

    /// In a sound graph, the children of the node of a state hold the moves
    /// that a complete search finds there for the piece queued at that depth,
    /// with the hold in use, as far as they can be played: each of these
    /// moves, and no other.
    pub proof fn lemma_children_are_the_moves(&self, d: int, state: State)
        requires
            self.well_formed(),
            0 <= d < self.views().len(),
            self.views()[d].keys.contains_key(state.key_seq()),
            self.views()[d].node(
                index_of(self.views()[d].keys[state.key_seq()]),
            ).children is Some,
        ensures
            d + 1 < self.views().len(),
            d < self.pieces().len(),
            spread(
                self.views()[d].children(index_of(self.views()[d].keys[state.key_seq()])),
                state,
                self.pieces()[d],
            ),
    {
        lemma_gen_facts(self.judge(), self.views(), self.pieces(), None, d);
        lemma_state_of_key(state);
        let at = index_of(self.views()[d].keys[state.key_seq()]);
        assert(holds(self.views()[d].nodes, at));
        lemma_link_facts(self.judge(), self.views(), self.pieces(), None, d);
        reveal(unfolded);
    }

    /// In a sound graph, a node with children has at least one, if the combo
    /// counter of its state can still grow or its hold slot is empty: the
    /// search finds a placement wherever the piece can spawn, and offers the
    /// hold for an empty slot.
    pub proof fn lemma_expanded_has_children(&self, d: int, state: State)
        requires
            self.well_formed(),
            0 <= d < self.views().len(),
            self.views()[d].keys.contains_key(state.key_seq()),
            self.views()[d].node(
                index_of(self.views()[d].keys[state.key_seq()]),
            ).children is Some,
            state.ren < i32::MAX || state.hold is None,
        ensures
            self.views()[d].children(index_of(self.views()[d].keys[state.key_seq()])).len() > 0,
    {
        self.lemma_children_are_the_moves(d, state);
        let piece = self.pieces()[d];
        let items = self.views()[d].children(index_of(self.views()[d].keys[state.key_seq()]));
        let g = choose|g: MoveGenerator|
            g.searches(state.board.blocks(), piece, state.hold, true) && moves_of(items) == playable(
                #[trigger] g.move_seq(),
                state,
                piece,
            );
        if state.hold is None {
            g.lemma_hold_listed();
            let last = g.move_seq().len() - 1;
            assert(g.move_seq()[last] == Move::Hold);
            assert(playable(g.move_seq(), state, piece).contains(Move::Hold));
            assert(moves_of(items).contains(Move::Hold));
        } else {
            let j = lemma_a_placement_is_found(g, state.board.blocks(), piece, state.hold, true);
            let mv = g.move_seq()[j];
            assert(state.applies(mv, piece));
            assert(playable(g.move_seq(), state, piece).contains(mv));
            assert(moves_of(items).contains(mv));
        }
    }

    /// In a sound graph whose root has children and whose queue holds a
    /// piece, the best line of play is not empty, if the combo counter of the
    /// root can still grow or its hold slot is empty.
    pub proof fn lemma_plan_not_empty(&self)
        requires
            self.well_formed(),
            self.pieces().len() > 0,
            self.views()[0].node(
                index_of(self.views()[0].keys[self.root().key_seq()]),
            ).children is Some,
            self.root().ren < i32::MAX || self.root().hold is None,
        ensures
            greedy(self.views(), self.pieces(), 0, self.root()).len() > 0,
    {
        self.lemma_expanded_has_children(0, self.root());
    }

    /// In a sound graph, the first move of the best line of play is a move
    /// that the root offers, so that it can be committed; committing it makes
    /// the root the state that the move leads to.
    pub proof fn lemma_plan_head_offered(&self)
        requires
            self.well_formed(),
            greedy(self.views(), self.pieces(), 0, self.root()).len() > 0,
        ensures
            self.offers(greedy(self.views(), self.pieces(), 0, self.root())[0]),
            self.root().applies(
                greedy(self.views(), self.pieces(), 0, self.root())[0],
                self.pieces()[0],
            ),
    {
        let head = self.views()[0];
        let at = index_of(head.keys[self.root().key_seq()]);
        let first = head.children(at)[0];
        assert(greedy(self.views(), self.pieces(), 0, self.root())[0] == first.mv);
        lemma_child_leads(self.judge(), self.views(), self.pieces(), 0, self.root(), 0);
    }
}

impl<E: Evaluator> Graph<E> {
    /// The state of the root.
    pub fn root_state(&self) -> (r: State)
        ensures
            r == self.root(),
    {
        self.root_state
    }

    /// The number of pieces queued.
    pub fn queue_len(&self) -> (n: usize)
        ensures
            n == self.pieces().len(),
    {
        self.queue.len()
    }

    /// The number of nodes of each generation, the head first.
    pub fn generation_sizes(&self) -> (r: Vec<usize>)
        requires
            self.well_formed(),
        ensures
            r@.len() == self.views().len(),
            forall|d: int|
                0 <= d < r@.len() ==> (#[trigger] r@[d]) as int == items_total(self.views()[d].nodes),
    {
        let mut r: Vec<usize> = Vec::new();
        let mut d: usize = 0;
        while d < self.gens.len()
            invariant
                d <= self.gens@.len(),
                self.counted(),
                r@.len() == d,
                forall|e: int|
                    0 <= e < d ==> (#[trigger] r@[e]) as int == items_total(self.views()[e].nodes),
            decreases self.gens@.len() - d,
        {
            r.push(self.gens[d].node_count());
            d = d + 1;
        }
        r
    }

    /// The children of the root, the best first; none if the root is a leaf.
    #[verifier::rlimit(50)]
    pub fn root_actions(&self) -> (r: Vec<Action<E>>)
        requires
            self.well_formed(),
        ensures
            r@ == (if self.views()[0].node(
                index_of(self.views()[0].keys[self.root().key_seq()]),
            ).children is Some {
                self.views()[0].children(index_of(self.views()[0].keys[self.root().key_seq()]))
            } else {
                Seq::empty()
            }),
    {
        proof {
            lemma_gen_facts(self.judge(), self.views(), self.pieces(), None, 0);
        }
        let count = self.gens.len();
        assert(self.views().len() == count);
        let mut r: Vec<Action<E>> = Vec::new();
        let at = match self.gens[0].find_node_index(&self.root_state) {
            Some(at) => at,
            None => {
                return r;
            },
        };
        let node = self.gens[0].node(at);
        let range = match node.children {
            Some(c) => c.0,
            None => {
                return r;
            },
        };
        let actions = self.gens[0].actions(range);
        let mut j: usize = 0;
        while j < actions.len()
            invariant
                j <= actions@.len(),
                r@ == actions@.take(j as int),
            decreases actions@.len() - j,
        {
            r.push(actions[j]);
            proof {
                assert(actions@.take(j + 1) =~= actions@.take(j as int).push(actions@[j as int]));
            }
            j = j + 1;
        }
        proof {
            assert(actions@.take(actions@.len() as int) =~= actions@);
        }
        r
    }
}

} // verus!
