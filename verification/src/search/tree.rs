//! What holds of a search graph: the properties of each generation and of
//! each pair of neighbouring generations.

use super::edges::{
    all_registered, lemma_childless_registered, lemma_registered_above, lemma_registered_below,
    lemma_registered_children, lemma_registered_dead, lemma_registered_node_above,
    lemma_registered_node_below, lemma_registered_parent, lemma_registered_run, registered,
    registered_at,
};
use super::generation::{index_of, slot_of, GenView};
use super::maps::Slot;
use super::node::{best_first, Action, ChildData, Node};
use super::offer::{
    all_unfolded, lemma_childless_unfolded, lemma_unfolded_children, lemma_unfolded_node,
    lemma_unfolded_rest, lemma_unfolded_run, spread, unfolded,
};
use super::state::{lemma_state_key_injective, State};
use super::storage::{holds, items_in, items_total, spans, Index, IndexRange};
use crate::eval::{Accumulator, Evaluator};
use crate::tetris::piece::{Move, PieceKind};
use vstd::prelude::*;

verus! {

/// The state with a given key.
pub open spec fn state_of(k: Seq<u64>) -> State {
    choose|s: State| s.key_seq() == k
}

/// The state with the key of a state is that state.
pub proof fn lemma_state_of_key(s: State)
    ensures
        state_of(s.key_seq()) == s,
{
    lemma_state_key_injective(state_of(s.key_seq()), s);
}

impl<E: Evaluator> GenView<E> {
    /// True if every action leads to a node of the next generation, was made
    /// with `piece` in hand, and has the reward of a single move.
    pub open spec fn targets_sound(self, next: GenView<E>, piece: PieceKind) -> bool {
        forall|a: Index| #[trigger]
            holds(self.actions, a) ==> {
                &&& holds(next.nodes, self.action(a).node)
                &&& self.action(a).current_piece == piece
                &&& E::Accumulator::modest(self.action(a).reward)
            }
    }

    /// True if the score of every action, but of those of the node `fresh`,
    /// is the score of its target with its reward added.
    pub open spec fn scores_current(self, next: GenView<E>, fresh: Option<Index>) -> bool {
        forall|a: Index| #[trigger]
            holds(self.actions, a) && !self.in_run_of(fresh, a) ==> self.action(a).acc
                == next.node(self.action(a).node).value.accumulated(self.action(a).reward)
    }

    /// True if the move of an action can be played in the state with key `k`
    /// and leads to the state whose node is the target of the action, and the
    /// action carries the reward that the evaluator gives the move.
    pub open spec fn move_leads(
        judge: E,
        next: GenView<E>,
        piece: PieceKind,
        k: Seq<u64>,
        a: Action<E>,
    ) -> bool {
        let s = state_of(k);
        &&& s.applies(a.mv, piece)
        &&& next.keys.contains_key(s.moved(a.mv, piece).key_seq())
        &&& next.keys[s.moved(a.mv, piece).key_seq()] == slot_of(a.node)
        &&& a.reward == judge.move_reward(
            a.mv,
            s.outcome(a.mv, piece),
            s.moved(a.mv, piece).situation(Seq::empty()),
        )
    }

    /// True if the moves of the children of every node can be played in the
    /// state of the node and lead to the states of their targets.
    pub open spec fn moves_lead(self, judge: E, next: GenView<E>, piece: PieceKind) -> bool {
        forall|k: Seq<u64>, j: int|
            #![trigger self.children(index_of(self.keys[k]))[j]]
            self.keys.contains_key(k) && self.node(index_of(self.keys[k])).children is Some && 0
                <= j < self.children(index_of(self.keys[k])).len() ==> Self::move_leads(judge, next,
                piece,
                k,
                self.children(index_of(self.keys[k]))[j],
            )
    }

    /// True if the node at `p` has a child that leads to the node at `c` of
    /// the next generation.
    pub open spec fn leads_to(self, p: Index, c: Slot) -> bool {
        &&& holds(self.nodes, p)
        &&& self.node(p).children is Some
        &&& exists|j: int|
            0 <= j < self.children(p).len() && (#[trigger] self.children(p)[j]).node == index_of(c)
    }

    /// True if every parent stored in the next generation has a child that
    /// leads to the node it is stored for.
    pub open spec fn parents_sound(self, next: GenView<E>) -> bool {
        forall|c: Slot, i: int|
            #![trigger next.parents[c][i]]
            next.parents.contains_key(c) && 0 <= i < next.parents[c].len() ==> self.leads_to(
                index_of(next.parents[c][i]),
                c,
            )
    }
}

/// What holds of a generation by itself: each key leads to one node and each
/// node has one key, the runs of children exist and do not overlap, the scores
/// can be compared, and the children of every node but `fresh` stand best
/// first.
#[verifier::opaque]
pub open spec fn gen_ok<E: Evaluator>(g: GenView<E>, fresh: Option<Index>) -> bool {
    &&& g.keys_sound()
    &&& g.nodes_known()
    &&& g.nodes_sound()
    &&& g.runs_apart()
    &&& g.scores_sound()
    &&& g.runs_sorted(fresh)
}

/// What holds of a generation and the next: the actions lead to nodes of the
/// next generation along moves that can be played, their scores are current
/// but for those of the node `fresh`, and the parents stored in the next
/// generation have children that lead to the nodes they are stored for.
#[verifier::opaque]
pub open spec fn link_ok<E: Evaluator>(
    judge: E,
    g: GenView<E>,
    next: GenView<E>,
    piece: PieceKind,
    fresh: Option<Index>,
) -> bool {
    &&& g.targets_sound(next, piece)
    &&& g.scores_current(next, fresh)
    &&& g.moves_lead(judge, next, piece)
    &&& g.parents_sound(next)
}

/// The node that is exempt at depth `d`.
pub open spec fn fresh_at(fresh: Option<(int, Index)>, d: int) -> Option<Index> {
    match fresh {
        Some((at, i)) => if at == d {
            Some(i)
        } else {
            None
        },
        None => None,
    }
}

/// What holds of the generations of a graph, from the head on, with the
/// queue of pieces to come: each generation is sound, each pair of neighbours
/// is linked through the piece queued at its depth, the last generation has
/// no children, each node behind the head holds the score that the evaluator
/// `judge` gives its state, the children of each node hold the moves of its
/// state, and each node is stored as a parent of the targets of its
/// children. The node `fresh`, if any, has just been expanded: its children
/// neither have current scores nor stand best first yet, and it need not be
/// stored as their parent yet.
pub open spec fn tree_ok<E: Evaluator>(
    judge: E,
    gens: Seq<GenView<E>>,
    queue: Seq<PieceKind>,
    fresh: Option<(int, Index)>,
) -> bool {
    &&& gens.len() >= 1
    &&& gens.len() - 1 <= queue.len()
    &&& forall|d: int| 0 <= d < gens.len() ==> #[trigger] gen_ok(gens[d], fresh_at(fresh, d))
    &&& forall|d: int|
        0 <= d < gens.len() - 1 ==> #[trigger] link_ok(judge, gens[d],
            gens[d + 1],
            queue[d],
            fresh_at(fresh, d),
        )
    &&& gens[gens.len() - 1].childless()
    &&& all_valued(judge, gens)
    &&& all_unfolded(gens, queue)
    &&& all_registered(gens, fresh)
}

/// True if each node of the generation holds the score that the evaluator
/// gives its state with nothing queued.
pub open spec fn valued<E: Evaluator>(judge: E, g: GenView<E>) -> bool {
    forall|k: Seq<u64>| #[trigger]
        g.keys.contains_key(k) ==> g.node(index_of(g.keys[k])).value == judge.state_value(
            state_of(k).situation(Seq::empty()),
        )
}

/// True if each node behind the head generation holds the score that the
/// evaluator gives its state with nothing queued. (The root was scored with
/// the queue of its day.)
pub open spec fn all_valued<E: Evaluator>(judge: E, gens: Seq<GenView<E>>) -> bool {
    forall|d: int| 1 <= d < gens.len() ==> #[trigger] valued(judge, gens[d])
}

/// The nodes hold the scores of their states when one generation changes and
/// keeps its keys and the scores of its nodes.
pub proof fn lemma_values_update<E: Evaluator>(
    judge: E,
    gens: Seq<GenView<E>>,
    d: int,
    g: GenView<E>,
)
    requires
        all_valued(judge, gens),
        0 <= d < gens.len(),
        gens[d].keys_sound(),
        gen_keeps(g, gens[d]),
        g.keys == gens[d].keys,
    ensures
        all_valued(judge, gens.update(d, g)),
{
    let after = gens.update(d, g);
    assert forall|e: int| 1 <= e < after.len() implies #[trigger] valued(judge, after[e]) by {
        assert(valued(judge, gens[e]));
        if e == d {
            assert forall|k: Seq<u64>| #[trigger] g.keys.contains_key(k) implies g.node(
                index_of(g.keys[k]),
            ).value == judge.state_value(state_of(k).situation(Seq::empty())) by {
                assert(gens[d].keys.contains_key(k));
                assert(holds(gens[d].nodes, index_of(gens[d].keys[k])));
            }
        }
    }
}

/// The number of nodes of the first `n` generations.
pub open spec fn nodes_upto<E: Evaluator>(gens: Seq<GenView<E>>, n: int) -> int
    decreases n,
{
    if n <= 0 {
        0
    } else {
        nodes_upto(gens, n - 1) + items_total(gens[n - 1].nodes)
    }
}

/// The number of nodes of all generations.
pub open spec fn nodes_total<E: Evaluator>(gens: Seq<GenView<E>>) -> int {
    nodes_upto(gens, gens.len() as int)
}

/// A generation without nodes is sound.
pub proof fn lemma_empty_gen_ok<E: Evaluator>(g: GenView<E>)
    requires
        forall|i: Index| !holds(g.nodes, i),
        forall|i: Index| !holds(g.actions, i),
        g.keys == Map::<Seq<u64>, Slot>::empty(),
        g.parents == Map::<Slot, Seq<Slot>>::empty(),
    ensures
        gen_ok(g, None),
        g.childless(),
{
    reveal(gen_ok);
}

/// A generation without children is linked to an empty generation.
pub proof fn lemma_empty_link_ok<E: Evaluator>(
    judge: E,
    g: GenView<E>, next: GenView<E>, piece: PieceKind)
    requires
        gen_ok(g, None),
        g.childless(),
        next.parents == Map::<Slot, Seq<Slot>>::empty(),
    ensures
        link_ok(judge, g, next, piece, None),
{
    reveal(gen_ok);
    reveal(link_ok);
    assert forall|k: Seq<u64>, j: int|
        #![trigger g.children(index_of(g.keys[k]))[j]]
        g.keys.contains_key(k) && g.node(index_of(g.keys[k])).children is Some && 0 <= j
            < g.children(index_of(g.keys[k])).len() implies GenView::<E>::move_leads(judge, next,
        piece,
        k,
        g.children(index_of(g.keys[k]))[j],
    ) by {
        assert(holds(g.nodes, index_of(g.keys[k])));
    }
}

/// A generation stays sound when a childless node is added to it.
#[verifier::rlimit(50)]
pub proof fn lemma_node_keeps_gen<E: Evaluator>(
    g: GenView<E>,
    fresh: Option<Index>,
    at: Index,
    key: Seq<u64>,
    node: Node<E>,
)
    requires
        gen_ok(g, fresh),
        at.shelf < g.nodes.len(),
        at.slot == g.nodes[at.shelf as int].len(),
        !g.keys.contains_key(key),
        node.children is None,
        node.value.grounded(),
    ensures
        gen_ok(g.with_node(at, key, node), fresh),
        g.childless() ==> g.with_node(at, key, node).childless(),
{
    reveal(gen_ok);
    let n = g.with_node(at, key, node);
    assert forall|i: Index| holds(n.nodes, i) implies (i == at || holds(g.nodes, i)) && n.node(i)
        == (if i == at {
        node
    } else {
        g.node(i)
    }) by {}
    assert forall|i: Index| holds(g.nodes, i) implies holds(n.nodes, i) && i != at by {}
    assert forall|i: Index| #[trigger] holds(n.nodes, i) implies n.parents.contains_key(slot_of(i))
        && exists|k: Seq<u64>| n.keys.contains_key(k) && #[trigger] n.keys[k] == slot_of(i) by {
        if i == at {
            assert(n.keys.contains_key(key) && n.keys[key] == slot_of(i));
        } else {
            assert(holds(g.nodes, i));
            let k = choose|k: Seq<u64>| g.keys.contains_key(k) && #[trigger] g.keys[k] == slot_of(i);
            assert(n.keys.contains_key(k) && n.keys[k] == slot_of(i));
        }
    }
    assert(n.keys_sound()) by {
        assert forall|k: Seq<u64>| #[trigger] n.keys.contains_key(k) implies holds(
            n.nodes,
            index_of(n.keys[k]),
        ) by {
            if k != key {
                assert(g.keys.contains_key(k));
            }
        }
        assert forall|k1: Seq<u64>, k2: Seq<u64>|
            #![trigger n.keys[k1], n.keys[k2]]
            n.keys.contains_key(k1) && n.keys.contains_key(k2) && n.keys[k1] == n.keys[k2] implies k1
            == k2 by {
            if k1 != key {
                assert(g.keys.contains_key(k1));
                assert(holds(g.nodes, index_of(g.keys[k1])));
            }
            if k2 != key {
                assert(g.keys.contains_key(k2));
                assert(holds(g.nodes, index_of(g.keys[k2])));
            }
        }
    }
    assert(n.nodes_sound()) by {
        assert forall|i: Index| #[trigger] holds(n.nodes, i) implies n.node(i).value.grounded() && (
        n.node(i).children is Some ==> spans(n.actions, n.node(i).run()) && !n.node(i).dead) by {
            if i != at {
                assert(holds(g.nodes, i));
            }
        }
    }
    assert(n.runs_apart()) by {
        assert forall|i: Index, j: Index|
            #![trigger holds(n.nodes, i), holds(n.nodes, j)]
            holds(n.nodes, i) && holds(n.nodes, j) && i != j && n.node(i).children is Some && n.node(
                j,
            ).children is Some implies n.node(i).run().shelf != n.node(j).run().shelf || n.node(
            i,
        ).run().end <= n.node(j).run().start || n.node(j).run().end <= n.node(i).run().start by {
            assert(holds(g.nodes, i) && holds(g.nodes, j));
        }
    }
    assert(n.runs_sorted(fresh)) by {
        assert forall|i: Index| #[trigger]
            holds(n.nodes, i) && n.node(i).children is Some && fresh != Some(i) implies best_first(
            n.children(i),
        ) by {
            assert(holds(g.nodes, i));
            assert(n.children(i) == g.children(i));
        }
    }
    if g.childless() {
        assert forall|i: Index| #[trigger] holds(n.nodes, i) implies n.node(i).children is None by {
            if i != at {
                assert(holds(g.nodes, i));
            }
        }
        assert forall|i: Index| !holds(n.actions, i) by {
            assert(!holds(g.actions, i));
        }
    }
}

/// Two generations stay linked when a childless node is added to the second.
#[verifier::rlimit(50)]
pub proof fn lemma_node_keeps_link_below<E: Evaluator>(
    judge: E,
    g: GenView<E>,
    next: GenView<E>,
    piece: PieceKind,
    fresh: Option<Index>,
    at: Index,
    key: Seq<u64>,
    node: Node<E>,
)
    requires
        link_ok(judge, g, next, piece, fresh),
        at.shelf < next.nodes.len(),
        at.slot == next.nodes[at.shelf as int].len(),
        !next.keys.contains_key(key),
    ensures
        link_ok(judge, g, next.with_node(at, key, node), piece, fresh),
{
    reveal(link_ok);
    let n = next.with_node(at, key, node);
    assert forall|i: Index| holds(next.nodes, i) implies holds(n.nodes, i) && n.node(i) == next.node(
        i,
    ) by {}
    assert(g.targets_sound(n, piece));
    assert(g.scores_current(n, fresh)) by {
        assert forall|a: Index| #[trigger] holds(g.actions, a) && !g.in_run_of(fresh, a) implies g.action(
            a,
        ).acc == n.node(g.action(a).node).value.accumulated(g.action(a).reward) by {
            assert(holds(next.nodes, g.action(a).node));
        }
    }
    assert(g.moves_lead(judge, n, piece)) by {
        assert forall|k: Seq<u64>, j: int|
            #![trigger g.children(index_of(g.keys[k]))[j]]
            g.keys.contains_key(k) && g.node(index_of(g.keys[k])).children is Some && 0 <= j
                < g.children(index_of(g.keys[k])).len() implies GenView::<E>::move_leads(judge, n,
            piece,
            k,
            g.children(index_of(g.keys[k]))[j],
        ) by {
            assert(GenView::<E>::move_leads(judge, next, piece, k, g.children(index_of(g.keys[k]))[j]));
        }
    }
    assert(g.parents_sound(n)) by {
        assert forall|c: Slot, i: int|
            #![trigger n.parents[c][i]]
            n.parents.contains_key(c) && 0 <= i < n.parents[c].len() implies g.leads_to(
            index_of(n.parents[c][i]),
            c,
        ) by {
            if c != slot_of(at) {
                assert(next.parents.contains_key(c));
                assert(g.leads_to(index_of(next.parents[c][i]), c));
            }
        }
    }
}

/// Two generations stay linked when a childless node is added to the first.
#[verifier::rlimit(50)]
pub proof fn lemma_node_keeps_link_above<E: Evaluator>(
    judge: E,
    g: GenView<E>,
    next: GenView<E>,
    piece: PieceKind,
    fresh: Option<Index>,
    at: Index,
    key: Seq<u64>,
    node: Node<E>,
)
    requires
        link_ok(judge, g, next, piece, fresh),
        gen_ok(g, fresh),
        at.shelf < g.nodes.len(),
        at.slot == g.nodes[at.shelf as int].len(),
        !g.keys.contains_key(key),
        node.children is None,
    ensures
        link_ok(judge, g.with_node(at, key, node), next, piece, fresh),
{
    reveal(link_ok);
    reveal(gen_ok);
    let n = g.with_node(at, key, node);
    assert forall|i: Index| holds(g.nodes, i) implies holds(n.nodes, i) && n.node(i) == g.node(i)
        && i != at by {}
    assert forall|i: Index| holds(n.nodes, i) implies (i == at || holds(g.nodes, i)) by {}
    assert(n.targets_sound(next, piece));
    assert(n.scores_current(next, fresh)) by {
        assert forall|a: Index| #[trigger] holds(n.actions, a) && !n.in_run_of(fresh, a) implies n.action(
            a,
        ).acc == next.node(n.action(a).node).value.accumulated(n.action(a).reward) by {
            if g.in_run_of(fresh, a) {
                assert(n.in_run_of(fresh, a));
            }
        }
    }
    assert(n.moves_lead(judge, next, piece)) by {
        assert forall|k: Seq<u64>, j: int|
            #![trigger n.children(index_of(n.keys[k]))[j]]
            n.keys.contains_key(k) && n.node(index_of(n.keys[k])).children is Some && 0 <= j
                < n.children(index_of(n.keys[k])).len() implies GenView::<E>::move_leads(judge, next,
            piece,
            k,
            n.children(index_of(n.keys[k]))[j],
        ) by {
            if k != key {
                assert(g.keys.contains_key(k));
                assert(holds(g.nodes, index_of(g.keys[k])));
                assert(n.children(index_of(n.keys[k])) == g.children(index_of(g.keys[k])));
                assert(GenView::<E>::move_leads(judge, next, piece, k, g.children(index_of(g.keys[k]))[j]));
            }
        }
    }
    assert(n.parents_sound(next)) by {
        assert forall|c: Slot, i: int|
            #![trigger next.parents[c][i]]
            next.parents.contains_key(c) && 0 <= i < next.parents[c].len() implies n.leads_to(
            index_of(next.parents[c][i]),
            c,
        ) by {
            let p = index_of(next.parents[c][i]);
            assert(g.leads_to(p, c));
            assert(n.children(p) == g.children(p));
            let j = choose|j: int|
                0 <= j < g.children(p).len() && (#[trigger] g.children(p)[j]).node == index_of(c);
            assert(n.children(p)[j].node == index_of(c));
        }
    }
}

/// The graph stays sound when a childless node is added to one generation.
pub proof fn lemma_add_node<E: Evaluator>(
    judge: E,
    gens: Seq<GenView<E>>,
    queue: Seq<PieceKind>,
    fresh: Option<(int, Index)>,
    d: int,
    at: Index,
    key: Seq<u64>,
    node: Node<E>,
)
    requires
        tree_ok(judge, gens, queue, fresh),
        0 <= d < gens.len(),
        at.shelf < gens[d].nodes.len(),
        at.slot == gens[d].nodes[at.shelf as int].len(),
        !gens[d].keys.contains_key(key),
        node.children is None,
        node.value.grounded(),
        d >= 1 ==> node.value == judge.state_value(state_of(key).situation(Seq::empty())),
    ensures
        tree_ok(judge, gens.update(d, gens[d].with_node(at, key, node)), queue, fresh),
{
    let after = gens.update(d, gens[d].with_node(at, key, node));
    assert(after.len() == gens.len());
    assert(gen_ok(gens[d], fresh_at(fresh, d)));
    assert forall|e: int| 0 <= e < after.len() - 1 implies #[trigger] unfolded(after[e], queue[e]) by {
        assert(unfolded(gens[e], queue[e]));
        if e == d {
            assert(gens[d].keys_sound()) by {
                reveal(gen_ok);
            }
            lemma_unfolded_node(gens[d], queue[d], at, key, node);
        }
    }
    assert forall|e: int| 0 <= e < after.len() - 1 implies #[trigger] registered(
        after[e],
        after[e + 1],
        fresh_at(fresh, e),
    ) by {
        assert(registered(gens[e], gens[e + 1], fresh_at(fresh, e)));
        if e == d {
            lemma_registered_node_above(gens[e], gens[e + 1], fresh_at(fresh, e), at, key, node);
        } else if e + 1 == d {
            lemma_registered_node_below(gens[e], gens[d], fresh_at(fresh, e), at, key, node);
        }
    }
    assert forall|e: int| 1 <= e < after.len() implies #[trigger] valued(judge, after[e]) by {
        assert(valued(judge, gens[e]));
        if e == d {
            let g = gens[d];
            let n = after[d];
            lemma_keeps_node(g, at, key, node);
            assert(g.keys_sound()) by {
                reveal(gen_ok);
            }
            assert forall|k: Seq<u64>| #[trigger] n.keys.contains_key(k) implies n.node(
                index_of(n.keys[k]),
            ).value == judge.state_value(state_of(k).situation(Seq::empty())) by {
                if k != key {
                    assert(g.keys.contains_key(k));
                    assert(holds(g.nodes, index_of(g.keys[k])));
                }
            }
        }
    }
    lemma_node_keeps_gen(gens[d], fresh_at(fresh, d), at, key, node);
    assert forall|e: int| 0 <= e < after.len() implies #[trigger] gen_ok(
        after[e],
        fresh_at(fresh, e),
    ) by {
        assert(gen_ok(gens[e], fresh_at(fresh, e)));
    }
    assert forall|e: int| 0 <= e < after.len() - 1 implies #[trigger] link_ok(judge, after[e],
        after[e + 1],
        queue[e],
        fresh_at(fresh, e),
    ) by {
        lemma_links(judge, gens, queue, fresh, e);
        if e + 1 == d {
            lemma_node_keeps_link_below(judge, gens[e], gens[d], queue[e], fresh_at(fresh, e), at, key, node);
        } else if e == d {
            lemma_node_keeps_link_above(judge, gens[d],
                gens[d + 1],
                queue[e],
                fresh_at(fresh, e),
                at,
                key,
                node,
            );
        }
    }
    assert(gens[gens.len() - 1].childless());
    assert(after[after.len() - 1].childless());
}

/// What a sound graph says of two neighbouring generations.
pub proof fn lemma_links<E: Evaluator>(
    judge: E,
    gens: Seq<GenView<E>>,
    queue: Seq<PieceKind>,
    fresh: Option<(int, Index)>,
    e: int,
)
    requires
        tree_ok(judge, gens, queue, fresh),
        0 <= e < gens.len() - 1,
    ensures
        e < queue.len(),
        link_ok(judge, gens[e], gens[e + 1], queue[e], fresh_at(fresh, e)),
        gen_ok(gens[e], fresh_at(fresh, e)),
        gen_ok(gens[e + 1], fresh_at(fresh, e + 1)),
{
    assert(gen_ok(gens[e], fresh_at(fresh, e)));
    assert(gen_ok(gens[e + 1], fresh_at(fresh, e + 1)));
}

/// The score of the target of an action with the reward of the action added.
pub open spec fn score_behind<E: Evaluator>(next: GenView<E>, a: Action<E>) -> E::Accumulator {
    next.node(a.node).value.accumulated(a.reward)
}

/// The graph stays sound when a node of a generation after the head gets one
/// more parent that has a child leading to it.
#[verifier::rlimit(50)]
pub proof fn lemma_add_parent<E: Evaluator>(
    judge: E,
    gens: Seq<GenView<E>>,
    queue: Seq<PieceKind>,
    fresh: Option<(int, Index)>,
    d: int,
    child: Index,
    parent: Index,
)
    requires
        tree_ok(judge, gens, queue, fresh),
        1 <= d < gens.len(),
        gens[d].parents.contains_key(slot_of(child)),
        gens[d - 1].leads_to(parent, slot_of(child)),
    ensures
        tree_ok(judge, gens.update(d, gens[d].with_parent(child, parent)), queue, fresh),
{
    let g = gens[d];
    let n = g.with_parent(child, parent);
    let after = gens.update(d, n);
    assert(after.len() == gens.len());
    assert(gens[gens.len() - 1].childless());
    assert(all_valued(judge, after)) by {
        assert(gen_ok(g, fresh_at(fresh, d)));
        assert(g.keys_sound()) by {
            reveal(gen_ok);
        }
        lemma_keeps_rest(g, child, parent, IndexRange { shelf: 0, start: 0, end: 0 }, Seq::empty());
        lemma_values_update(judge, gens, d, n);
    }
    assert forall|e: int| 0 <= e < after.len() - 1 implies #[trigger] unfolded(after[e], queue[e]) by {
        assert(unfolded(gens[e], queue[e]));
        if e == d {
            assert(gen_ok(g, fresh_at(fresh, d)));
            assert(g.keys_sound()) by {
                reveal(gen_ok);
            }
            lemma_unfolded_rest(g, queue[d], child, parent);
        }
    }
    assert forall|e: int| 0 <= e < after.len() - 1 implies #[trigger] registered(
        after[e],
        after[e + 1],
        fresh_at(fresh, e),
    ) by {
        assert(registered(gens[e], gens[e + 1], fresh_at(fresh, e)));
        if e == d {
            lemma_registered_above(g, n, gens[e + 1], fresh_at(fresh, e));
        } else if e + 1 == d {
            lemma_registered_parent(gens[e], g, fresh_at(fresh, e), child, parent);
        }
    }
    assert forall|e: int| 0 <= e < after.len() implies #[trigger] gen_ok(
        after[e],
        fresh_at(fresh, e),
    ) by {
        assert(gen_ok(gens[e], fresh_at(fresh, e)));
        if e == d {
            reveal(gen_ok);
            assert forall|i: Index| #[trigger] holds(n.nodes, i) implies n.parents.contains_key(
                slot_of(i),
            ) && exists|k: Seq<u64>| n.keys.contains_key(k) && #[trigger] n.keys[k] == slot_of(i) by {
                assert(holds(g.nodes, i));
            }
            assert forall|i: Index| #[trigger]
                holds(n.nodes, i) && n.node(i).children is Some && fresh_at(fresh, e) != Some(i)
                implies best_first(n.children(i)) by {
                assert(holds(g.nodes, i));
                assert(n.children(i) == g.children(i));
            }
        }
    }
    assert forall|e: int| 0 <= e < after.len() - 1 implies #[trigger] link_ok(judge, after[e],
        after[e + 1],
        queue[e],
        fresh_at(fresh, e),
    ) by {
        lemma_links(judge, gens, queue, fresh, e);
        reveal(link_ok);
        if e + 1 == d {
            let p = gens[e];
            assert forall|c: Slot, i: int|
                #![trigger n.parents[c][i]]
                n.parents.contains_key(c) && 0 <= i < n.parents[c].len() implies p.leads_to(
                index_of(n.parents[c][i]),
                c,
            ) by {
                if c == slot_of(child) {
                    if i < g.parents[c].len() {
                        assert(p.leads_to(index_of(g.parents[c][i]), c));
                    }
                } else {
                    assert(p.leads_to(index_of(g.parents[c][i]), c));
                }
            }
        } else if e == d {
            let x = gens[d + 1];
            assert forall|k: Seq<u64>, j: int|
                #![trigger n.children(index_of(n.keys[k]))[j]]
                n.keys.contains_key(k) && n.node(index_of(n.keys[k])).children is Some && 0 <= j
                    < n.children(index_of(n.keys[k])).len() implies GenView::<E>::move_leads(judge, x,
                queue[e],
                k,
                n.children(index_of(n.keys[k]))[j],
            ) by {
                assert(n.children(index_of(n.keys[k])) == g.children(index_of(g.keys[k])));
                assert(GenView::<E>::move_leads(judge, x, queue[e], k, g.children(index_of(g.keys[k]))[j]));
            }
            assert forall|c: Slot, i: int|
                #![trigger x.parents[c][i]]
                x.parents.contains_key(c) && 0 <= i < x.parents[c].len() implies n.leads_to(
                index_of(x.parents[c][i]),
                c,
            ) by {
                let q = index_of(x.parents[c][i]);
                assert(g.leads_to(q, c));
                assert(n.children(q) == g.children(q));
                let j = choose|j: int|
                    0 <= j < g.children(q).len() && (#[trigger] g.children(q)[j]).node == index_of(c);
                assert(n.children(q)[j].node == index_of(c));
            }
            assert forall|a: Index| #[trigger]
                holds(n.actions, a) && !n.in_run_of(fresh_at(fresh, e), a) implies n.action(a).acc
                == x.node(n.action(a).node).value.accumulated(n.action(a).reward) by {
                assert(!g.in_run_of(fresh_at(fresh, e), a));
            }
        }
    }
}

/// The graph stays sound when a leaf is marked as dead.
#[verifier::rlimit(50)]
pub proof fn lemma_mark_dead<E: Evaluator>(
    judge: E,
    gens: Seq<GenView<E>>,
    queue: Seq<PieceKind>,
    d: int,
    at: Index,
)
    requires
        tree_ok(judge, gens, queue, None),
        0 <= d < gens.len(),
        holds(gens[d].nodes, at),
        gens[d].node(at).children is None,
    ensures
        tree_ok(judge, gens.update(d, gens[d].with_dead(at)), queue, None),
{
    let g = gens[d];
    let n = g.with_dead(at);
    let after = gens.update(d, n);
    assert(after.len() == gens.len());
    assert(gens[gens.len() - 1].childless());
    assert(all_valued(judge, after)) by {
        assert(gen_ok(g, fresh_at(None, d)));
        assert(g.keys_sound()) by {
            reveal(gen_ok);
        }
        lemma_keeps_rest(g, at, at, IndexRange { shelf: 0, start: 0, end: 0 }, Seq::empty());
        lemma_values_update(judge, gens, d, n);
    }
    assert forall|e: int| 0 <= e < after.len() - 1 implies #[trigger] unfolded(after[e], queue[e]) by {
        assert(unfolded(gens[e], queue[e]));
        if e == d {
            assert(gen_ok(g, fresh_at(None, d)));
            assert(g.keys_sound()) by {
                reveal(gen_ok);
            }
            lemma_unfolded_rest(g, queue[d], at, at);
        }
    }
    assert forall|e: int| 0 <= e < after.len() - 1 implies #[trigger] registered(
        after[e],
        after[e + 1],
        fresh_at(None, e),
    ) by {
        assert(registered(gens[e], gens[e + 1], fresh_at(None, e)));
        if e == d {
            lemma_registered_dead(g, gens[e + 1], None, at);
        } else if e + 1 == d {
            lemma_registered_below(gens[e], g, n, None);
        }
    }
    assert forall|i: Index| holds(n.nodes, i) == holds(g.nodes, i) by {}
    assert forall|i: Index| holds(g.nodes, i) implies n.node(i).children == g.node(i).children
        && n.node(i).value == g.node(i).value && (i != at ==> n.node(i) == g.node(i)) by {}
    assert forall|i: Index| holds(g.nodes, i) && g.node(i).children is Some implies n.children(i)
        == g.children(i) by {}
    assert forall|e: int| 0 <= e < after.len() implies #[trigger] gen_ok(after[e], fresh_at(None, e)) by {
        assert(gen_ok(gens[e], fresh_at(None, e)));
        if e == d {
            reveal(gen_ok);
            assert forall|i: Index| #[trigger] holds(n.nodes, i) implies n.parents.contains_key(
                slot_of(i),
            ) && exists|k: Seq<u64>| n.keys.contains_key(k) && #[trigger] n.keys[k] == slot_of(i) by {
                assert(holds(g.nodes, i));
            }
            assert forall|i: Index| #[trigger] holds(n.nodes, i) implies n.node(i).value.grounded()
                && (n.node(i).children is Some ==> spans(n.actions, n.node(i).run()) && !n.node(
                i,
            ).dead) by {
                assert(holds(g.nodes, i));
            }
            assert(n.runs_apart()) by {
                assert forall|i: Index, j: Index|
                    #![trigger holds(n.nodes, i), holds(n.nodes, j)]
                    holds(n.nodes, i) && holds(n.nodes, j) && i != j && n.node(i).children is Some
                        && n.node(j).children is Some implies n.node(i).run().shelf != n.node(
                    j,
                ).run().shelf || n.node(i).run().end <= n.node(j).run().start || n.node(j).run().end
                    <= n.node(i).run().start by {
                    assert(holds(g.nodes, i) && holds(g.nodes, j));
                }
            }
            assert forall|i: Index| #[trigger]
                holds(n.nodes, i) && n.node(i).children is Some implies best_first(n.children(i)) by {
                assert(holds(g.nodes, i));
            }
        }
    }
    assert forall|e: int| 0 <= e < after.len() - 1 implies #[trigger] link_ok(judge, after[e],
        after[e + 1],
        queue[e],
        fresh_at(None, e),
    ) by {
        lemma_links(judge, gens, queue, None, e);
        reveal(link_ok);
        if e + 1 == d {
            let p = gens[e];
            assert forall|a: Index| #[trigger] holds(p.actions, a) implies p.action(a).acc == n.node(
                p.action(a).node,
            ).value.accumulated(p.action(a).reward) by {
                assert(holds(g.nodes, p.action(a).node));
                assert(!p.in_run_of(None, a));
            }
        } else if e == d {
            let x = gens[d + 1];
            assert forall|k: Seq<u64>, j: int|
                #![trigger n.children(index_of(n.keys[k]))[j]]
                n.keys.contains_key(k) && n.node(index_of(n.keys[k])).children is Some && 0 <= j
                    < n.children(index_of(n.keys[k])).len() implies GenView::<E>::move_leads(judge, x,
                queue[e],
                k,
                n.children(index_of(n.keys[k]))[j],
            ) by {
                reveal(gen_ok);
                assert(holds(g.nodes, index_of(g.keys[k])));
                assert(GenView::<E>::move_leads(judge, x, queue[e], k, g.children(index_of(g.keys[k]))[j]));
            }
            assert forall|c: Slot, i: int|
                #![trigger x.parents[c][i]]
                x.parents.contains_key(c) && 0 <= i < x.parents[c].len() implies n.leads_to(
                index_of(x.parents[c][i]),
                c,
            ) by {
                let q = index_of(x.parents[c][i]);
                assert(g.leads_to(q, c));
                let j = choose|j: int|
                    0 <= j < g.children(q).len() && (#[trigger] g.children(q)[j]).node == index_of(c);
                assert(n.children(q)[j].node == index_of(c));
            }
            assert forall|a: Index| #[trigger] holds(n.actions, a) && !n.in_run_of(None, a) implies n.action(
                a,
            ).acc == x.node(n.action(a).node).value.accumulated(n.action(a).reward) by {
                assert(!g.in_run_of(None, a));
            }
        }
    }
    if d == gens.len() - 1 {
        assert forall|i: Index| #[trigger] holds(n.nodes, i) implies n.node(i).children is None by {
            assert(holds(g.nodes, i));
        }
    }
}

/// The graph stays sound when an empty generation is added at its end.
pub proof fn lemma_push_gen<E: Evaluator>(
    judge: E,
    gens: Seq<GenView<E>>,
    queue: Seq<PieceKind>,
    empty: GenView<E>,
)
    requires
        tree_ok(judge, gens, queue, None),
        gens.len() <= queue.len(),
        forall|i: Index| !holds(empty.nodes, i),
        forall|i: Index| !holds(empty.actions, i),
        empty.keys == Map::<Seq<u64>, Slot>::empty(),
        empty.parents == Map::<Slot, Seq<Slot>>::empty(),
    ensures
        tree_ok(judge, gens.push(empty), queue, None),
{
    let after = gens.push(empty);
    let last = gens.len() - 1;
    assert forall|e: int| 0 <= e < after.len() - 1 implies #[trigger] unfolded(after[e], queue[e]) by {
        if e < last {
            assert(unfolded(gens[e], queue[e]));
        } else {
            assert(gen_ok(gens[last], fresh_at(None, last)));
            assert(gens[last].keys_sound()) by {
                reveal(gen_ok);
            }
            lemma_childless_unfolded(gens[last], queue[last]);
        }
    }
    assert forall|e: int| 0 <= e < after.len() - 1 implies #[trigger] registered(
        after[e],
        after[e + 1],
        fresh_at(None, e),
    ) by {
        if e < last {
            assert(registered(gens[e], gens[e + 1], fresh_at(None, e)));
        } else {
            lemma_childless_registered(gens[last], empty);
        }
    }
    assert forall|e: int| 1 <= e < after.len() implies #[trigger] valued(judge, after[e]) by {
        if e < gens.len() {
            assert(valued(judge, gens[e]));
        }
    }
    lemma_empty_gen_ok(empty);
    assert(gen_ok(gens[last], fresh_at(None, last)));
    lemma_empty_link_ok(judge, gens[last], empty, queue[last]);
    assert forall|e: int| 0 <= e < after.len() implies #[trigger] gen_ok(after[e], fresh_at(None, e)) by {
        if e < gens.len() {
            assert(gen_ok(gens[e], fresh_at(None, e)));
        }
    }
    assert forall|e: int| 0 <= e < after.len() - 1 implies #[trigger] link_ok(judge, after[e],
        after[e + 1],
        queue[e],
        fresh_at(None, e),
    ) by {
        if e < last {
            lemma_links(judge, gens, queue, None, e);
        }
    }
}

/// The graph without its head is sound for the queue without its head.
pub proof fn lemma_drop_head<E: Evaluator>(
    judge: E,
    gens: Seq<GenView<E>>, queue: Seq<PieceKind>)
    requires
        tree_ok(judge, gens, queue, None),
        gens.len() >= 2,
    ensures
        tree_ok(judge, gens.skip(1), queue.skip(1), None),
{
    let after = gens.skip(1);
    let rest = queue.skip(1);
    assert forall|e: int| 0 <= e < after.len() - 1 implies #[trigger] unfolded(after[e], rest[e]) by {
        assert(unfolded(gens[e + 1], queue[e + 1]));
    }
    assert forall|e: int| 0 <= e < after.len() - 1 implies #[trigger] registered(
        after[e],
        after[e + 1],
        fresh_at(None, e),
    ) by {
        assert(registered(gens[e + 1], gens[e + 1 + 1], fresh_at(None, e + 1)));
    }
    assert forall|e: int| 1 <= e < after.len() implies #[trigger] valued(judge, after[e]) by {
        assert(valued(judge, gens[e + 1]));
    }
    assert forall|e: int| 0 <= e < after.len() implies #[trigger] gen_ok(after[e], fresh_at(None, e)) by {
        assert(gen_ok(gens[e + 1], fresh_at(None, e + 1)));
    }
    assert forall|e: int| 0 <= e < after.len() - 1 implies #[trigger] link_ok(judge, after[e],
        after[e + 1],
        rest[e],
        fresh_at(None, e),
    ) by {
        lemma_links(judge, gens, queue, None, e + 1);
    }
}

/// The graph stays sound when a piece is added to the end of the queue.
pub proof fn lemma_queue_push<E: Evaluator>(
    judge: E,
    gens: Seq<GenView<E>>,
    queue: Seq<PieceKind>,
    piece: PieceKind,
)
    requires
        tree_ok(judge, gens, queue, None),
    ensures
        tree_ok(judge, gens, queue.push(piece), None),
{
    let longer = queue.push(piece);
    assert forall|e: int| 0 <= e < gens.len() - 1 implies #[trigger] unfolded(gens[e], longer[e]) by {
        assert(unfolded(gens[e], queue[e]));
    }
    assert forall|e: int| 0 <= e < gens.len() - 1 implies #[trigger] link_ok(judge, gens[e],
        gens[e + 1],
        longer[e],
        fresh_at(None, e),
    ) by {
        lemma_links(judge, gens, queue, None, e);
    }
}

/// True if the actions can become the children of the node of key `k`: they
/// lead to nodes of the next generation along moves that can be played in
/// the state of `k`, were made with `piece` in hand, have the reward of a
/// single move and a score that can be compared.
pub open spec fn fit_children<E: Evaluator>(
    judge: E,
    next: GenView<E>,
    piece: PieceKind,
    k: Seq<u64>,
    items: Seq<Action<E>>,
) -> bool {
    forall|j: int|
        0 <= j < items.len() ==> {
            &&& holds(next.nodes, (#[trigger] items[j]).node)
            &&& items[j].current_piece == piece
            &&& E::Accumulator::modest(items[j].reward)
            &&& items[j].acc.scorable()
            &&& GenView::<E>::move_leads(judge, next, piece, k, items[j])
        }
}

/// A generation stays sound, but for the order of the new children, when a
/// leaf gets a run of new actions as children.
#[verifier::rlimit(50)]
pub proof fn lemma_children_keep_gen<E: Evaluator>(
    g: GenView<E>,
    at: Index,
    range: IndexRange,
    items: Seq<Action<E>>,
)
    requires
        gen_ok(g, None),
        holds(g.nodes, at),
        g.node(at).children is None,
        !g.node(at).dead,
        range.shelf < g.actions.len(),
        range.start == g.actions[range.shelf as int].len(),
        range.end == range.start + items.len(),
        forall|j: int| 0 <= j < items.len() ==> (#[trigger] items[j]).acc.scorable(),
    ensures
        gen_ok(g.with_children(at, range, items), Some(at)),
{
    reveal(gen_ok);
    let n = g.with_children(at, range, items);
    assert forall|i: Index| holds(n.nodes, i) == holds(g.nodes, i) by {}
    assert forall|i: Index| holds(g.nodes, i) && i != at implies n.node(i) == g.node(i) by {}
    assert(n.node(at).children == Some(ChildData(range)));
    assert(n.node(at).run() == range);
    assert forall|a: Index| holds(g.actions, a) implies holds(n.actions, a) && n.action(a)
        == g.action(a) by {}
    assert forall|a: Index| holds(n.actions, a) && !holds(g.actions, a) implies a.shelf
        == range.shelf && range.start <= a.slot < range.end && n.action(a) == items[a.slot
        - range.start] by {}
    assert forall|i: Index| holds(g.nodes, i) && i != at && g.node(i).children is Some implies n.children(
        i,
    ) == g.children(i) by {
        assert(spans(g.actions, g.node(i).run()));
        assert(n.children(i) =~= g.children(i));
    }
    assert(n.keys_sound());
    assert(n.nodes_known()) by {
        assert forall|i: Index| #[trigger] holds(n.nodes, i) implies n.parents.contains_key(
            slot_of(i),
        ) && exists|k: Seq<u64>| n.keys.contains_key(k) && #[trigger] n.keys[k] == slot_of(i) by {
            assert(holds(g.nodes, i));
            let k = choose|k: Seq<u64>| g.keys.contains_key(k) && #[trigger] g.keys[k] == slot_of(i);
            assert(n.keys.contains_key(k) && n.keys[k] == slot_of(i));
        }
    }
    assert(n.nodes_sound()) by {
        assert forall|i: Index| #[trigger] holds(n.nodes, i) implies n.node(i).value.grounded() && (
        n.node(i).children is Some ==> spans(n.actions, n.node(i).run()) && !n.node(i).dead) by {
            assert(holds(g.nodes, i));
            if i != at && g.node(i).children is Some {
                assert(spans(g.actions, g.node(i).run()));
            }
        }
    }
    assert(n.runs_apart()) by {
        assert forall|i: Index, j: Index|
            #![trigger holds(n.nodes, i), holds(n.nodes, j)]
            holds(n.nodes, i) && holds(n.nodes, j) && i != j && n.node(i).children is Some && n.node(
                j,
            ).children is Some implies n.node(i).run().shelf != n.node(j).run().shelf || n.node(
            i,
        ).run().end <= n.node(j).run().start || n.node(j).run().end <= n.node(i).run().start by {
            assert(holds(g.nodes, i) && holds(g.nodes, j));
            if i != at {
                assert(spans(g.actions, g.node(i).run()));
            }
            if j != at {
                assert(spans(g.actions, g.node(j).run()));
            }
        }
    }
    assert(n.scores_sound()) by {
        assert forall|a: Index| #[trigger] holds(n.actions, a) implies n.action(a).acc.scorable() by {
            if holds(g.actions, a) {
                assert(g.action(a).acc.scorable());
            }
        }
    }
    assert(n.runs_sorted(Some(at))) by {
        assert forall|i: Index| #[trigger]
            holds(n.nodes, i) && n.node(i).children is Some && Some(at) != Some(i) implies best_first(
            n.children(i),
        ) by {
            assert(holds(g.nodes, i));
        }
    }
}

/// Two generations stay linked, but for the scores of the new children,
/// when a leaf of the first gets a run of fitting actions as children.
#[verifier::rlimit(50)]
pub proof fn lemma_children_keep_link_above<E: Evaluator>(
    judge: E,
    g: GenView<E>,
    next: GenView<E>,
    piece: PieceKind,
    at: Index,
    k: Seq<u64>,
    range: IndexRange,
    items: Seq<Action<E>>,
)
    requires
        gen_ok(g, None),
        link_ok(judge, g, next, piece, None),
        holds(g.nodes, at),
        g.node(at).children is None,
        g.keys.contains_key(k),
        g.keys[k] == slot_of(at),
        range.shelf < g.actions.len(),
        range.start == g.actions[range.shelf as int].len(),
        range.end == range.start + items.len(),
        fit_children(judge, next, piece, k, items),
    ensures
        link_ok(judge, g.with_children(at, range, items), next, piece, Some(at)),
{
    reveal(gen_ok);
    reveal(link_ok);
    let n = g.with_children(at, range, items);
    assert forall|i: Index| holds(n.nodes, i) == holds(g.nodes, i) by {}
    assert forall|i: Index| holds(g.nodes, i) && i != at implies n.node(i) == g.node(i) by {}
    assert(n.node(at).run() == range);
    assert forall|a: Index| holds(g.actions, a) implies holds(n.actions, a) && n.action(a)
        == g.action(a) by {}
    assert forall|a: Index| holds(n.actions, a) && !holds(g.actions, a) implies a.shelf
        == range.shelf && range.start <= a.slot < range.end && n.action(a) == items[a.slot
        - range.start] by {}
    assert forall|i: Index| holds(g.nodes, i) && i != at && g.node(i).children is Some implies n.children(
        i,
    ) == g.children(i) by {
        assert(spans(g.actions, g.node(i).run()));
        assert(n.children(i) =~= g.children(i));
    }
    assert(n.children(at) =~= items);
    assert(n.targets_sound(next, piece)) by {
        assert forall|a: Index| #[trigger] holds(n.actions, a) implies holds(
            next.nodes,
            n.action(a).node,
        ) && n.action(a).current_piece == piece && E::Accumulator::modest(n.action(a).reward) by {
            if !holds(g.actions, a) {
                assert(n.action(a) == items[a.slot - range.start]);
            }
        }
    }
    assert(n.scores_current(next, Some(at))) by {
        assert forall|a: Index| #[trigger] holds(n.actions, a) && !n.in_run_of(Some(at), a) implies n.action(
            a,
        ).acc == next.node(n.action(a).node).value.accumulated(n.action(a).reward) by {
            assert(holds(g.actions, a));
            assert(!g.in_run_of(None, a));
        }
    }
    assert(n.moves_lead(judge, next, piece)) by {
        assert forall|q: Seq<u64>, j: int|
            #![trigger n.children(index_of(n.keys[q]))[j]]
            n.keys.contains_key(q) && n.node(index_of(n.keys[q])).children is Some && 0 <= j
                < n.children(index_of(n.keys[q])).len() implies GenView::<E>::move_leads(judge, next,
            piece,
            q,
            n.children(index_of(n.keys[q]))[j],
        ) by {
            assert(holds(g.nodes, index_of(g.keys[q])));
            if index_of(g.keys[q]) == at {
                assert(g.keys[q] == g.keys[k]);
                assert(q == k);
                assert(n.children(at)[j] == items[j]);
            } else {
                assert(GenView::<E>::move_leads(judge, next, piece, q, g.children(index_of(g.keys[q]))[j]));
            }
        }
    }
    assert(n.parents_sound(next)) by {
        assert forall|c: Slot, i: int|
            #![trigger next.parents[c][i]]
            next.parents.contains_key(c) && 0 <= i < next.parents[c].len() implies n.leads_to(
            index_of(next.parents[c][i]),
            c,
        ) by {
            let p = index_of(next.parents[c][i]);
            assert(g.leads_to(p, c));
            assert(p != at);
            let j = choose|j: int|
                0 <= j < g.children(p).len() && (#[trigger] g.children(p)[j]).node == index_of(c);
            assert(n.children(p)[j].node == index_of(c));
        }
    }
}

/// Two generations stay linked when a leaf of the second gets children.
#[verifier::rlimit(50)]
pub proof fn lemma_children_keep_link_below<E: Evaluator>(
    judge: E,
    g: GenView<E>,
    next: GenView<E>,
    piece: PieceKind,
    fresh: Option<Index>,
    at: Index,
    range: IndexRange,
    items: Seq<Action<E>>,
)
    requires
        link_ok(judge, g, next, piece, fresh),
        holds(next.nodes, at),
    ensures
        link_ok(judge, g, next.with_children(at, range, items), piece, fresh),
{
    reveal(link_ok);
    let n = next.with_children(at, range, items);
    assert forall|i: Index| holds(n.nodes, i) == holds(next.nodes, i) by {}
    assert forall|i: Index| holds(next.nodes, i) implies n.node(i).value == next.node(i).value by {}
    assert(g.scores_current(n, fresh)) by {
        assert forall|a: Index| #[trigger] holds(g.actions, a) && !g.in_run_of(fresh, a) implies g.action(
            a,
        ).acc == n.node(g.action(a).node).value.accumulated(g.action(a).reward) by {
            assert(holds(next.nodes, g.action(a).node));
        }
    }
    assert(g.moves_lead(judge, n, piece)) by {
        assert forall|k: Seq<u64>, j: int|
            #![trigger g.children(index_of(g.keys[k]))[j]]
            g.keys.contains_key(k) && g.node(index_of(g.keys[k])).children is Some && 0 <= j
                < g.children(index_of(g.keys[k])).len() implies GenView::<E>::move_leads(judge, n,
            piece,
            k,
            g.children(index_of(g.keys[k]))[j],
        ) by {
            assert(GenView::<E>::move_leads(judge, next, piece, k, g.children(index_of(g.keys[k]))[j]));
        }
    }
    assert(g.parents_sound(n)) by {
        assert forall|c: Slot, i: int|
            #![trigger n.parents[c][i]]
            n.parents.contains_key(c) && 0 <= i < n.parents[c].len() implies g.leads_to(
            index_of(n.parents[c][i]),
            c,
        ) by {
            assert(g.leads_to(index_of(next.parents[c][i]), c));
        }
    }
}

/// The graph stays sound, but for the new children, when a leaf gets a run
/// of fitting actions as children.
pub proof fn lemma_add_children<E: Evaluator>(
    judge: E,
    gens: Seq<GenView<E>>,
    queue: Seq<PieceKind>,
    d: int,
    at: Index,
    k: Seq<u64>,
    range: IndexRange,
    items: Seq<Action<E>>,
)
    requires
        tree_ok(judge, gens, queue, None),
        0 <= d < gens.len() - 1,
        holds(gens[d].nodes, at),
        gens[d].node(at).children is None,
        !gens[d].node(at).dead,
        gens[d].keys.contains_key(k),
        gens[d].keys[k] == slot_of(at),
        range.shelf < gens[d].actions.len(),
        range.start == gens[d].actions[range.shelf as int].len(),
        range.end == range.start + items.len(),
        fit_children(judge, gens[d + 1], queue[d], k, items),
        spread(items, state_of(k), queue[d]),
    ensures
        tree_ok(judge, gens.update(d, gens[d].with_children(at, range, items)), queue, Some((d, at))),
{
    let g = gens[d];
    let n = g.with_children(at, range, items);
    let after = gens.update(d, n);
    let fresh = Some((d, at));
    assert(after.len() == gens.len());
    assert(gens[gens.len() - 1].childless());
    assert(gen_ok(gens[d], fresh_at(None, d)));
    assert(all_valued(judge, after)) by {
        assert(g.keys_sound()) by {
            reveal(gen_ok);
        }
        lemma_keeps_rest(g, at, at, range, items);
        lemma_values_update(judge, gens, d, n);
    }
    assert forall|e: int| 0 <= e < after.len() - 1 implies #[trigger] unfolded(after[e], queue[e]) by {
        assert(unfolded(gens[e], queue[e]));
        if e == d {
            lemma_unfolded_children(g, queue[d], at, k, range, items);
        }
    }
    assert forall|e: int| 0 <= e < after.len() - 1 implies #[trigger] registered(
        after[e],
        after[e + 1],
        fresh_at(fresh, e),
    ) by {
        assert(registered(gens[e], gens[e + 1], fresh_at(None, e)));
        if e == d {
            lemma_registered_children(g, gens[e + 1], at, range, items);
        } else if e + 1 == d {
            lemma_registered_below(gens[e], g, n, None);
        }
    }
    lemma_children_keep_gen(g, at, range, items);
    assert forall|e: int| 0 <= e < after.len() implies #[trigger] gen_ok(
        after[e],
        fresh_at(fresh, e),
    ) by {
        assert(gen_ok(gens[e], fresh_at(None, e)));
    }
    assert forall|e: int| 0 <= e < after.len() - 1 implies #[trigger] link_ok(judge, after[e],
        after[e + 1],
        queue[e],
        fresh_at(fresh, e),
    ) by {
        lemma_links(judge, gens, queue, None, e);
        if e + 1 == d {
            lemma_children_keep_link_below(judge, gens[e], g, queue[e], None, at, range, items);
        } else if e == d {
            lemma_children_keep_link_above(judge, g, gens[d + 1], queue[d], at, k, range, items);
        }
    }
}

/// True if `items` are the actions `before`, each passed by a search that
/// found the score of its target behind it, in an order that puts the best
/// first: `items[j]` stems from `before[from[j]]`, and `before[i]` went to
/// `items[to[i]]`.
pub open spec fn refreshed<E: Evaluator>(
    before: Seq<Action<E>>,
    next: GenView<E>,
    items: Seq<Action<E>>,
    from: Seq<int>,
    to: Seq<int>,
) -> bool {
    &&& items.len() == before.len()
    &&& from.len() == before.len()
    &&& to.len() == before.len()
    &&& forall|j: int|
        0 <= j < items.len() ==> 0 <= #[trigger] from[j] < before.len() && items[j]
            == before[from[j]].passed(score_behind(next, before[from[j]]))
    &&& forall|i: int|
        0 <= i < before.len() ==> 0 <= #[trigger] to[i] < items.len() && from[to[i]] == i
    &&& best_first(items)
    &&& forall|j: int| 0 <= j < items.len() ==> (#[trigger] items[j]).acc.scorable()
}

/// What replacing the actions of a run changes: the actions of the run, and
/// with them the children of the nodes whose run it touches.
#[verifier::rlimit(50)]
pub proof fn lemma_run_frame<E: Evaluator>(g: GenView<E>, range: IndexRange, items: Seq<Action<E>>)
    requires
        spans(g.actions, range),
        items.len() == range.end - range.start,
    ensures
        g.with_run(range, items).nodes == g.nodes,
        g.with_run(range, items).keys == g.keys,
        g.with_run(range, items).parents == g.parents,
        g.with_run(range, items).actions.len() == g.actions.len(),
        forall|s: int|
            0 <= s < g.actions.len() ==> (#[trigger] g.with_run(range, items).actions[s]).len()
                == g.actions[s].len(),
        forall|a: Index|
            #![trigger g.with_run(range, items).action(a)]
            holds(g.actions, a) ==> g.with_run(range, items).action(a) == (if a.shelf == range.shelf
                && range.start <= a.slot < range.end {
                items[a.slot - range.start]
            } else {
                g.action(a)
            }),
        items_in(g.with_run(range, items).actions, range) == items,
        forall|r: IndexRange|
            #![trigger items_in(g.with_run(range, items).actions, r)]
            spans(g.actions, r) && (r.shelf != range.shelf || r.end <= range.start || range.end
                <= r.start) ==> items_in(g.with_run(range, items).actions, r) == items_in(
                g.actions,
                r,
            ),
{
    reveal(GenView::with_run);
    let n = g.with_run(range, items);
    assert(items_in(n.actions, range) =~= items);
    assert forall|r: IndexRange|
        #![trigger items_in(n.actions, r)]
        spans(g.actions, r) && (r.shelf != range.shelf || r.end <= range.start || range.end
            <= r.start) implies items_in(n.actions, r) == items_in(g.actions, r) by {
        assert(items_in(n.actions, r) =~= items_in(g.actions, r));
    }
}

/// A generation is sound once the children of a node were refreshed.
#[verifier::rlimit(50)]
pub proof fn lemma_refresh_keeps_gen<E: Evaluator>(
    g: GenView<E>,
    next: GenView<E>,
    fresh: Option<Index>,
    at: Index,
    items: Seq<Action<E>>,
    from: Seq<int>,
    to: Seq<int>,
)
    requires
        gen_ok(g, fresh),
        fresh is None || fresh == Some(at),
        holds(g.nodes, at),
        g.node(at).children is Some,
        refreshed(g.children(at), next, items, from, to),
    ensures
        gen_ok(g.with_run(g.node(at).run(), items), None),
{
    reveal(gen_ok);
    let range = g.node(at).run();
    let n = g.with_run(range, items);
    assert(spans(g.actions, range));
    lemma_run_frame(g, range, items);
    assert forall|a: Index| holds(n.actions, a) == holds(g.actions, a) by {}
    assert(n.children(at) == items);
    assert forall|i: Index| holds(g.nodes, i) && i != at && g.node(i).children is Some implies n.children(
        i,
    ) == g.children(i) by {
        assert(spans(g.actions, g.node(i).run()));
        assert(holds(g.nodes, i) && holds(g.nodes, at));
    }
    assert(n.keys_sound());
    assert(n.nodes_known()) by {
        assert forall|i: Index| #[trigger] holds(n.nodes, i) implies n.parents.contains_key(
            slot_of(i),
        ) && exists|k: Seq<u64>| n.keys.contains_key(k) && #[trigger] n.keys[k] == slot_of(i) by {
            assert(holds(g.nodes, i));
            let k = choose|k: Seq<u64>| g.keys.contains_key(k) && #[trigger] g.keys[k] == slot_of(i);
            assert(n.keys.contains_key(k) && n.keys[k] == slot_of(i));
        }
    }
    assert(n.nodes_sound()) by {
        assert forall|i: Index| #[trigger] holds(n.nodes, i) implies n.node(i).value.grounded() && (
        n.node(i).children is Some ==> spans(n.actions, n.node(i).run()) && !n.node(i).dead) by {
            assert(holds(g.nodes, i));
            if g.node(i).children is Some {
                assert(spans(g.actions, g.node(i).run()));
            }
        }
    }
    assert(n.runs_apart()) by {
        assert forall|i: Index, j: Index|
            #![trigger holds(n.nodes, i), holds(n.nodes, j)]
            holds(n.nodes, i) && holds(n.nodes, j) && i != j && n.node(i).children is Some && n.node(
                j,
            ).children is Some implies n.node(i).run().shelf != n.node(j).run().shelf || n.node(
            i,
        ).run().end <= n.node(j).run().start || n.node(j).run().end <= n.node(i).run().start by {
            assert(holds(g.nodes, i) && holds(g.nodes, j));
        }
    }
    assert(n.scores_sound()) by {
        assert forall|a: Index| #[trigger] holds(n.actions, a) implies n.action(a).acc.scorable() by {
            assert(holds(g.actions, a));
            if a.shelf == range.shelf && range.start <= a.slot < range.end {
                assert(n.action(a) == items[a.slot - range.start]);
            } else {
                assert(g.action(a).acc.scorable());
            }
        }
    }
    assert(n.runs_sorted(None)) by {
        assert forall|i: Index| #[trigger] holds(n.nodes, i) && n.node(i).children is Some implies best_first(
            n.children(i),
        ) by {
            assert(holds(g.nodes, i));
        }
    }
}

/// Two generations are linked once the children of a node of the first were
/// refreshed.
#[verifier::rlimit(50)]
pub proof fn lemma_refresh_keeps_link<E: Evaluator>(
    judge: E,
    g: GenView<E>,
    next: GenView<E>,
    piece: PieceKind,
    fresh: Option<Index>,
    at: Index,
    items: Seq<Action<E>>,
    from: Seq<int>,
    to: Seq<int>,
)
    requires
        gen_ok(g, fresh),
        link_ok(judge, g, next, piece, fresh),
        fresh is None || fresh == Some(at),
        holds(g.nodes, at),
        g.node(at).children is Some,
        refreshed(g.children(at), next, items, from, to),
    ensures
        link_ok(judge, g.with_run(g.node(at).run(), items), next, piece, None),
{
    reveal(gen_ok);
    reveal(link_ok);
    let range = g.node(at).run();
    let before = g.children(at);
    let n = g.with_run(range, items);
    assert(spans(g.actions, range));
    lemma_run_frame(g, range, items);
    assert forall|a: Index| holds(n.actions, a) == holds(g.actions, a) by {}
    assert(n.children(at) == items);
    assert forall|i: Index| holds(g.nodes, i) && i != at && g.node(i).children is Some implies n.children(
        i,
    ) == g.children(i) by {
        assert(spans(g.actions, g.node(i).run()));
        assert(holds(g.nodes, i) && holds(g.nodes, at));
    }
    assert forall|i: int| 0 <= i < before.len() implies #[trigger] before[i] == g.action(
        Index { shelf: range.shelf, slot: (range.start + i) as usize },
    ) && holds(g.actions, Index { shelf: range.shelf, slot: (range.start + i) as usize }) by {}
    assert forall|j: int| 0 <= j < items.len() implies {
        &&& holds(next.nodes, (#[trigger] items[j]).node)
        &&& items[j].current_piece == piece
        &&& E::Accumulator::modest(items[j].reward)
        &&& items[j].acc == next.node(items[j].node).value.accumulated(items[j].reward)
        &&& items[j].mv == before[from[j]].mv
        &&& items[j].node == before[from[j]].node
    } by {
        let i = from[j];
        assert(holds(g.actions, Index { shelf: range.shelf, slot: (range.start + i) as usize }));
        assert(before[i] == g.action(Index { shelf: range.shelf, slot: (range.start + i) as usize }));
    }
    assert(n.targets_sound(next, piece)) by {
        assert forall|a: Index| #[trigger] holds(n.actions, a) implies holds(
            next.nodes,
            n.action(a).node,
        ) && n.action(a).current_piece == piece && E::Accumulator::modest(n.action(a).reward) by {
            assert(holds(g.actions, a));
            if a.shelf == range.shelf && range.start <= a.slot < range.end {
                assert(n.action(a) == items[a.slot - range.start]);
            }
        }
    }
    assert(n.scores_current(next, None)) by {
        assert forall|a: Index| #[trigger] holds(n.actions, a) && !n.in_run_of(None, a) implies n.action(
            a,
        ).acc == next.node(n.action(a).node).value.accumulated(n.action(a).reward) by {
            assert(holds(g.actions, a));
            if a.shelf == range.shelf && range.start <= a.slot < range.end {
                assert(n.action(a) == items[a.slot - range.start]);
            } else {
                assert(!g.in_run_of(fresh, a));
            }
        }
    }
    assert(n.moves_lead(judge, next, piece)) by {
        assert forall|k: Seq<u64>, j: int|
            #![trigger n.children(index_of(n.keys[k]))[j]]
            n.keys.contains_key(k) && n.node(index_of(n.keys[k])).children is Some && 0 <= j
                < n.children(index_of(n.keys[k])).len() implies GenView::<E>::move_leads(judge, next,
            piece,
            k,
            n.children(index_of(n.keys[k]))[j],
        ) by {
            let p = index_of(g.keys[k]);
            assert(holds(g.nodes, p));
            if p == at {
                assert(n.children(at)[j] == items[j]);
                assert(GenView::<E>::move_leads(judge, next, piece, k, g.children(p)[from[j]]));
            } else {
                assert(GenView::<E>::move_leads(judge, next, piece, k, g.children(p)[j]));
            }
        }
    }
    assert(n.parents_sound(next)) by {
        assert forall|c: Slot, i: int|
            #![trigger next.parents[c][i]]
            next.parents.contains_key(c) && 0 <= i < next.parents[c].len() implies n.leads_to(
            index_of(next.parents[c][i]),
            c,
        ) by {
            let p = index_of(next.parents[c][i]);
            assert(g.leads_to(p, c));
            let o = choose|o: int|
                0 <= o < g.children(p).len() && (#[trigger] g.children(p)[o]).node == index_of(c);
            if p == at {
                let j = to[o];
                assert(from[j] == o);
                assert(n.children(p)[j].node == index_of(c));
            } else {
                assert(n.children(p)[o].node == index_of(c));
            }
        }
    }
}

/// Two generations stay linked when actions of the second are replaced.
#[verifier::rlimit(50)]
pub proof fn lemma_run_keeps_link_below<E: Evaluator>(
    judge: E,
    g: GenView<E>,
    next: GenView<E>,
    piece: PieceKind,
    fresh: Option<Index>,
    range: IndexRange,
    items: Seq<Action<E>>,
)
    requires
        link_ok(judge, g, next, piece, fresh),
        spans(next.actions, range),
        items.len() == range.end - range.start,
    ensures
        link_ok(judge, g, next.with_run(range, items), piece, fresh),
{
    reveal(link_ok);
    let n = next.with_run(range, items);
    lemma_run_frame(next, range, items);
    assert(g.moves_lead(judge, n, piece)) by {
        assert forall|k: Seq<u64>, j: int|
            #![trigger g.children(index_of(g.keys[k]))[j]]
            g.keys.contains_key(k) && g.node(index_of(g.keys[k])).children is Some && 0 <= j
                < g.children(index_of(g.keys[k])).len() implies GenView::<E>::move_leads(judge, n,
            piece,
            k,
            g.children(index_of(g.keys[k]))[j],
        ) by {
            assert(GenView::<E>::move_leads(judge, next, piece, k, g.children(index_of(g.keys[k]))[j]));
        }
    }
    assert(g.parents_sound(n)) by {
        assert forall|c: Slot, i: int|
            #![trigger n.parents[c][i]]
            n.parents.contains_key(c) && 0 <= i < n.parents[c].len() implies g.leads_to(
            index_of(n.parents[c][i]),
            c,
        ) by {
            assert(g.leads_to(index_of(next.parents[c][i]), c));
        }
    }
}

/// The graph is sound once the children of a node were refreshed: of the node
/// that was just expanded, or of any node if none was.
pub proof fn lemma_refresh<E: Evaluator>(
    judge: E,
    gens: Seq<GenView<E>>,
    queue: Seq<PieceKind>,
    fresh: Option<(int, Index)>,
    d: int,
    at: Index,
    items: Seq<Action<E>>,
    from: Seq<int>,
    to: Seq<int>,
)
    requires
        tree_ok(judge, gens, queue, fresh),
        fresh is None || fresh == Some((d, at)),
        0 <= d < gens.len() - 1,
        holds(gens[d].nodes, at),
        gens[d].node(at).children is Some,
        refreshed(gens[d].children(at), gens[d + 1], items, from, to),
        fresh is Some ==> registered_at(gens[d], gens[d + 1], at),
    ensures
        tree_ok(judge, gens.update(d, gens[d].with_run(gens[d].node(at).run(), items)), queue, None),
{
    let g = gens[d];
    let range = g.node(at).run();
    let n = g.with_run(range, items);
    let after = gens.update(d, n);
    assert(after.len() == gens.len());
    assert(gens[gens.len() - 1].childless());
    assert(gen_ok(gens[d], fresh_at(fresh, d)));
    assert(spans(g.actions, range)) by {
        reveal(gen_ok);
    }
    assert(all_valued(judge, after)) by {
        assert(g.keys_sound()) by {
            reveal(gen_ok);
        }
        lemma_keeps_rest(g, at, at, range, items);
        assert(n.keys == g.keys) by {
            reveal(GenView::with_run);
        }
        lemma_values_update(judge, gens, d, n);
    }
    assert forall|e: int| 0 <= e < after.len() - 1 implies #[trigger] unfolded(after[e], queue[e]) by {
        assert(unfolded(gens[e], queue[e]));
        if e == d {
            lemma_unfolded_run(g, gens[d + 1], queue[d], fresh_at(fresh, d), at, items, from, to);
        }
    }
    assert forall|e: int| 0 <= e < after.len() - 1 implies #[trigger] registered(
        after[e],
        after[e + 1],
        fresh_at(None, e),
    ) by {
        assert(registered(gens[e], gens[e + 1], fresh_at(fresh, e)));
        if e == d {
            if fresh is None {
                reveal(registered);
                assert(registered_at(g, gens[d + 1], at));
            }
            lemma_registered_run(g, gens[d + 1], fresh_at(fresh, d), at, items, from, to);
        } else if e + 1 == d {
            lemma_run_frame(g, range, items);
            lemma_registered_below(gens[e], g, n, fresh_at(fresh, e));
        }
    }
    lemma_refresh_keeps_gen(g, gens[d + 1], fresh_at(fresh, d), at, items, from, to);
    assert forall|e: int| 0 <= e < after.len() implies #[trigger] gen_ok(after[e], fresh_at(None, e)) by {
        assert(gen_ok(gens[e], fresh_at(fresh, e)));
    }
    assert forall|e: int| 0 <= e < after.len() - 1 implies #[trigger] link_ok(judge, after[e],
        after[e + 1],
        queue[e],
        fresh_at(None, e),
    ) by {
        lemma_links(judge, gens, queue, fresh, e);
        if e + 1 == d {
            lemma_run_keeps_link_below(judge, gens[e], g, queue[e], fresh_at(fresh, e), range, items);
        } else if e == d {
            lemma_refresh_keeps_link(judge, g, gens[d + 1], queue[d], fresh_at(fresh, d), at, items, from, to);
        }
    }
}

/// Actions that fit as children still do when a node is added to the next
/// generation.
pub proof fn lemma_fit_grows<E: Evaluator>(
    judge: E,
    next: GenView<E>,
    piece: PieceKind,
    k: Seq<u64>,
    items: Seq<Action<E>>,
    at: Index,
    key: Seq<u64>,
    node: Node<E>,
)
    requires
        fit_children(judge, next, piece, k, items),
        at.shelf < next.nodes.len(),
        at.slot == next.nodes[at.shelf as int].len(),
        !next.keys.contains_key(key),
    ensures
        fit_children(judge, next.with_node(at, key, node), piece, k, items),
{
    let n = next.with_node(at, key, node);
    assert forall|j: int| 0 <= j < items.len() implies {
        &&& holds(n.nodes, (#[trigger] items[j]).node)
        &&& items[j].current_piece == piece
        &&& E::Accumulator::modest(items[j].reward)
        &&& items[j].acc.scorable()
        &&& GenView::<E>::move_leads(judge, n, piece, k, items[j])
    } by {
        assert(holds(next.nodes, items[j].node));
        assert(GenView::<E>::move_leads(judge, next, piece, k, items[j]));
    }
}

/// What a sound graph says of one generation.
pub proof fn lemma_gen_facts<E: Evaluator>(
    judge: E,
    gens: Seq<GenView<E>>,
    queue: Seq<PieceKind>,
    fresh: Option<(int, Index)>,
    d: int,
)
    requires
        tree_ok(judge, gens, queue, fresh),
        0 <= d < gens.len(),
    ensures
        gens[d].keys_sound(),
        gens[d].nodes_known(),
        gens[d].nodes_sound(),
        gens[d].scores_sound(),
        gens[d].runs_sorted(fresh_at(fresh, d)),
        d == gens.len() - 1 ==> gens[d].childless(),
        d >= 1 ==> valued(judge, gens[d]),
{
    assert(gen_ok(gens[d], fresh_at(fresh, d)));
    reveal(gen_ok);
}

/// What a sound graph says of a generation and the next.
pub proof fn lemma_link_facts<E: Evaluator>(
    judge: E,
    gens: Seq<GenView<E>>,
    queue: Seq<PieceKind>,
    fresh: Option<(int, Index)>,
    d: int,
)
    requires
        tree_ok(judge, gens, queue, fresh),
        0 <= d < gens.len() - 1,
    ensures
        d < queue.len(),
        gens[d].targets_sound(gens[d + 1], queue[d]),
        gens[d].scores_current(gens[d + 1], fresh_at(fresh, d)),
        gens[d].moves_lead(judge, gens[d + 1], queue[d]),
        gens[d].parents_sound(gens[d + 1]),
        unfolded(gens[d], queue[d]),
        registered(gens[d], gens[d + 1], fresh_at(fresh, d)),
{
    lemma_links(judge, gens, queue, fresh, d);
    reveal(link_ok);
}

/// The moves of the line of play that follows the first child of each node,
/// from the state `s` at depth `d` on, as far as the nodes have children and
/// the queue has pieces.
pub open spec fn greedy<E: Evaluator>(
    gens: Seq<GenView<E>>,
    queue: Seq<PieceKind>,
    d: int,
    s: State,
) -> Seq<Move>
    decreases gens.len() - d,
{
    if d < 0 || d >= gens.len() || d >= queue.len() || !gens[d].keys.contains_key(s.key_seq()) {
        Seq::empty()
    } else {
        let at = index_of(gens[d].keys[s.key_seq()]);
        if gens[d].node(at).children is None || gens[d].children(at).len() == 0 {
            Seq::empty()
        } else {
            let first = gens[d].children(at)[0];
            seq![first.mv] + greedy(gens, queue, d + 1, s.moved(first.mv, queue[d]))
        }
    }
}

/// In a sound graph, a child of the node of a state leads to the node of the
/// state that its move leads to.
#[verifier::rlimit(50)]
pub proof fn lemma_child_leads<E: Evaluator>(
    judge: E,
    gens: Seq<GenView<E>>,
    queue: Seq<PieceKind>,
    d: int,
    s: State,
    j: int,
)
    requires
        tree_ok(judge, gens, queue, None),
        0 <= d < gens.len(),
        gens[d].keys.contains_key(s.key_seq()),
        gens[d].node(index_of(gens[d].keys[s.key_seq()])).children is Some,
        0 <= j < gens[d].children(index_of(gens[d].keys[s.key_seq()])).len(),
    ensures
        d + 1 < gens.len(),
        d < queue.len(),
        ({
            let a = gens[d].children(index_of(gens[d].keys[s.key_seq()]))[j];
            &&& a.current_piece == queue[d]
            &&& s.applies(a.mv, queue[d])
            &&& gens[d + 1].keys.contains_key(s.moved(a.mv, queue[d]).key_seq())
            &&& gens[d + 1].keys[s.moved(a.mv, queue[d]).key_seq()] == slot_of(a.node)
            &&& holds(gens[d + 1].nodes, a.node)
            &&& a.reward == judge.move_reward(
                a.mv,
                s.outcome(a.mv, queue[d]),
                s.moved(a.mv, queue[d]).situation(Seq::empty()),
            )
        }),
{
    lemma_gen_facts(judge, gens, queue, None, d);
    let at = index_of(gens[d].keys[s.key_seq()]);
    assert(holds(gens[d].nodes, at));
    if d == gens.len() - 1 {
        assert(gens[d].node(at).children is None);
    }
    lemma_link_facts(judge, gens, queue, None, d);
    let run = gens[d].node(at).run();
    let place = Index { shelf: run.shelf, slot: (run.start + j) as usize };
    assert(spans(gens[d].actions, run));
    assert(holds(gens[d].actions, place));
    assert(gens[d].children(at)[j] == gens[d].action(place));
    lemma_state_of_key(s);
    assert(GenView::<E>::move_leads(judge, gens[d + 1],
        queue[d],
        s.key_seq(),
        gens[d].children(index_of(gens[d].keys[s.key_seq()]))[j],
    ));
}

/// True if the generation `after` keeps what `before` held: every node at
/// its place with its score and with the children it had, and every key
/// with its node.
pub open spec fn gen_keeps<E: Evaluator>(after: GenView<E>, before: GenView<E>) -> bool {
    &&& forall|i: Index| #[trigger]
        holds(before.nodes, i) ==> {
            &&& holds(after.nodes, i)
            &&& after.node(i).value == before.node(i).value
            &&& before.node(i).children is Some ==> after.node(i).children == before.node(
                i,
            ).children
        }
    &&& forall|k: Seq<u64>| #[trigger]
        before.keys.contains_key(k) ==> after.keys.contains_key(k) && after.keys[k]
            == before.keys[k]
}

/// True if the generations `after` keep what the generations `before` held.
pub open spec fn keeps<E: Evaluator>(after: Seq<GenView<E>>, before: Seq<GenView<E>>) -> bool {
    &&& after.len() >= before.len()
    &&& forall|d: int| 0 <= d < before.len() ==> #[trigger] gen_keeps(after[d], before[d])
}

/// What is kept over two steps is kept over both.
pub proof fn lemma_keeps_chain<E: Evaluator>(
    last: Seq<GenView<E>>,
    mid: Seq<GenView<E>>,
    first: Seq<GenView<E>>,
)
    requires
        keeps(last, mid),
        keeps(mid, first),
    ensures
        keeps(last, first),
{
    assert forall|d: int| 0 <= d < first.len() implies #[trigger] gen_keeps(last[d], first[d]) by {
        assert(gen_keeps(last[d], mid[d]));
        assert(gen_keeps(mid[d], first[d]));
        assert forall|i: Index| #[trigger] holds(first[d].nodes, i) implies holds(last[d].nodes, i)
            && last[d].node(i).value == first[d].node(i).value && (first[d].node(i).children is Some
            ==> last[d].node(i).children == first[d].node(i).children) by {
            assert(holds(mid[d].nodes, i));
        }
        assert forall|k: Seq<u64>| #[trigger] first[d].keys.contains_key(k) implies last[d].keys.contains_key(
            k,
        ) && last[d].keys[k] == first[d].keys[k] by {
            assert(mid[d].keys.contains_key(k));
        }
    }
}

/// A change of one generation that keeps what it held keeps the graph.
pub proof fn lemma_keeps_update<E: Evaluator>(gens: Seq<GenView<E>>, d: int, g: GenView<E>)
    requires
        0 <= d < gens.len(),
        gen_keeps(g, gens[d]),
    ensures
        keeps(gens.update(d, g), gens),
{
    let after = gens.update(d, g);
    assert forall|e: int| 0 <= e < gens.len() implies #[trigger] gen_keeps(after[e], gens[e]) by {}
}

/// Adding a node under a new key keeps what a generation held.
pub proof fn lemma_keeps_node<E: Evaluator>(g: GenView<E>, at: Index, key: Seq<u64>, node: Node<E>)
    requires
        at.shelf < g.nodes.len(),
        at.slot == g.nodes[at.shelf as int].len(),
        !g.keys.contains_key(key),
    ensures
        gen_keeps(g.with_node(at, key, node), g),
{
}

/// Giving a leaf children, adding a parent, marking a leaf as dead and
/// replacing actions keep what a generation held.
pub proof fn lemma_keeps_rest<E: Evaluator>(
    g: GenView<E>,
    at: Index,
    other: Index,
    range: IndexRange,
    items: Seq<Action<E>>,
)
    ensures
        holds(g.nodes, at) && g.node(at).children is None ==> gen_keeps(
            g.with_children(at, range, items),
            g,
        ),
        gen_keeps(g.with_parent(at, other), g),
        holds(g.nodes, at) ==> gen_keeps(g.with_dead(at), g),
        spans(g.actions, range) && items.len() == range.end - range.start ==> gen_keeps(
            g.with_run(range, items),
            g,
        ),
{
    if spans(g.actions, range) && items.len() == range.end - range.start {
        lemma_run_frame(g, range, items);
    }
}

} // verus!
