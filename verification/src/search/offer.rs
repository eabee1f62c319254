//! What the children of a node offer: the moves that a complete search finds
//! for the piece in hand, as far as they can be played in the state.
use super::generation::{index_of, slot_of, GenView};
use super::node::{Action, Node};
use super::state::State;
use super::storage::{holds, spans, Index, IndexRange};
use super::tree::{gen_ok, refreshed, state_of};
use crate::eval::Evaluator;
use crate::tetris::board::Board;
use crate::tetris::movegen::MoveGenerator;
use crate::tetris::piece::{Move, PieceKind};
use vstd::prelude::*;

verus! {

/// The moves that the actions hold.
pub open spec fn moves_of<E: Evaluator>(items: Seq<Action<E>>) -> Set<Move> {
    Set::new(|m: Move| exists|j: int| 0 <= j < items.len() && (#[trigger] items[j]).mv == m)
}

/// The moves of a list that can be played in the state with the piece in hand.
pub open spec fn playable(moves: Seq<Move>, s: State, piece: PieceKind) -> Set<Move> {
    Set::new(
        |m: Move| s.applies(m, piece) && exists|i: int| 0 <= i < moves.len() && #[trigger] moves[i] == m,
    )
}

/// True if the actions hold the moves that a complete search finds in the
/// state for the piece in hand, with the hold in use, as far as they can be
/// played there: each of these moves, and no other.
pub open spec fn spread<E: Evaluator>(items: Seq<Action<E>>, s: State, piece: PieceKind) -> bool {
    exists|g: MoveGenerator|
        g.searches(s.board.blocks(), piece, s.hold, true) && moves_of(items) == playable(
            #[trigger] g.move_seq(),
            s,
            piece,
        )
}

/// True if the children of every node of the generation that has any are
/// spread over the moves of its state for the piece.
#[verifier::opaque]
pub open spec fn unfolded<E: Evaluator>(g: GenView<E>, piece: PieceKind) -> bool {
    forall|k: Seq<u64>| #[trigger]
        g.keys.contains_key(k) && g.node(index_of(g.keys[k])).children is Some ==> spread(
            g.children(index_of(g.keys[k])),
            state_of(k),
            piece,
        )
}

/// True if every generation but the last is unfolded for the piece queued at
/// its depth.
pub open spec fn all_unfolded<E: Evaluator>(gens: Seq<GenView<E>>, queue: Seq<PieceKind>) -> bool {
    forall|d: int| 0 <= d < gens.len() - 1 ==> #[trigger] unfolded(gens[d], queue[d])
}

/// One more action adds its move to the moves that the actions hold.
pub proof fn lemma_moves_push<E: Evaluator>(items: Seq<Action<E>>, a: Action<E>)
    ensures
        moves_of(items.push(a)) == moves_of(items).insert(a.mv),
{
    let longer = items.push(a);
    assert forall|m: Move| moves_of(longer).contains(m) implies moves_of(items).insert(a.mv).contains(
        m,
    ) by {
        let j = choose|j: int| 0 <= j < longer.len() && (#[trigger] longer[j]).mv == m;
        if j < items.len() {
            assert(items[j].mv == m);
        }
    }
    assert forall|m: Move| moves_of(items).insert(a.mv).contains(m) implies moves_of(longer).contains(
        m,
    ) by {
        if moves_of(items).contains(m) {
            let j = choose|j: int| 0 <= j < items.len() && (#[trigger] items[j]).mv == m;
            assert(longer[j].mv == m);
        } else {
            assert(longer[items.len() as int].mv == m);
        }
    }
    assert(moves_of(longer) =~= moves_of(items).insert(a.mv));
}

/// A generation without children is unfolded.
pub proof fn lemma_childless_unfolded<E: Evaluator>(g: GenView<E>, piece: PieceKind)
    requires
        g.keys_sound(),
        g.childless(),
    ensures
        unfolded(g, piece),
{
    reveal(unfolded);
    assert forall|k: Seq<u64>| #[trigger]
        g.keys.contains_key(k) && g.node(index_of(g.keys[k])).children is Some implies spread(
        g.children(index_of(g.keys[k])),
        state_of(k),
        piece,
    ) by {
        assert(holds(g.nodes, index_of(g.keys[k])));
    }
}

/// A generation stays unfolded while it keeps its keys and each node with
/// children had them before and holds the same moves in them.
pub proof fn lemma_unfolded_kept<E: Evaluator>(before: GenView<E>, after: GenView<E>, piece: PieceKind)
    requires
        unfolded(before, piece),
        before.keys_sound(),
        after.keys == before.keys,
        forall|i: Index|
            #![trigger after.node(i)]
            holds(before.nodes, i) && after.node(i).children is Some ==> before.node(i).children is Some
                && moves_of(after.children(i)) == moves_of(before.children(i)),
    ensures
        unfolded(after, piece),
{
    reveal(unfolded);
    assert forall|k: Seq<u64>| #[trigger]
        after.keys.contains_key(k) && after.node(index_of(after.keys[k])).children is Some implies spread(
        after.children(index_of(after.keys[k])),
        state_of(k),
        piece,
    ) by {
        let i = index_of(before.keys[k]);
        assert(before.keys.contains_key(k));
        assert(holds(before.nodes, i));
        assert(after.node(i).children is Some);
        assert(spread(before.children(i), state_of(k), piece));
    }
}

/// A generation stays unfolded when a childless node is added to it.
pub proof fn lemma_unfolded_node<E: Evaluator>(
    g: GenView<E>,
    piece: PieceKind,
    at: Index,
    key: Seq<u64>,
    node: Node<E>,
)
    requires
        unfolded(g, piece),
        g.keys_sound(),
        at.shelf < g.nodes.len(),
        at.slot == g.nodes[at.shelf as int].len(),
        !g.keys.contains_key(key),
        node.children is None,
    ensures
        unfolded(g.with_node(at, key, node), piece),
{
    reveal(unfolded);
    let n = g.with_node(at, key, node);
    assert forall|k: Seq<u64>| #[trigger]
        n.keys.contains_key(k) && n.node(index_of(n.keys[k])).children is Some implies spread(
        n.children(index_of(n.keys[k])),
        state_of(k),
        piece,
    ) by {
        if k == key {
            assert(index_of(slot_of(at)) == at);
            assert(n.node(at) == node);
        } else {
            let i = index_of(g.keys[k]);
            assert(g.keys.contains_key(k));
            assert(holds(g.nodes, i));
            assert(n.node(i) == g.node(i));
            assert(spread(g.children(i), state_of(k), piece));
        }
    }
}

/// A generation stays unfolded when a parent is added to a node, and when a
/// leaf is marked as dead.
pub proof fn lemma_unfolded_rest<E: Evaluator>(g: GenView<E>, piece: PieceKind, at: Index, other: Index)
    requires
        unfolded(g, piece),
        g.keys_sound(),
    ensures
        unfolded(g.with_parent(at, other), piece),
        holds(g.nodes, at) ==> unfolded(g.with_dead(at), piece),
{
    lemma_unfolded_kept(g, g.with_parent(at, other), piece);
    if holds(g.nodes, at) {
        let n = g.with_dead(at);
        assert forall|i: Index|
            #![trigger n.node(i)]
            holds(g.nodes, i) && n.node(i).children is Some implies g.node(i).children is Some
            && moves_of(n.children(i)) == moves_of(g.children(i)) by {
            assert(n.node(i).children == g.node(i).children);
        }
        lemma_unfolded_kept(g, n, piece);
    }
}

/// A generation stays unfolded when a leaf gets a run of new actions as
/// children that are spread over the moves of its state.
pub proof fn lemma_unfolded_children<E: Evaluator>(
    g: GenView<E>,
    piece: PieceKind,
    at: Index,
    k: Seq<u64>,
    range: IndexRange,
    items: Seq<Action<E>>,
)
    requires
        unfolded(g, piece),
        gen_ok(g, None),
        holds(g.nodes, at),
        g.node(at).children is None,
        g.keys.contains_key(k),
        g.keys[k] == slot_of(at),
        range.shelf < g.actions.len(),
        range.start == g.actions[range.shelf as int].len(),
        range.end == range.start + items.len(),
        spread(items, state_of(k), piece),
    ensures
        unfolded(g.with_children(at, range, items), piece),
{
    reveal(unfolded);
    reveal(gen_ok);
    let n = g.with_children(at, range, items);
    assert forall|i: Index| holds(g.nodes, i) && i != at implies n.node(i) == g.node(i) by {}
    assert(n.node(at).run() == range);
    assert(n.children(at) =~= items);
    assert forall|c: Seq<u64>| #[trigger]
        n.keys.contains_key(c) && n.node(index_of(n.keys[c])).children is Some implies spread(
        n.children(index_of(n.keys[c])),
        state_of(c),
        piece,
    ) by {
        let i = index_of(g.keys[c]);
        assert(holds(g.nodes, i));
        if i == at {
            assert(g.keys[c] == g.keys[k]);
            assert(c == k);
        } else {
            assert(spans(g.actions, g.node(i).run()));
            assert(n.children(i) =~= g.children(i));
            assert(spread(g.children(i), state_of(c), piece));
        }
    }
}

/// Actions that were refreshed hold the moves that they held.
pub proof fn lemma_refreshed_moves<E: Evaluator>(
    before: Seq<Action<E>>,
    next: GenView<E>,
    items: Seq<Action<E>>,
    from: Seq<int>,
    to: Seq<int>,
)
    requires
        refreshed(before, next, items, from, to),
    ensures
        moves_of(items) == moves_of(before),
{
    assert forall|m: Move| moves_of(items).contains(m) implies moves_of(before).contains(m) by {
        let j = choose|j: int| 0 <= j < items.len() && (#[trigger] items[j]).mv == m;
        assert(before[from[j]].mv == m);
    }
    assert forall|m: Move| moves_of(before).contains(m) implies moves_of(items).contains(m) by {
        let i = choose|i: int| 0 <= i < before.len() && (#[trigger] before[i]).mv == m;
        assert(from[to[i]] == i);
        assert(items[to[i]].mv == m);
    }
    assert(moves_of(items) =~= moves_of(before));
}

/// A generation stays unfolded when the children of a node are refreshed.
pub proof fn lemma_unfolded_run<E: Evaluator>(
    g: GenView<E>,
    next: GenView<E>,
    piece: PieceKind,
    fresh: Option<Index>,
    at: Index,
    items: Seq<Action<E>>,
    from: Seq<int>,
    to: Seq<int>,
)
    requires
        unfolded(g, piece),
        gen_ok(g, fresh),
        holds(g.nodes, at),
        g.node(at).children is Some,
        refreshed(g.children(at), next, items, from, to),
    ensures
        unfolded(g.with_run(g.node(at).run(), items), piece),
{
    let range = g.node(at).run();
    let n = g.with_run(range, items);
    assert(g.keys_sound() && g.nodes_sound() && g.runs_apart()) by {
        reveal(gen_ok);
    }
    assert(spans(g.actions, range));
    super::tree::lemma_run_frame(g, range, items);
    lemma_refreshed_moves(g.children(at), next, items, from, to);
    assert forall|i: Index|
        #![trigger n.node(i)]
        holds(g.nodes, i) && n.node(i).children is Some implies g.node(i).children is Some
        && moves_of(n.children(i)) == moves_of(g.children(i)) by {
        if i != at {
            assert(spans(g.actions, g.node(i).run()));
            assert(holds(g.nodes, i) && holds(g.nodes, at));
        }
    }
    lemma_unfolded_kept(g, n, piece);
}

} // verus!
