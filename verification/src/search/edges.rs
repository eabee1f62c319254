//! The way back from a node to its parents: every node with children is
//! stored as a parent of the target of each child.
use super::generation::{slot_of, GenView};
use super::maps::Slot;
use super::node::{Action, Node};
use super::storage::{holds, spans, Index, IndexRange};
use super::tree::{fresh_at, gen_ok, refreshed};
use crate::eval::Evaluator;
use vstd::prelude::*;

verus! {

/// True if the node at `i` is stored, in the next generation, as a parent of
/// the target of each of its children.
pub open spec fn registered_at<E: Evaluator>(g: GenView<E>, next: GenView<E>, i: Index) -> bool {
    forall|j: int|
        0 <= j < g.children(i).len() ==> {
            let c = (#[trigger] g.children(i)[j]).node;
            &&& holds(next.nodes, c)
            &&& next.parents.contains_key(slot_of(c))
            &&& next.parents[slot_of(c)].contains(slot_of(i))
        }
}

/// True if every node with children, but the node `fresh`, is stored as a
/// parent of the target of each of its children.
#[verifier::opaque]
pub open spec fn registered<E: Evaluator>(g: GenView<E>, next: GenView<E>, fresh: Option<Index>) -> bool {
    forall|i: Index| #[trigger]
        holds(g.nodes, i) && g.node(i).children is Some && fresh != Some(i) ==> registered_at(
            g,
            next,
            i,
        )
}

/// True if every node with children, in every generation but the last, is
/// stored as a parent of the target of each of its children; the node
/// `fresh` is exempt.
pub open spec fn all_registered<E: Evaluator>(
    gens: Seq<GenView<E>>,
    fresh: Option<(int, Index)>,
) -> bool {
    forall|d: int|
        0 <= d < gens.len() - 1 ==> #[trigger] registered(gens[d], gens[d + 1], fresh_at(fresh, d))
}

/// A generation without children has nothing to store.
pub proof fn lemma_childless_registered<E: Evaluator>(g: GenView<E>, next: GenView<E>)
    requires
        g.childless(),
    ensures
        registered(g, next, None),
{
    reveal(registered);
}

/// What is stored stays stored while the first generation keeps the children
/// of its nodes.
pub proof fn lemma_registered_above<E: Evaluator>(
    g: GenView<E>,
    n: GenView<E>,
    next: GenView<E>,
    fresh: Option<Index>,
)
    requires
        registered(g, next, fresh),
        forall|i: Index|
            #![trigger n.node(i)]
            holds(n.nodes, i) && n.node(i).children is Some && fresh != Some(i) ==> holds(g.nodes, i)
                && g.node(i).children is Some && n.children(i) == g.children(i),
    ensures
        registered(n, next, fresh),
{
    reveal(registered);
    assert forall|i: Index| #[trigger]
        holds(n.nodes, i) && n.node(i).children is Some && fresh != Some(i) implies registered_at(
        n,
        next,
        i,
    ) by {
        assert(n.node(i).children is Some);
        assert(registered_at(g, next, i));
    }
}

/// What is stored stays stored while the next generation keeps its nodes and
/// the parents stored in it.
pub proof fn lemma_registered_below<E: Evaluator>(
    g: GenView<E>,
    next: GenView<E>,
    m: GenView<E>,
    fresh: Option<Index>,
)
    requires
        registered(g, next, fresh),
        forall|c: Index| holds(next.nodes, c) ==> holds(m.nodes, c),
        forall|c: Slot, p: Slot|
            #![trigger next.parents[c].contains(p)]
            next.parents.contains_key(c) && next.parents[c].contains(p) ==> m.parents.contains_key(c)
                && m.parents[c].contains(p),
    ensures
        registered(g, m, fresh),
{
    reveal(registered);
    assert forall|i: Index| #[trigger]
        holds(g.nodes, i) && g.node(i).children is Some && fresh != Some(i) implies registered_at(
        g,
        m,
        i,
    ) by {
        assert(registered_at(g, next, i));
        assert forall|j: int| 0 <= j < g.children(i).len() implies {
            let c = (#[trigger] g.children(i)[j]).node;
            &&& holds(m.nodes, c)
            &&& m.parents.contains_key(slot_of(c))
            &&& m.parents[slot_of(c)].contains(slot_of(i))
        } by {
            let c = g.children(i)[j].node;
            assert(next.parents[slot_of(c)].contains(slot_of(i)));
        }
    }
}

/// What is stored stays stored when a childless node is added to the first
/// generation.
pub proof fn lemma_registered_node_above<E: Evaluator>(
    g: GenView<E>,
    next: GenView<E>,
    fresh: Option<Index>,
    at: Index,
    key: Seq<u64>,
    node: Node<E>,
)
    requires
        registered(g, next, fresh),
        at.shelf < g.nodes.len(),
        at.slot == g.nodes[at.shelf as int].len(),
        node.children is None,
    ensures
        registered(g.with_node(at, key, node), next, fresh),
{
    let n = g.with_node(at, key, node);
    assert forall|i: Index|
        #![trigger n.node(i)]
        holds(n.nodes, i) && n.node(i).children is Some && fresh != Some(i) implies holds(g.nodes, i)
        && g.node(i).children is Some && n.children(i) == g.children(i) by {
        if i == at {
            assert(n.node(at) == node);
        } else {
            assert(holds(g.nodes, i));
            assert(n.node(i) == g.node(i));
        }
    }
    lemma_registered_above(g, n, next, fresh);
}

/// What is stored stays stored when a node is added to the next generation.
pub proof fn lemma_registered_node_below<E: Evaluator>(
    g: GenView<E>,
    next: GenView<E>,
    fresh: Option<Index>,
    at: Index,
    key: Seq<u64>,
    node: Node<E>,
)
    requires
        registered(g, next, fresh),
        at.shelf < next.nodes.len(),
        at.slot == next.nodes[at.shelf as int].len(),
    ensures
        registered(g, next.with_node(at, key, node), fresh),
{
    reveal(registered);
    let m = next.with_node(at, key, node);
    assert forall|i: Index| #[trigger]
        holds(g.nodes, i) && g.node(i).children is Some && fresh != Some(i) implies registered_at(
        g,
        m,
        i,
    ) by {
        assert(registered_at(g, next, i));
        assert forall|j: int| 0 <= j < g.children(i).len() implies {
            let c = (#[trigger] g.children(i)[j]).node;
            &&& holds(m.nodes, c)
            &&& m.parents.contains_key(slot_of(c))
            &&& m.parents[slot_of(c)].contains(slot_of(i))
        } by {
            let c = g.children(i)[j].node;
            assert(holds(next.nodes, c));
            assert(c != at);
            assert(slot_of(c) != slot_of(at));
        }
    }
}

/// What is stored stays stored when a parent is added to a node of the next
/// generation.
pub proof fn lemma_registered_parent<E: Evaluator>(
    g: GenView<E>,
    next: GenView<E>,
    fresh: Option<Index>,
    child: Index,
    parent: Index,
)
    requires
        registered(g, next, fresh),
    ensures
        registered(g, next.with_parent(child, parent), fresh),
{
    let m = next.with_parent(child, parent);
    assert forall|c: Slot, p: Slot|
        #![trigger next.parents[c].contains(p)]
        next.parents.contains_key(c) && next.parents[c].contains(p) implies m.parents.contains_key(c)
        && m.parents[c].contains(p) by {
        if c == slot_of(child) {
            let before = next.parents[c];
            let t = choose|t: int| 0 <= t < before.len() && before[t] == p;
            assert(before.push(slot_of(parent))[t] == p);
        }
    }
    lemma_registered_below(g, next, m, fresh);
}

/// A parent that was added to a node is stored for it.
pub proof fn lemma_parent_stored<E: Evaluator>(next: GenView<E>, child: Index, parent: Index)
    requires
        next.parents.contains_key(slot_of(child)),
    ensures
        next.with_parent(child, parent).parents.contains_key(slot_of(child)),
        next.with_parent(child, parent).parents[slot_of(child)].contains(slot_of(parent)),
        forall|c: Slot, p: Slot|
            #![trigger next.parents[c].contains(p)]
            next.parents.contains_key(c) && next.parents[c].contains(p) ==> next.with_parent(
                child,
                parent,
            ).parents.contains_key(c) && next.with_parent(child, parent).parents[c].contains(p),
{
    let m = next.with_parent(child, parent);
    let before = next.parents[slot_of(child)];
    assert(before.push(slot_of(parent))[before.len() as int] == slot_of(parent));
    assert forall|c: Slot, p: Slot|
        #![trigger next.parents[c].contains(p)]
        next.parents.contains_key(c) && next.parents[c].contains(p) implies m.parents.contains_key(c)
        && m.parents[c].contains(p) by {
        if c == slot_of(child) {
            let t = choose|t: int| 0 <= t < before.len() && before[t] == p;
            assert(before.push(slot_of(parent))[t] == p);
        }
    }
}

/// What is stored stays stored when a leaf of the first generation is marked
/// as dead.
pub proof fn lemma_registered_dead<E: Evaluator>(
    g: GenView<E>,
    next: GenView<E>,
    fresh: Option<Index>,
    at: Index,
)
    requires
        registered(g, next, fresh),
        holds(g.nodes, at),
    ensures
        registered(g.with_dead(at), next, fresh),
{
    let n = g.with_dead(at);
    assert forall|i: Index|
        #![trigger n.node(i)]
        holds(n.nodes, i) && n.node(i).children is Some && fresh != Some(i) implies holds(g.nodes, i)
        && g.node(i).children is Some && n.children(i) == g.children(i) by {
        assert(holds(g.nodes, i));
        assert(n.node(i).children == g.node(i).children);
    }
    lemma_registered_above(g, n, next, fresh);
}

/// What is stored stays stored, but for the new children, when a leaf of the
/// first generation gets a run of new actions as children.
pub proof fn lemma_registered_children<E: Evaluator>(
    g: GenView<E>,
    next: GenView<E>,
    at: Index,
    range: IndexRange,
    items: Seq<Action<E>>,
)
    requires
        registered(g, next, None),
        gen_ok(g, None),
        holds(g.nodes, at),
        g.node(at).children is None,
        range.shelf < g.actions.len(),
        range.start == g.actions[range.shelf as int].len(),
        range.end == range.start + items.len(),
    ensures
        registered(g.with_children(at, range, items), next, Some(at)),
{
    reveal(gen_ok);
    reveal(registered);
    let n = g.with_children(at, range, items);
    assert forall|i: Index| #[trigger]
        holds(n.nodes, i) && n.node(i).children is Some && Some(at) != Some(i) implies registered_at(
        n,
        next,
        i,
    ) by {
        assert(holds(g.nodes, i));
        assert(n.node(i) == g.node(i));
        assert(spans(g.actions, g.node(i).run()));
        assert(n.children(i) =~= g.children(i));
        assert(registered_at(g, next, i));
    }
}

/// What is stored stays stored when the children of a node are refreshed;
/// if the node was exempt, it is so no more once it is stored as a parent
/// of the targets of its children.
pub proof fn lemma_registered_run<E: Evaluator>(
    g: GenView<E>,
    next: GenView<E>,
    fresh: Option<Index>,
    at: Index,
    items: Seq<Action<E>>,
    from: Seq<int>,
    to: Seq<int>,
)
    requires
        registered(g, next, fresh),
        gen_ok(g, fresh),
        fresh is None || fresh == Some(at),
        holds(g.nodes, at),
        g.node(at).children is Some,
        registered_at(g, next, at),
        refreshed(g.children(at), next, items, from, to),
    ensures
        registered(g.with_run(g.node(at).run(), items), next, None),
{
    let range = g.node(at).run();
    let n = g.with_run(range, items);
    assert(g.nodes_sound() && g.runs_apart()) by {
        reveal(gen_ok);
    }
    assert(spans(g.actions, range));
    super::tree::lemma_run_frame(g, range, items);
    reveal(registered);
    assert forall|i: Index| #[trigger]
        holds(n.nodes, i) && n.node(i).children is Some implies registered_at(n, next, i) by {
        if i == at {
            assert(n.children(at) == items);
            assert forall|j: int| 0 <= j < items.len() implies {
                let c = (#[trigger] items[j]).node;
                &&& holds(next.nodes, c)
                &&& next.parents.contains_key(slot_of(c))
                &&& next.parents[slot_of(c)].contains(slot_of(at))
            } by {
                assert(items[j].node == g.children(at)[from[j]].node);
            }
        } else {
            assert(spans(g.actions, g.node(i).run()));
            assert(holds(g.nodes, i) && holds(g.nodes, at));
            assert(n.children(i) == g.children(i));
            assert(registered_at(g, next, i));
        }
    }
}

} // verus!
